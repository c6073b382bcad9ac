//! The exclusion list: decimal byte values that pass through verbatim.
use vstd::prelude::*;

verus! {

/// A decimal digit `0`..`9`.
pub open spec fn is_digit(c: char) -> bool {
    '0' <= c && c <= '9'
}

/// One or more characters, all of them decimal digits.
pub open spec fn all_digits(d: Seq<char>) -> bool {
    d.len() > 0 && forall|i: int| 0 <= i < d.len() ==> is_digit(#[trigger] d[i])
}

/// The digits of a token, after an optional leading `+`.
pub open spec fn unsigned_digits(s: Seq<char>) -> Seq<char> {
    if s.len() > 0 && s[0] == '+' {
        s.drop_first()
    } else {
        s
    }
}

/// The value of a string of decimal digits.
pub open spec fn decimal_value(s: Seq<char>) -> int
    decreases s.len(),
{
    if s.len() == 0 {
        0
    } else {
        10 * decimal_value(s.drop_last()) + (s.last() as int - '0' as int)
    }
}

/// The byte that a token names: one or more decimal digits, optionally after
/// a `+`, with a value of at most 255.
pub open spec fn token_byte(s: Seq<char>) -> Option<u8> {
    let d = unsigned_digits(s);
    if all_digits(d) && decimal_value(d) <= 255 {
        Some(decimal_value(d) as u8)
    } else {
        None
    }
}

/// Reads one token of the exclusion list as a byte value.
fn parse_token(s: &str) -> (r: Option<u8>)
    ensures
        r == token_byte(s@),
{
    let n = s.unicode_len();
    let start: usize = if n > 0 && s.get_char(0) == '+' {
        1
    } else {
        0
    };
    let ghost d = unsigned_digits(s@);
    assert(d =~= s@.subrange(start as int, n as int));
    if start == n {
        return None;
    }
    let mut value: u32 = 0;
    let mut i: usize = start;
    while i < n
        invariant
            n == s@.len(),
            start <= i <= n,
            d == unsigned_digits(s@),
            d == s@.subrange(start as int, n as int),
            forall|j: int| start <= j < i ==> is_digit(#[trigger] s@[j]),
            decimal_value(s@.subrange(start as int, i as int)) <= 255 ==> value == decimal_value(
                s@.subrange(start as int, i as int),
            ),
            decimal_value(s@.subrange(start as int, i as int)) > 255 ==> value == 256,
        decreases n - i,
    {
        let c = s.get_char(i);
        if !('0' <= c && c <= '9') {
            assert(!is_digit(d[i - start]));
            return None;
        }
        let ghost prefix = s@.subrange(start as int, i + 1);
        assert(prefix.drop_last() =~= s@.subrange(start as int, i as int));
        let digit = (c as u32) - 48;
        if value <= 255 {
            value = 10 * value + digit;
            if value > 255 {
                value = 256;
            }
        }
        i = i + 1;
    }
    if value <= 255 {
        Some(value as u8)
    } else {
        None
    }
}

/// A token of the exclusion list that names no byte value.
#[derive(Debug)]
pub struct ExcludeError {
    /// The token as it was given.
    pub token: String,
}

/// A list made of one empty token: nothing is excluded.
pub open spec fn is_blank_list(tokens: Seq<String>) -> bool {
    tokens.len() == 1 && tokens[0]@.len() == 0
}

/// Whether some token of the list names byte `b`.
pub open spec fn names_byte(tokens: Seq<String>, b: u8) -> bool {
    exists|i: int| 0 <= i < tokens.len() && token_byte(tokens[i]@) == Some(b)
}

/// Token `i` is the first one that names no byte.
pub open spec fn is_first_unparsable(tokens: Seq<String>, i: int) -> bool {
    &&& 0 <= i < tokens.len()
    &&& token_byte(tokens[i]@) is None
    &&& forall|j: int| 0 <= j < i ==> token_byte(#[trigger] tokens[j]@) is Some
}

/// Parses the exclusion list into a membership array over the 256 byte
/// values. A list of one empty token excludes nothing; otherwise every token
/// must name a byte, and the first one that does not is reported.
pub fn parse_exclude(exclusions: Vec<String>) -> (r: Result<[bool; 256], ExcludeError>)
    ensures
        is_blank_list(exclusions@) ==> r is Ok && forall|b: u8| !(#[trigger] r->Ok_0@[b as int]),
        !is_blank_list(exclusions@) ==> {
            &&& r is Ok <==> forall|i: int|
                0 <= i < exclusions@.len() ==> token_byte(#[trigger] exclusions@[i]@) is Some
            &&& r is Ok ==> forall|b: u8|
                #[trigger] r->Ok_0@[b as int] == names_byte(exclusions@, b)
            &&& r is Err ==> exists|i: int|
                is_first_unparsable(exclusions@, i) && r->Err_0.token@ == exclusions@[i]@
        },
{
    let mut exclude: [bool; 256] = [false; 256];
    if exclusions.len() == 1 && exclusions[0].as_str().is_empty() {
        return Ok(exclude);
    }
    let mut i: usize = 0;
    while i < exclusions.len()
        invariant
            !is_blank_list(exclusions@),
            i <= exclusions@.len(),
            forall|j: int| 0 <= j < i ==> token_byte(#[trigger] exclusions@[j]@) is Some,
            forall|b: u8|
                #[trigger] exclude@[b as int] == (exists|j: int|
                    0 <= j < i && token_byte(exclusions@[j]@) == Some(b)),
        decreases exclusions@.len() - i,
    {
        match parse_token(exclusions[i].as_str()) {
            Some(v) => {
                let ghost before = exclude@;
                exclude[v as usize] = true;
                assert forall|b: u8|
                    #[trigger] exclude@[b as int] == (exists|j: int|
                        0 <= j < i + 1 && token_byte(exclusions@[j]@) == Some(b)) by {
                    if b == v {
                        assert(token_byte(exclusions@[i as int]@) == Some(b));
                    } else {
                        assert(exclude@[b as int] == before[b as int]);
                        if exists|j: int| 0 <= j < i + 1 && token_byte(exclusions@[j]@) == Some(b) {
                            let j = choose|j: int|
                                0 <= j < i + 1 && token_byte(exclusions@[j]@) == Some(b);
                            assert(j < i);
                        }
                    }
                }
            },
            None => {
                assert(is_first_unparsable(exclusions@, i as int));
                return Err(ExcludeError { token: exclusions[i].clone() });
            },
        }
        i = i + 1;
    }
    Ok(exclude)
}

} // verus!
