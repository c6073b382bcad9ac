use vstd::prelude::*;
use vstd::seq_lib::lemma_flatten_concat;

verus! {

/// Bytes `0x21..=0x7E` are printable and always pass through verbatim.
pub open spec fn is_printable(b: u8) -> bool {
    0x21 <= b <= 0x7E
}

/// The one-character text of a byte (the byte read as a Unicode scalar).
pub open spec fn verbatim(b: u8) -> Seq<char> {
    seq![b as char]
}

/// The bracketed name of a control code; printable bytes stay themselves and
/// every byte above `0x7F` shares one name.
pub open spec fn mnemonic(b: u8) -> Seq<char> {
    match b {
        0 => "(NUL)"@,
        1 => "(SOH)"@,
        2 => "(STX)"@,
        3 => "(ETX)"@,
        4 => "(EOT)"@,
        5 => "(ENQ)"@,
        6 => "(ACK)"@,
        7 => "(BEL)"@,
        8 => "(BS)"@,
        9 => "(HT)"@,
        10 => "(LF)"@,
        11 => "(VT)"@,
        12 => "(FF)"@,
        13 => "(CR)"@,
        14 => "(SO)"@,
        15 => "(SI)"@,
        16 => "(DLE)"@,
        17 => "(DC1)"@,
        18 => "(DC2)"@,
        19 => "(DC3)"@,
        20 => "(DC4)"@,
        21 => "(NAK)"@,
        22 => "(SYN)"@,
        23 => "(ETB)"@,
        24 => "(CAN)"@,
        25 => "(EM)"@,
        26 => "(SUB)"@,
        27 => "(ESC)"@,
        28 => "(FS)"@,
        29 => "(GS)"@,
        30 => "(RS)"@,
        31 => "(US)"@,
        32 => "(SP)"@,
        127 => "(DEL)"@,
        _ => if is_printable(b) {
            verbatim(b)
        } else {
            "(>7F)"@
        },
    }
}

/// Lowercase hexadecimal digit of a value below 16.
pub open spec fn hex_digit(d: u8) -> char {
    if d < 10 {
        (48 + d) as char
    } else {
        (87 + d) as char
    }
}

/// The four-character escape `\xNN` of a byte, in lowercase hex.
pub open spec fn escaped(b: u8) -> Seq<char> {
    seq!['\\', 'x', hex_digit(b / 16), hex_digit(b % 16)]
}

/// What suppression makes of a byte.
pub open spec fn suppressed(b: u8) -> Seq<char> {
    if is_printable(b) {
        verbatim(b)
    } else {
        Seq::empty()
    }
}

/// How non-printable bytes are rendered.
#[derive(Clone, Copy, Debug, PartialEq, Eq, Structural)]
pub enum ConversionMode {
    /// A bracketed abbreviation, such as `(NUL)` or `(LF)`.
    Mnemonic,
    /// A hex escape, such as `\x00` or `\x0a`.
    Escape,
    /// Nothing at all.
    Suppress,
}

/// The text that a mode gives a byte.
pub open spec fn mode_text(mode: ConversionMode, b: u8) -> Seq<char> {
    match mode {
        ConversionMode::Mnemonic => mnemonic(b),
        ConversionMode::Escape => escaped(b),
        ConversionMode::Suppress => suppressed(b),
    }
}

/// The table entry of byte `b`: printable and excluded bytes pass through,
/// every other byte takes the mode's text.
pub open spec fn table_entry(mode: ConversionMode, excluded: bool, b: u8) -> Seq<char> {
    if is_printable(b) || excluded {
        verbatim(b)
    } else {
        mode_text(mode, b)
    }
}

/// Relies on `<char as ToString>::to_string`: the text holding exactly `c`.
#[verifier::external_body]
fn char_text(c: char) -> (r: String)
    ensures
        r@ == seq![c],
{
    c.to_string()
}

/// Returns a byte's mnemonic representation.
pub fn map_to_mnemonic(c: u8) -> (r: String)
    ensures
        r@ == mnemonic(c),
{
    match c {
        0 => "(NUL)".to_owned(),
        1 => "(SOH)".to_owned(),
        2 => "(STX)".to_owned(),
        3 => "(ETX)".to_owned(),
        4 => "(EOT)".to_owned(),
        5 => "(ENQ)".to_owned(),
        6 => "(ACK)".to_owned(),
        7 => "(BEL)".to_owned(),
        8 => "(BS)".to_owned(),
        9 => "(HT)".to_owned(),
        10 => "(LF)".to_owned(),
        11 => "(VT)".to_owned(),
        12 => "(FF)".to_owned(),
        13 => "(CR)".to_owned(),
        14 => "(SO)".to_owned(),
        15 => "(SI)".to_owned(),
        16 => "(DLE)".to_owned(),
        17 => "(DC1)".to_owned(),
        18 => "(DC2)".to_owned(),
        19 => "(DC3)".to_owned(),
        20 => "(DC4)".to_owned(),
        21 => "(NAK)".to_owned(),
        22 => "(SYN)".to_owned(),
        23 => "(ETB)".to_owned(),
        24 => "(CAN)".to_owned(),
        25 => "(EM)".to_owned(),
        26 => "(SUB)".to_owned(),
        27 => "(ESC)".to_owned(),
        28 => "(FS)".to_owned(),
        29 => "(GS)".to_owned(),
        30 => "(RS)".to_owned(),
        31 => "(US)".to_owned(),
        32 => "(SP)".to_owned(),
        127 => "(DEL)".to_owned(),
        _ => if c <= 126 {
            char_text(c as char)
        } else {
            "(>7F)".to_owned()
        },
    }
}

fn to_hex_digit(d: u8) -> (r: char)
    requires
        d < 16,
    ensures
        r == hex_digit(d),
{
    if d < 10 {
        (48 + d) as char
    } else {
        (87 + d) as char
    }
}

/// Returns a byte's escape sequence `\xNN`.
pub fn map_to_escape(c: u8) -> (r: String)
    ensures
        r@ == escaped(c),
{
    let mut r = "\\x".to_owned();
    let hi = char_text(to_hex_digit(c / 16));
    let lo = char_text(to_hex_digit(c % 16));
    r.append(hi.as_str());
    r.append(lo.as_str());
    proof {
        reveal_strlit("\\x");
        assert(r@ =~= escaped(c));
    }
    r
}

/// Suppress non-printable bytes; a printable byte stays itself.
pub fn map_suppress(c: u8) -> (r: String)
    ensures
        r@ == suppressed(c),
{
    if 33 <= c && c <= 126 {
        char_text(c as char)
    } else {
        String::new()
    }
}

/// The text of a byte sequence: each byte's table entry, in order.
pub open spec fn render(table: Seq<Seq<char>>, bytes: Seq<u8>) -> Seq<char> {
    bytes.map_values(|b: u8| table[b as int]).flatten()
}

/// Appending a byte appends its entry.
pub proof fn lemma_render_push(table: Seq<Seq<char>>, bytes: Seq<u8>, b: u8)
    ensures
        render(table, bytes.push(b)) == render(table, bytes) + table[b as int],
{
    let f = |x: u8| table[x as int];
    assert(bytes.push(b).map_values(f) =~= bytes.map_values(f).push(table[b as int]));
    bytes.map_values(f).lemma_flatten_push(table[b as int]);
}

/// Rendering distributes over concatenation.
pub proof fn lemma_render_concat(table: Seq<Seq<char>>, a: Seq<u8>, b: Seq<u8>)
    ensures
        render(table, a + b) == render(table, a) + render(table, b),
{
    let f = |x: u8| table[x as int];
    assert((a + b).map_values(f) =~= a.map_values(f) + b.map_values(f));
    lemma_flatten_concat(a.map_values(f), b.map_values(f));
}

/// Precomputed text for each of the 256 byte values.
pub struct AsciiMapping {
    mapping: Vec<String>,
}

impl View for AsciiMapping {
    type V = Seq<Seq<char>>;

    closed spec fn view(&self) -> Seq<Seq<char>> {
        self.mapping@.map_values(|s: String| s@)
    }
}

impl AsciiMapping {
    #[verifier::type_invariant]
    spec fn inv(&self) -> bool {
        self.mapping@.len() == 256
    }

    /// Builds the table for `mode`, letting the bytes marked in
    /// `exclusion_list` through unchanged.
    pub fn new(mode: ConversionMode, exclusion_list: [bool; 256]) -> (r: Self)
        ensures
            r@ == Seq::new(256, |i: int| table_entry(mode, exclusion_list@[i], i as u8)),
            forall|b: u8| #[trigger] is_printable(b) ==> r@[b as int] == verbatim(b),
            forall|b: u8| #[trigger] exclusion_list@[b as int] ==> r@[b as int] == verbatim(b),
    {
        let mut mapping: Vec<String> = Vec::new();
        let mut i: usize = 0;
        while i < 256
            invariant
                i <= 256,
                mapping@.len() == i,
                forall|j: int|
                    0 <= j < i ==> (#[trigger] mapping@[j])@ == table_entry(
                        mode,
                        exclusion_list@[j],
                        j as u8,
                    ),
            decreases 256 - i,
        {
            let b = i as u8;
            let entry = if exclusion_list[i] || (33 <= b && b <= 126) {
                char_text(b as char)
            } else {
                match mode {
                    ConversionMode::Mnemonic => map_to_mnemonic(b),
                    ConversionMode::Escape => map_to_escape(b),
                    ConversionMode::Suppress => map_suppress(b),
                }
            };
            mapping.push(entry);
            i = i + 1;
        }
        let r = AsciiMapping { mapping };
        assert(r@ =~= Seq::new(256, |i: int| table_entry(mode, exclusion_list@[i], i as u8)));
        r
    }

    /// The text that the table gives one byte.
    pub fn convert_u8(&self, input: u8) -> (r: &str)
        ensures
            r@ == self@[input as int],
    {
        proof {
            use_type_invariant(self);
        }
        self.mapping[input as usize].as_str()
    }

    /// Converts the first `size` bytes of `input`.
    pub fn convert_u8_slice(&self, input: &[u8], size: usize) -> (r: String)
        requires
            size <= input@.len(),
        ensures
            r@ == render(self@, input@.take(size as int)),
    {
        proof {
            use_type_invariant(self);
        }
        let mut r = String::new();
        let mut i: usize = 0;
        while i < size
            invariant
                size <= input@.len(),
                i <= size,
                self.mapping@.len() == 256,
                r@ == render(self@, input@.take(i as int)),
            decreases size - i,
        {
            let b = input[i];
            r.append(self.mapping[b as usize].as_str());
            proof {
                lemma_render_push(self@, input@.take(i as int), b);
                assert(input@.take(i as int).push(b) =~= input@.take(i + 1));
            }
            i = i + 1;
        }
        r
    }
}

} // verus!
