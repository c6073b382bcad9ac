//! Chunked conversion under a truncation budget shared by all sources.
//!
//! A budget below zero means no limit; otherwise it counts the input bytes
//! that may still be converted. A run reads chunks while the budget is not
//! zero, converts as much of each chunk as the budget grants, and hands the
//! budget on to the next source.
use vstd::prelude::*;
use crate::table::{lemma_render_concat, render, AsciiMapping};

verus! {

/// How many bytes of an `n`-byte chunk are converted with `budget` left.
pub open spec fn granted(budget: int, n: int) -> int {
    if budget < 0 || n <= budget {
        n
    } else {
        budget
    }
}

/// The budget left after a chunk of `n` bytes.
pub open spec fn remaining_after(budget: int, n: int) -> int {
    if budget < 0 {
        budget
    } else {
        budget - granted(budget, n)
    }
}

/// What a budget lets through of the whole input `bytes`.
pub open spec fn admitted(budget: int, bytes: Seq<u8>) -> Seq<u8> {
    bytes.take(granted(budget, bytes.len() as int))
}

/// The text produced by reading `chunks` in order, starting with `budget`.
pub open spec fn run_output(table: Seq<Seq<char>>, budget: int, chunks: Seq<Seq<u8>>) -> Seq<
    char,
>
    decreases chunks.len(),
{
    if chunks.len() == 0 || budget == 0 {
        Seq::empty()
    } else {
        render(table, admitted(budget, chunks[0])) + run_output(
            table,
            remaining_after(budget, chunks[0].len() as int),
            chunks.drop_first(),
        )
    }
}

/// The budget left after reading `chunks` in order, starting with `budget`.
pub open spec fn run_budget(budget: int, chunks: Seq<Seq<u8>>) -> int
    decreases chunks.len(),
{
    if chunks.len() == 0 || budget == 0 {
        budget
    } else {
        run_budget(remaining_after(budget, chunks[0].len() as int), chunks.drop_first())
    }
}

/// How many of `chunks` are read at all, starting with `budget`.
pub open spec fn run_reads(budget: int, chunks: Seq<Seq<u8>>) -> nat
    decreases chunks.len(),
{
    if chunks.len() == 0 || budget == 0 {
        0
    } else {
        1 + run_reads(remaining_after(budget, chunks[0].len() as int), chunks.drop_first())
    }
}

/// One read per byte of `bytes`.
pub open spec fn single_byte_reads(bytes: Seq<u8>) -> Seq<Seq<u8>> {
    Seq::new(bytes.len(), |i: int| seq![bytes[i]])
}

/// However the input is cut into reads, a run converts exactly what the
/// budget admits of the whole input, and leaves the budget as one read of
/// the whole input would.
pub proof fn lemma_run_converts_admitted(
    table: Seq<Seq<char>>,
    budget: int,
    chunks: Seq<Seq<u8>>,
)
    ensures
        run_output(table, budget, chunks) == render(table, admitted(budget, chunks.flatten())),
        run_budget(budget, chunks) == remaining_after(budget, chunks.flatten().len() as int),
    decreases chunks.len(),
{
    let all = chunks.flatten();
    if chunks.len() == 0 || budget == 0 {
        assert(admitted(budget, all) =~= Seq::<u8>::empty());
        assert(render(table, Seq::<u8>::empty()) =~= Seq::<char>::empty()) by {
            let f = |x: u8| table[x as int];
            assert(Seq::<u8>::empty().map_values(f) =~= Seq::<Seq<char>>::empty());
        }
    } else {
        let c = chunks[0];
        let rest = chunks.drop_first();
        let next = remaining_after(budget, c.len() as int);
        assert(all == c + rest.flatten());
        lemma_run_converts_admitted(table, next, rest);
        let tail = admitted(next, rest.flatten());
        if budget < 0 {
            assert(admitted(budget, all) =~= c + rest.flatten());
            assert(admitted(budget, c) =~= c);
            assert(tail =~= rest.flatten());
            lemma_render_concat(table, c, rest.flatten());
        } else if budget <= c.len() {
            assert(admitted(budget, all) =~= admitted(budget, c));
            assert(tail =~= Seq::<u8>::empty());
            assert(render(table, admitted(budget, c)) + render(table, tail) =~= render(
                table,
                admitted(budget, c),
            )) by {
                lemma_render_concat(table, admitted(budget, c), tail);
                assert(admitted(budget, c) + tail =~= admitted(budget, c));
            }
        } else {
            assert(admitted(budget, c) =~= c);
            assert(admitted(budget, all) =~= c + tail);
            lemma_render_concat(table, c, tail);
        }
    }
}

/// Cutting an input into reads in two different ways changes neither the
/// text nor the budget that is left.
pub proof fn lemma_chunking_irrelevant(
    table: Seq<Seq<char>>,
    budget: int,
    a: Seq<Seq<u8>>,
    b: Seq<Seq<u8>>,
)
    requires
        a.flatten() == b.flatten(),
    ensures
        run_output(table, budget, a) == run_output(table, budget, b),
        run_budget(budget, a) == run_budget(budget, b),
{
    lemma_run_converts_admitted(table, budget, a);
    lemma_run_converts_admitted(table, budget, b);
}

proof fn lemma_single_byte_reads_flatten(bytes: Seq<u8>)
    ensures
        single_byte_reads(bytes).flatten() == bytes,
    decreases bytes.len(),
{
    if bytes.len() == 0 {
        assert(single_byte_reads(bytes) =~= Seq::<Seq<u8>>::empty());
        assert(bytes =~= Seq::<u8>::empty());
    } else {
        let init = bytes.drop_last();
        lemma_single_byte_reads_flatten(init);
        assert(single_byte_reads(bytes) =~= single_byte_reads(init).push(seq![bytes.last()]));
        single_byte_reads(init).lemma_flatten_push(seq![bytes.last()]);
        assert(init + seq![bytes.last()] =~= bytes);
    }
}

/// Reading an input one byte at a time gives the same text, and leaves the
/// same budget, as reading it in a single read.
pub proof fn lemma_byte_reads_match_single_read(
    table: Seq<Seq<char>>,
    budget: int,
    bytes: Seq<u8>,
)
    ensures
        run_output(table, budget, single_byte_reads(bytes)) == run_output(
            table,
            budget,
            seq![bytes],
        ),
        run_budget(budget, single_byte_reads(bytes)) == run_budget(budget, seq![bytes]),
{
    lemma_single_byte_reads_flatten(bytes);
    seq![bytes].lemma_flatten_singleton();
    lemma_chunking_irrelevant(table, budget, single_byte_reads(bytes), seq![bytes]);
}

/// A budget `k >= 0` smaller than the input converts exactly its first `k`
/// bytes and is then used up.
pub proof fn lemma_truncation_exact(table: Seq<Seq<char>>, k: int, chunks: Seq<Seq<u8>>)
    requires
        0 <= k < chunks.flatten().len(),
    ensures
        run_output(table, k, chunks) == render(table, chunks.flatten().take(k)),
        run_budget(k, chunks) == 0,
{
    lemma_run_converts_admitted(table, k, chunks);
}

/// A negative budget converts the whole input and stays as it was.
pub proof fn lemma_unlimited_budget(table: Seq<Seq<char>>, k: int, chunks: Seq<Seq<u8>>)
    requires
        k < 0,
    ensures
        run_output(table, k, chunks) == render(table, chunks.flatten()),
        run_budget(k, chunks) == k,
{
    lemma_run_converts_admitted(table, k, chunks);
    assert(admitted(k, chunks.flatten()) =~= chunks.flatten());
}

/// With a budget `k >= 0` shared by sources `a` and then `b`, `a` is consumed
/// first; once `a` holds at least `k` bytes, the output is its first `k`
/// bytes and `b` is never read.
pub proof fn lemma_budget_shared_across_sources(
    table: Seq<Seq<char>>,
    k: int,
    a: Seq<Seq<u8>>,
    b: Seq<Seq<u8>>,
)
    requires
        0 <= k <= a.flatten().len(),
    ensures
        run_output(table, k, a) == render(table, a.flatten().take(k)),
        run_budget(k, a) == 0,
        run_reads(run_budget(k, a), b) == 0,
        run_output(table, run_budget(k, a), b) == Seq::<char>::empty(),
{
    lemma_run_converts_admitted(table, k, a);
}

/// Whether a source may still be read with `budget` left.
pub fn wants_input(budget: i128) -> (r: bool)
    ensures
        r == (budget != 0),
{
    budget != 0
}

impl AsciiMapping {
    /// Converts the part of one chunk that the budget grants and charges the
    /// budget for it.
    pub fn convert_chunk(&self, chunk: &[u8], budget: &mut i128) -> (r: String)
        ensures
            r@ == render(self@, admitted(*old(budget) as int, chunk@)),
            *final(budget) == remaining_after(*old(budget) as int, chunk@.len() as int),
    {
        let n = chunk.len();
        if *budget < 0 {
            self.convert_u8_slice(chunk, n)
        } else if *budget >= n as i128 {
            *budget = *budget - n as i128;
            self.convert_u8_slice(chunk, n)
        } else {
            let k = *budget as usize;
            *budget = 0;
            self.convert_u8_slice(chunk, k)
        }
    }
}

} // verus!
