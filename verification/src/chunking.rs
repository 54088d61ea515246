//! Fixed-size chunking: how a byte sequence splits into blocks.
//!
//! A sequence of `len` bytes splits into `ceil(len / cs)` blocks of `cs`
//! bytes each, the last possibly shorter. The blocks concatenate back to the
//! original sequence, which is the mathematical core of the whole-file
//! round trip.

use vstd::prelude::*;
use vstd::arithmetic::div_mod::{lemma_fundamental_div_mod, lemma_mod_bound};
use vstd::arithmetic::mul::lemma_mul_inequality;
use vstd::math::min;

verus! {

/// The number of fixed-size blocks that a byte sequence of length `len`
/// splits into: the ceiling of `len / cs`.
pub open spec fn chunk_count(len: int, cs: int) -> int
    recommends
        cs >= 1,
        len >= 0,
{
    (len + cs - 1) / cs
}

/// The `i`-th fixed-size block of `b`.
pub open spec fn chunk_at(b: Seq<u8>, cs: int, i: int) -> Seq<u8>
    recommends
        cs >= 1,
        0 <= i < chunk_count(b.len() as int, cs),
{
    b.subrange(i * cs, min((i + 1) * cs, b.len() as int))
}

/// The ordered fixed-size blocks of `b`.
pub open spec fn chunks_of(b: Seq<u8>, cs: int) -> Seq<Seq<u8>>
    recommends
        cs >= 1,
{
    Seq::new(chunk_count(b.len() as int, cs) as nat, |i: int| chunk_at(b, cs, i))
}

/// `chunk_count` is the least number of `cs`-sized blocks that cover `len`.
pub proof fn lemma_chunk_count_bounds(len: int, cs: int)
    requires
        cs >= 1,
        len >= 0,
    ensures
        chunk_count(len, cs) >= 0,
        cs * chunk_count(len, cs) >= len,
        cs * (chunk_count(len, cs) - 1) < len,
        len == 0 ==> chunk_count(len, cs) == 0,
        len > 0 ==> chunk_count(len, cs) >= 1,
{
    lemma_fundamental_div_mod(len + cs - 1, cs);
    lemma_mod_bound(len + cs - 1, cs);
    let q = chunk_count(len, cs);
    assert(cs * (q - 1) == cs * q - cs) by (nonlinear_arith);
    if len > 0 && q < 1 {
        lemma_mul_inequality(q, 0, cs);
        assert(q * cs == cs * q && 0 * cs == 0) by (nonlinear_arith);
    }
    if len == 0 && q > 0 {
        lemma_mul_inequality(1, q, cs);
        assert(q * cs == cs * q && 1 * cs == cs) by (nonlinear_arith);
    }
}

/// Any `q` with `cs * q >= len` and `cs * (q - 1) < len` is `chunk_count`.
pub proof fn lemma_chunk_count_unique(len: int, cs: int, q: int)
    requires
        cs >= 1,
        len >= 0,
        cs * q >= len,
        cs * (q - 1) < len,
    ensures
        q == chunk_count(len, cs),
{
    lemma_chunk_count_bounds(len, cs);
    let c = chunk_count(len, cs);
    if q < c {
        lemma_mul_inequality(q, c - 1, cs);
        assert(q * cs == cs * q) by (nonlinear_arith);
        assert((c - 1) * cs == cs * (c - 1)) by (nonlinear_arith);
    }
    if q > c {
        lemma_mul_inequality(c, q - 1, cs);
        assert(c * cs == cs * c) by (nonlinear_arith);
        assert((q - 1) * cs == cs * (q - 1)) by (nonlinear_arith);
    }
}

/// A block index in range starts strictly inside the sequence.
pub proof fn lemma_chunk_at_bounds(len: int, cs: int, i: int)
    requires
        cs >= 1,
        len >= 0,
        0 <= i < chunk_count(len, cs),
    ensures
        0 <= cs * i,
        cs * i < len,
        cs * i == i * cs,
        cs * (i + 1) == (i + 1) * cs,
        cs * i + cs == cs * (i + 1),
{
    lemma_chunk_count_bounds(len, cs);
    lemma_mul_inequality(0, i, cs);
    lemma_mul_inequality(i, chunk_count(len, cs) - 1, cs);
    assert(0 * cs == 0) by (nonlinear_arith);
    assert(i * cs == cs * i) by (nonlinear_arith);
    assert((chunk_count(len, cs) - 1) * cs == cs * (chunk_count(len, cs) - 1))
        by (nonlinear_arith);
    assert((i + 1) * cs == cs * (i + 1)) by (nonlinear_arith);
    assert(cs * i + cs == cs * (i + 1)) by (nonlinear_arith);
}

/// Every block except possibly the last has exactly `cs` bytes; the last has
/// the remainder.
pub proof fn lemma_chunk_sizes(b: Seq<u8>, cs: int, i: int)
    requires
        cs >= 1,
        0 <= i < chunk_count(b.len() as int, cs),
    ensures
        chunks_of(b, cs)[i].len() == min(cs, b.len() - cs * i),
        chunks_of(b, cs)[i].len() >= 1,
        i < chunk_count(b.len() as int, cs) - 1 ==> chunks_of(b, cs)[i].len() == cs,
{
    let len = b.len() as int;
    lemma_chunk_at_bounds(len, cs, i);
    if i < chunk_count(len, cs) - 1 {
        lemma_chunk_at_bounds(len, cs, i + 1);
    }
}

/// Concatenating the first `k` blocks yields the first `min(cs * k, len)`
/// bytes of `b`.
pub proof fn lemma_chunks_prefix_flatten(b: Seq<u8>, cs: int, k: int)
    requires
        cs >= 1,
        0 <= k <= chunk_count(b.len() as int, cs),
    ensures
        chunks_of(b, cs).subrange(0, k).flatten() == b.subrange(0, min(cs * k, b.len() as int)),
    decreases k,
{
    let len = b.len() as int;
    if k == 0 {
        assert(chunks_of(b, cs).subrange(0, 0) =~= Seq::<Seq<u8>>::empty());
        assert(Seq::<Seq<u8>>::empty().flatten() =~= Seq::<u8>::empty());
        assert(cs * 0 == 0) by (nonlinear_arith);
        assert(b.subrange(0, 0) =~= Seq::<u8>::empty());
    } else {
        lemma_chunks_prefix_flatten(b, cs, k - 1);
        let pre = chunks_of(b, cs).subrange(0, k - 1);
        assert(chunks_of(b, cs).subrange(0, k) =~= pre.push(chunk_at(b, cs, k - 1)));
        pre.lemma_flatten_push(chunk_at(b, cs, k - 1));
        lemma_chunk_at_bounds(len, cs, k - 1);
        assert(cs * (k - 1) + cs == cs * k) by (nonlinear_arith);
        assert(min(cs * (k - 1), len) == cs * (k - 1));
        assert(b.subrange(0, cs * (k - 1)) + b.subrange(cs * (k - 1), min(cs * k, len))
            =~= b.subrange(0, min(cs * k, len)));
    }
}

/// The blocks of `b` concatenate back to exactly `b`: the mathematical core
/// of the store-then-reconstruct round trip.
pub proof fn lemma_chunks_of_flatten(b: Seq<u8>, cs: int)
    requires
        cs >= 1,
    ensures
        chunks_of(b, cs).flatten() == b,
{
    let len = b.len() as int;
    let c = chunk_count(len, cs);
    lemma_chunk_count_bounds(len, cs);
    lemma_chunks_prefix_flatten(b, cs, c);
    assert(chunks_of(b, cs).subrange(0, c) =~= chunks_of(b, cs));
    assert(min(cs * c, len) == len);
    assert(b.subrange(0, len) =~= b);
}

} // verus!
