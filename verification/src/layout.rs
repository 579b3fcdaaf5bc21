//! Files as arrays of little-endian integers.

use vstd::bytes::*;
use vstd::prelude::*;
use vstd::slice::slice_subrange;

verus! {

/// The 64-bit integer that the bytes hold at place `k`, lowest byte first.
pub open spec fn cell_at(b: Seq<u8>, k: int) -> u64 {
    spec_u64_from_le_bytes(b.subrange(8 * k, 8 * k + 8))
}

/// The bytes as an array of 64-bit integers, lowest byte first; bytes
/// beyond the last whole integer are left out.
pub open spec fn cells(b: Seq<u8>) -> Seq<u64> {
    Seq::new((b.len() / 8) as nat, |k: int| cell_at(b, k))
}

/// The 32-bit integer that the bytes hold at place `k`, lowest byte first.
pub open spec fn word_at(b: Seq<u8>, k: int) -> u32 {
    spec_u32_from_le_bytes(b.subrange(4 * k, 4 * k + 4))
}

/// The bytes as an array of 32-bit integers, lowest byte first; bytes
/// beyond the last whole integer are left out.
pub open spec fn words(b: Seq<u8>) -> Seq<u32> {
    Seq::new((b.len() / 4) as nat, |k: int| word_at(b, k))
}

/// Eight more bytes are one more 64-bit integer.
pub proof fn lemma_cells_push(b: Seq<u8>, x: u64)
    requires
        b.len() % 8 == 0,
    ensures
        cells(b + spec_u64_to_le_bytes(x)) == cells(b).push(x),
        (b + spec_u64_to_le_bytes(x)).len() == b.len() + 8,
{
    lemma_auto_spec_u64_to_from_le_bytes();
    let more = b + spec_u64_to_le_bytes(x);
    let n = b.len() / 8;
    assert(more.len() == b.len() + 8);
    assert(more.len() / 8 == n + 1);
    assert forall|k: int| 0 <= k < n + 1 implies cells(more)[k] == cells(b).push(x)[k] by {
        if k < n {
            assert(more.subrange(8 * k, 8 * k + 8) =~= b.subrange(8 * k, 8 * k + 8));
        } else {
            assert(more.subrange(8 * k, 8 * k + 8) =~= spec_u64_to_le_bytes(x));
        }
    }
    assert(cells(more) =~= cells(b).push(x));
}

/// Four more bytes are one more 32-bit integer.
pub proof fn lemma_words_push(b: Seq<u8>, x: u32)
    requires
        b.len() % 4 == 0,
    ensures
        words(b + spec_u32_to_le_bytes(x)) == words(b).push(x),
        (b + spec_u32_to_le_bytes(x)).len() == b.len() + 4,
{
    lemma_auto_spec_u32_to_from_le_bytes();
    let more = b + spec_u32_to_le_bytes(x);
    let n = b.len() / 4;
    assert(more.len() == b.len() + 4);
    assert(more.len() / 4 == n + 1);
    assert forall|k: int| 0 <= k < n + 1 implies words(more)[k] == words(b).push(x)[k] by {
        if k < n {
            assert(more.subrange(4 * k, 4 * k + 4) =~= b.subrange(4 * k, 4 * k + 4));
        } else {
            assert(more.subrange(4 * k, 4 * k + 4) =~= spec_u32_to_le_bytes(x));
        }
    }
    assert(words(more) =~= words(b).push(x));
}

/// Appends a 64-bit integer, lowest byte first.
pub fn push_cell(out: &mut Vec<u8>, x: u64)
    requires
        old(out)@.len() % 8 == 0,
    ensures
        final(out)@.len() == old(out)@.len() + 8,
        final(out)@.len() % 8 == 0,
        cells(final(out)@) == cells(old(out)@).push(x),
{
    let mut bytes = u64_to_le_bytes(x);
    proof {
        lemma_cells_push(out@, x);
    }
    out.append(&mut bytes);
}

/// Appends a 32-bit integer, lowest byte first.
pub fn push_word(out: &mut Vec<u8>, x: u32)
    requires
        old(out)@.len() % 4 == 0,
    ensures
        final(out)@.len() == old(out)@.len() + 4,
        final(out)@.len() % 4 == 0,
        words(final(out)@) == words(old(out)@).push(x),
{
    let mut bytes = u32_to_le_bytes(x);
    proof {
        lemma_words_push(out@, x);
    }
    out.append(&mut bytes);
}

/// How many whole 64-bit integers the bytes hold.
pub fn cell_count(b: &Vec<u8>) -> (n: usize)
    ensures
        n == cells(b@).len(),
{
    b.len() / 8
}

/// How many whole 32-bit integers the bytes hold.
pub fn word_count(b: &Vec<u8>) -> (n: usize)
    ensures
        n == words(b@).len(),
{
    b.len() / 4
}

/// The 64-bit integer at place `k`.
pub fn get_cell(b: &Vec<u8>, k: usize) -> (r: u64)
    requires
        k < cells(b@).len(),
    ensures
        r == cells(b@)[k as int],
{
    let n = b.len();
    assert(8 * k + 8 <= n) by {
        assert(k < n / 8);
    }
    u64_from_le_bytes(slice_subrange(b.as_slice(), 8 * k, 8 * k + 8))
}

/// The 32-bit integer at place `k`.
pub fn get_word(b: &Vec<u8>, k: usize) -> (r: u32)
    requires
        k < words(b@).len(),
    ensures
        r == words(b@)[k as int],
{
    let n = b.len();
    assert(4 * k + 4 <= n) by {
        assert(k < n / 4);
    }
    u32_from_le_bytes(slice_subrange(b.as_slice(), 4 * k, 4 * k + 4))
}

/// Decides whether a product is no more than a limit.
pub fn product_within(a: usize, b: usize, limit: usize) -> (r: bool)
    ensures
        r == (a * b <= limit),
{
    assert(a as u128 * b as u128 <= 0xffff_ffff_ffff_ffff * 0xffff_ffff_ffff_ffff) by (nonlinear_arith)
        requires
            0 <= a as u128 <= 0xffff_ffff_ffff_ffff,
            0 <= b as u128 <= 0xffff_ffff_ffff_ffff,
    ;
    a as u128 * b as u128 <= limit as u128
}

/// Decides whether a file holds exactly `count` records of `width`
/// integers.
pub fn holds_records(have: usize, width: usize, count: u64) -> (r: bool)
    ensures
        r == (have == width * count),
{
    assert(width as u128 * count as u128 <= 0xffff_ffff_ffff_ffff * 0xffff_ffff_ffff_ffff) by (nonlinear_arith)
        requires
            0 <= width as u128 <= 0xffff_ffff_ffff_ffff,
            0 <= count as u128 <= 0xffff_ffff_ffff_ffff,
    ;
    have as u128 == width as u128 * count as u128
}

/// A signed integer as the unsigned one that lies 2^63 above it.
pub open spec fn biased(x: i64) -> u64 {
    (x + 0x8000_0000_0000_0000) as u64
}

/// The signed integer that lies 2^63 below an unsigned one.
pub open spec fn unbiased(c: u64) -> i64 {
    (c - 0x8000_0000_0000_0000) as i64
}

/// Computes [`biased`].
pub fn bias(x: i64) -> (c: u64)
    ensures
        c == biased(x),
        unbiased(c) == x,
{
    (x as i128 + 0x8000_0000_0000_0000) as u64
}

/// Computes [`unbiased`].
pub fn unbias(c: u64) -> (x: i64)
    ensures
        x == unbiased(c),
        biased(x) == c,
{
    (c as i128 - 0x8000_0000_0000_0000) as i64
}

} // verus!
