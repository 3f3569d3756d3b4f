//! In-place composition of single packed orbit words: `a` becomes `a + b`
//! or `a - b`, for the fixed centers (6 pieces), the corners (8), the single
//! edges (12) and the 24-piece orbits.
use vstd::prelude::*;

use crate::bits::{blk, build, lemma_and_le, scatter};
use crate::kinds::{Center, Corner, Piece24};
use crate::ops::{
    add_ori, add_perm, ori_fn, pos_fn, small_positions, span, spec_add_ori, spec_add_perm, spec_sub_ori,
    spec_sub_perm, sub_ori, sub_perm, unori_fn, word_positions,
};

verus! {

/// Block fields: a three-bit and a four-bit permutation field, and the
/// orientation above them.
proof fn lemma_fields(w: u128, i: int)
    ensures
        blk(w, i) & 7 <= 7,
        blk(w, i) & 15 <= 15,
        blk(w, i) >> 3 <= 3,
        blk(w, i) >> 4 <= 1,
{
    let x = blk(w, i);
    lemma_and_le(w >> ((5 * i) as u128), 31);
    lemma_and_le(x, 7);
    lemma_and_le(x, 15);
    vstd::bits::lemma_u128_shr_is_div(x, 3);
    vstd::bits::lemma_u128_shr_is_div(x, 4);
    vstd::arithmetic::power2::lemma2_to64();
}

/// `a + b` for the fixed centers: block `i` of `a` becomes `a[b[i]]`.
pub fn add_6(a: &mut u128, b: u128)
    requires
        word_positions(b, 6),
    ensures
        *final(a) == spec_add_perm::<Center>(*old(a), b),
{
    *a = add_perm::<Center>(*a, b);
}

/// `a + b` for a 24-piece orbit: block `i` of `a` becomes `a[b[i]]`.
pub fn add_24(a: &mut u128, b: u128)
    requires
        word_positions(b, 24),
    ensures
        *final(a) == spec_add_perm::<Piece24>(*old(a), b),
{
    *a = add_perm::<Piece24>(*a, b);
}

/// `a - b` for the fixed centers: piece `a[i]` goes to position `b[i]`.
pub fn sub_6(a: &mut u128, b: u128)
    requires
        word_positions(b, 6),
    ensures
        *final(a) == spec_sub_perm::<Center>(*old(a), b),
{
    *a = sub_perm::<Center>(*a, b);
}

/// `a - b` for a 24-piece orbit: piece `a[i]` goes to position `b[i]`.
pub fn sub_24(a: &mut u128, b: u128)
    requires
        word_positions(b, 24),
    ensures
        *final(a) == spec_sub_perm::<Piece24>(*old(a), b),
{
    *a = sub_perm::<Piece24>(*a, b);
}

/// `a + b` for the corners: block `i` of `a` becomes the corner `a[b[i]]`
/// with the twists of both added modulo 3.
pub fn add_8(a: &mut u64, b: u64)
    ensures
        *final(a) == spec_add_ori::<Corner>(*old(a) as u128, b as u128) as u64,
{
    assert(small_positions(b as u128, 7, 8)) by {
        assert forall|i: int| 0 <= i < 8 implies #[trigger] (blk(b as u128, i) & 7) <= 12 by {
            lemma_fields(b as u128, i);
        }
    }
    *a = add_ori::<Corner>(*a, b) as u64;
}

/// `a - b` for the corners: corner `a[i]` goes to position `b[i]` with the
/// twist of `b[i]` taken away modulo 3.
pub fn sub_8(a: &mut u64, b: u64)
    ensures
        *final(a) == spec_sub_ori::<Corner>(*old(a) as u128, b as u128) as u64,
{
    assert(small_positions(b as u128, 7, 8)) by {
        assert forall|i: int| 0 <= i < 8 implies #[trigger] (blk(b as u128, i) & 7) <= 12 by {
            lemma_fields(b as u128, i);
        }
    }
    assert forall|i: int| 0 <= i < 8 implies #[trigger] (blk(b as u128, i) >> 3) <= (blk(*a as u128, i) >> 3) + 3 by {
        lemma_fields(b as u128, i);
    }
    *a = sub_ori::<Corner>(*a, b) as u64;
}

/// `a + b` for the single edges: block `i` of `a` becomes the edge `a[b[i]]`
/// with the flips of both added modulo 2.
pub fn add_12(a: &mut u128, b: u128)
    ensures
        *final(a) == build(ori_fn(*old(a), b, 15, 4, 2), 12),
{
    let p = *a;
    let mut out: u128 = 0;
    let mut i: usize = 0;
    while i < 12
        invariant
            i <= 12,
            out == build(ori_fn(p, b, 15, 4, 2), i as nat),
        decreases 12 - i,
    {
        proof {
            lemma_fields(b, i as int);
        }
        let bb = (b >> ((5 * i) as u128)) & 31;
        let pos = bb & 15;
        proof {
            lemma_fields(p, pos as int);
        }
        let ab = (p >> ((5 * pos) as u128)) & 31;
        let o = ((bb >> 4u128) + (ab >> 4u128)) % 2;
        let v = (ab & 15) | (o << 4u128);
        out = out | (v << ((5 * i) as u128));
        i = i + 1;
    }
    *a = out;
}

/// `a - b` for the single edges: edge `a[i]` goes to position `b[i]` with
/// the flip of `b[i]` taken away modulo 2.
pub fn sub_12(a: &mut u128, b: u128)
    ensures
        *final(a) == scatter(unori_fn(*old(a), b, 15, 4, 2), pos_fn(b, 15), 12),
{
    let p = *a;
    let mut out: u128 = 0;
    let mut i: usize = 0;
    while i < 12
        invariant
            i <= 12,
            out == scatter(unori_fn(p, b, 15, 4, 2), pos_fn(b, 15), i as nat),
        decreases 12 - i,
    {
        proof {
            lemma_fields(b, i as int);
            lemma_fields(p, i as int);
        }
        let bb = (b >> ((5 * i) as u128)) & 31;
        let ab = (p >> ((5 * i) as u128)) & 31;
        let o = ((ab >> 4u128) + 2 - (bb >> 4u128)) % 2;
        let v = (ab & 15) | (o << 4u128);
        let pos = bb & 15;
        out = out | (v << ((5 * pos) as u128));
        i = i + 1;
    }
    *a = out;
}

} // verus!
