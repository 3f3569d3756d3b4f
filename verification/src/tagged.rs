//! Composition of kind-tagged orbit words: a `u128` of 24 five-bit
//! permutation fields and a `u32` of 12 two-bit orientation fields, each
//! with the kind of its orbit in its top three bits.
use vstd::prelude::*;

use crate::bit::{field32, Bit};
use crate::bits::{blk, build};
use crate::group::{lemma_blk_small, perm_add};
use crate::ops::compose_fn;

verus! {

/// The number of pieces of an orbit of each of the six kinds: corners,
/// single edges, fixed centers, and three kinds of 24-piece orbits.
pub open spec fn kind_count(kind: nat) -> nat {
    if kind == 0 {
        8
    } else if kind == 1 {
        12
    } else if kind == 2 {
        6
    } else {
        24
    }
}

/// The number of pieces of an orbit of kind `kind`.
pub fn count_of(kind: usize) -> (r: usize)
    requires
        kind < 6,
    ensures
        r == kind_count(kind as nat),
{
    if kind == 0 {
        8
    } else if kind == 1 {
        12
    } else if kind == 2 {
        6
    } else {
        24
    }
}

/// The word whose two-bit field `i` holds `f(i)`, for `i` in `0 .. n`.
pub open spec fn build2(f: spec_fn(int) -> u32, n: nat) -> u32
    decreases n,
{
    if n == 0 {
        0
    } else {
        build2(f, (n - 1) as nat) | (f(n - 1) << ((2 * (n - 1)) as u32))
    }
}

/// The orientation of a piece after composition: the sum `s` of two
/// orientations modulo 3 for corners, modulo 2 for single edges, and 0
/// for the other kinds.
pub open spec fn add_mod(kind: nat, s: nat) -> u32 {
    if kind == 0 {
        (s % 3) as u32
    } else if kind == 1 {
        (s % 2) as u32
    } else {
        0
    }
}

/// The sum of orientations looked up for piece `j`: the orientation that
/// `o` holds at the position named by `bp` plus that of `bo` at `j`; for
/// the last corner, the sum reduced to its low two bits.
pub open spec fn ori_sum(kind: nat, o: u32, bp: u128, bo: u32, j: int) -> nat {
    let s = o.spec_get(blk(bp, j) as int) as nat + field32(bo, j) as nat;
    if kind == 0 && j == 7 {
        s % 4
    } else {
        s
    }
}

/// Field `j` of the orientations of the composition.
pub open spec fn ori_fn(kind: nat, o: u32, bp: u128, bo: u32) -> spec_fn(int) -> u32 {
    |j: int| add_mod(kind, ori_sum(kind, o, bp, bo, j))
}

/// The bits of tagged words: or is associative, and clearing the kind tag
/// leaves the fields below it.
proof fn lemma_tag_bits(k: u128, x: u128, y: u128, i: u128, k2: u32, x2: u32, y2: u32, j: u32)
    requires
        i < 24,
        j < 12,
    ensures
        k | 0u128 == k,
        k2 | 0u32 == k2,
        (k | x) | y == k | (x | y),
        (k2 | x2) | y2 == k2 | (x2 | y2),
        (((x & !(7u128 << 125u128)) | (0u128 << 125u128)) >> (5 * i)) & 31 == (x >> (5 * i)) & 31,
        (((x2 & !(7u32 << 29u32)) | (0u32 << 29u32)) >> (2 * j)) & 3 == (x2 >> (2 * j)) & 3,
        (y2 >> (2 * j)) & 3 <= 3,
        (y2 >> 0u32) & 3 <= 3,
{
    assert(k | 0u128 == k && k2 | 0u32 == k2 && (k | x) | y == k | (x | y) && (k2 | x2) | y2 == k2 | (x2 | y2) && (((x & !(7u128
        << 125u128)) | (0u128 << 125u128)) >> (5 * i)) & 31 == (x >> (5 * i)) & 31 && (((x2 & !(7u32
        << 29u32)) | (0u32 << 29u32)) >> (2 * j)) & 3 == (x2 >> (2 * j)) & 3 && (y2 >> (2 * j)) & 3 <= 3
        && (y2 >> 0u32) & 3 <= 3) by (bit_vector)
        requires
            i < 24,
            j < 12,
    ;
}

/// The entry of the orientation table for kind `kind` and sum `s`.
fn add_mod_entry(kind: usize, s: u8) -> (r: u32)
    requires
        kind < 3,
        s < 5,
    ensures
        r == add_mod(kind as nat, s as nat),
{
    if kind == 0 {
        if s >= 3 {
            (s - 3) as u32
        } else {
            s as u32
        }
    } else if kind == 1 {
        (s % 2) as u32
    } else {
        0
    }
}

/// `a` becomes `a + b` for a permutation orbit: field `i` of `a`, for each
/// piece `i` of the kind tagged on `a`, becomes the field of `a` at the
/// position named by field `i` of `b`; the tag is kept and the fields past
/// the pieces are cleared.
pub fn from_perm_to_slice(a: &mut u128, b: u128)
    requires
        old(a).spec_kind() < 6,
        forall|i: int|
            0 <= i < kind_count(old(a).spec_kind() as nat) ==> #[trigger] blk(b, i) < 24 && blk(
                *old(a),
                blk(b, i) as int,
            ) < 24,
    ensures
        *final(a) == ((old(a).spec_kind() as u128) << 125u128) | perm_add(
            *old(a),
            b,
            kind_count(old(a).spec_kind() as nat),
        ),
{
    let kind = a.get_kind();
    let count = count_of(kind);
    let p = *a;
    let mut bb = b;
    bb.set_kind(0);
    *a = (kind as u128) << 125u128;
    let ghost f = compose_fn(p, b);
    proof {
        lemma_tag_bits(*a, 0, 0, 0, 0, 0, 0, 0);
    }
    let mut i: usize = 0;
    while i < count
        invariant
            i <= count,
            count == kind_count(kind as nat),
            kind < 6,
            bb == b.spec_with_kind(0),
            forall|j: int| 0 <= j < count ==> #[trigger] blk(b, j) < 24 && blk(p, blk(b, j) as int) < 24,
            *a == ((kind as u128) << 125u128) | build(f, i as nat),
            f == compose_fn(p, b),
        decreases count - i,
    {
        proof {
            lemma_tag_bits(0, b, 0, i as u128, 0, 0, 0, 0);
            lemma_blk_small(p, blk(b, i as int) as int);
        }
        let v = bb.get(i);
        assert(v == blk(b, i as int));
        let w = p.get(v as usize);
        assert(w as u128 == f(i as int));
        proof {
            lemma_tag_bits((kind as u128) << 125u128, build(f, i as nat), f(i as int) << ((5 * i) as u128), 0, 0, 0, 0, 0);
        }
        *a = *a | ((w as u128) << ((5 * i) as u128));
        i = i + 1;
    }
}

/// `a + b` for an orbit with orientations, the kind given: the
/// permutation fields compose as in `from_perm_to_slice`, and orientation
/// field `j` becomes the table entry for the orientation of `a` at the
/// position named by field `j` of `b_perm` plus that of `b_ori` at `j`;
/// both words are tagged with `kind` and their fields past the pieces
/// cleared.
pub fn from_perm_ori_to_slice(a_perm: &mut u128, b_perm: u128, a_ori: &mut u32, b_ori: u32, kind: usize)
    requires
        kind < 3,
        forall|i: int|
            0 <= i < kind_count(kind as nat) ==> #[trigger] blk(b_perm, i) < 24 && blk(
                *old(a_perm),
                blk(b_perm, i) as int,
            ) < 24,
        forall|i: int|
            0 <= i < kind_count(kind as nat) ==> #[trigger] ori_sum(kind as nat, *old(a_ori), b_perm, b_ori, i)
                < 5,
    ensures
        *final(a_perm) == ((kind as u128) << 125u128) | perm_add(*old(a_perm), b_perm, kind_count(kind as nat)),
        *final(a_ori) == ((kind as u32) << 29u32) | build2(
            ori_fn(kind as nat, *old(a_ori), b_perm, b_ori),
            kind_count(kind as nat),
        ),
{
    let count = count_of(kind);
    let p = *a_perm;
    let o = *a_ori;
    *a_perm = (kind as u128) << 125u128;
    *a_ori = (kind as u32) << 29u32;
    let mut bp = b_perm;
    bp.set_kind(0);
    let mut bo = b_ori;
    bo.set_kind(0);
    let ghost f = compose_fn(p, b_perm);
    let ghost g = ori_fn(kind as nat, o, b_perm, b_ori);
    proof {
        lemma_tag_bits(*a_perm, 0, 0, 0, *a_ori, 0, 0, 0);
    }
    let mut i: usize = 0;
    while i < count
        invariant
            i <= count,
            count == kind_count(kind as nat),
            kind < 3,
            bp == b_perm.spec_with_kind(0),
            bo == b_ori.spec_with_kind(0),
            forall|j: int| 0 <= j < count ==> #[trigger] blk(b_perm, j) < 24 && blk(p, blk(b_perm, j) as int) < 24,
            forall|j: int| 0 <= j < count ==> #[trigger] ori_sum(kind as nat, o, b_perm, b_ori, j) < 5,
            f == compose_fn(p, b_perm),
            g == ori_fn(kind as nat, o, b_perm, b_ori),
            *a_perm == ((kind as u128) << 125u128) | build(f, i as nat),
            *a_ori == ((kind as u32) << 29u32) | build2(g, i as nat),
        decreases count - i,
    {
        proof {
            lemma_tag_bits(0, b_perm, 0, i as u128, 0, b_ori, bo, i as u32);
            lemma_blk_small(p, blk(b_perm, i as int) as int);
            let vv = blk(b_perm, i as int);
            if vv < 12 {
                lemma_tag_bits(0, 0, 0, 0, 0, 0, o, vv as u32);
            } else {
                lemma_tag_bits(0, 0, 0, 0, 0, 0, o, 0);
            }
        }
        let v = bp.get(i);
        assert(v == blk(b_perm, i as int));
        let w = p.get(v as usize);
        assert(w as u128 == f(i as int));
        let raw = o.get(v as usize) + bo.get(i);
        assert(bo.spec_get(i as int) == field32(b_ori, i as int));
        let sum = if kind == 0 && i == 7 {
            raw % 4
        } else {
            raw
        };
        assert(sum as nat == ori_sum(kind as nat, o, b_perm, b_ori, i as int));
        let e = add_mod_entry(kind, sum);
        assert(e == g(i as int));
        proof {
            lemma_tag_bits(
                (kind as u128) << 125u128,
                build(f, i as nat),
                f(i as int) << ((5 * i) as u128),
                0,
                (kind as u32) << 29u32,
                build2(g, i as nat),
                g(i as int) << ((2 * i) as u32),
                0,
            );
        }
        *a_perm = *a_perm | ((w as u128) << ((5 * i) as u128));
        *a_ori = *a_ori | (e << ((2 * i) as u32));
        i = i + 1;
    }
}

} // verus!
