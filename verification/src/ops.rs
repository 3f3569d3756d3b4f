//! Composition, inversion, packing and checks on single packed orbit words.
use vstd::prelude::*;

use crate::bits::{blk, build, scatter};
use crate::error::CubeError;
use crate::kinds::{kind_shape, PieceKind};

verus! {

/// Bits 0 .. 64 of a word.
pub open spec fn low64(w: u128) -> u128 {
    w & 0xffff_ffff_ffff_ffff
}

/// The number of blocks that a chunked (three blocks at a time) pass over
/// `len` pieces touches.
pub open spec fn span(len: nat) -> nat {
    3 * ((len + 2) / 3)
}

/// Block `i` of the orientation-aware composition `a + b`: the piece that
/// `a` holds at the position named by `b`, with the two orientations added.
pub open spec fn ori_val(a: u128, b: u128, i: int, pm: u128, sh: u128, md: u128) -> u128 {
    let bb = blk(b, i);
    let ab = blk(a, (bb & pm) as int);
    (ab & pm) | ((((((bb >> sh) + (ab >> sh)) as int) % (md as int)) as u128) << sh)
}

pub open spec fn ori_fn(a: u128, b: u128, pm: u128, sh: u128, md: u128) -> spec_fn(int) -> u128 {
    |i: int| ori_val(a, b, i, pm, sh, md)
}

/// `a + b` for an orbit with orientation: block `i` is `a[b[i]]` with
/// orientation `(ori(b[i]) + ori(a[b[i]])) mod md`.
pub open spec fn spec_add_ori<P: PieceKind>(a: u128, b: u128) -> u128 {
    build(ori_fn(a, b, P::spec_perm(), P::spec_shift(), P::spec_mod()), P::spec_len())
}

/// Block written by `a - b` at position `b[i]`: the piece `a[i]` with the
/// orientation of `b[i]` taken away.
pub open spec fn unori_val(a: u128, b: u128, i: int, pm: u128, sh: u128, md: u128) -> u128 {
    let ab = blk(a, i);
    let bb = blk(b, i);
    (ab & pm) | (((((ab >> sh) + md - (bb >> sh)) as int % (md as int)) as u128) << sh)
}

pub open spec fn unori_fn(a: u128, b: u128, pm: u128, sh: u128, md: u128) -> spec_fn(int) -> u128 {
    |i: int| unori_val(a, b, i, pm, sh, md)
}

pub open spec fn pos_fn(b: u128, pm: u128) -> spec_fn(int) -> u128 {
    |i: int| blk(b, i) & pm
}

/// `a - b` for an orbit with orientation: the piece `a[i]` goes to position
/// `b[i]`, its orientation decreased by that of `b[i]`; bits above 64 are dropped.
pub open spec fn spec_sub_ori<P: PieceKind>(a: u128, b: u128) -> u128 {
    low64(
        scatter(
            unori_fn(a, b, P::spec_perm(), P::spec_shift(), P::spec_mod()),
            pos_fn(b, P::spec_perm()),
            P::spec_len(),
        ),
    )
}

pub open spec fn compose_fn(a: u128, b: u128) -> spec_fn(int) -> u128 {
    |i: int| blk(a, blk(b, i) as int)
}

/// `a + b` for a pure permutation orbit: block `i` is `a[b[i]]`.
pub open spec fn spec_add_perm<P: PieceKind>(a: u128, b: u128) -> u128 {
    build(compose_fn(a, b), span(P::spec_len()))
}

pub open spec fn blk_fn(w: u128) -> spec_fn(int) -> u128 {
    |i: int| blk(w, i)
}

/// `a - b` for a pure permutation orbit: the piece `a[i]` goes to position `b[i]`.
pub open spec fn spec_sub_perm<P: PieceKind>(a: u128, b: u128) -> u128 {
    scatter(blk_fn(a), blk_fn(b), span(P::spec_len()))
}

/// Every position named by the first `n` blocks of `b` can be shifted to
/// inside a `u64` word.
pub open spec fn small_positions(b: u128, pm: u128, n: nat) -> bool {
    forall|i: int| 0 <= i < n ==> #[trigger] (blk(b, i) & pm) <= 12
}

/// Every block among the first `n` blocks of `b` names a block of a `u128` word.
pub open spec fn word_positions(b: u128, n: nat) -> bool {
    forall|i: int| 0 <= i < n ==> #[trigger] blk(b, i) <= 25
}

/// The permutation field of piece `i` of `w`.
pub open spec fn perm_at<P: PieceKind>(w: u128, i: int) -> u128 {
    blk(w, i) & P::spec_perm()
}

/// The orientation field of piece `i` of `w`.
pub open spec fn ori_at<P: PieceKind>(w: u128, i: int) -> u128 {
    (blk(w, i) >> P::spec_shift()) & P::spec_ori()
}

/// A piece block built from a permutation index and an orientation.
pub open spec fn piece_block<P: PieceKind>(p: u8, o: u8) -> u128 {
    (p as u128) | ((o as u128) << P::spec_shift())
}

pub open spec fn pack_fn<P: PieceKind>(s: Seq<(u8, u8)>) -> spec_fn(int) -> u128 {
    |i: int| piece_block::<P>(s[i].0, s[i].1)
}

/// The word that packs the (perm, ori) pairs of `s`, one per block.
pub open spec fn spec_pack<P: PieceKind>(s: Seq<(u8, u8)>) -> u128 {
    build(pack_fn::<P>(s), P::spec_len())
}

/// The (perm, ori) pairs of the pieces of a packed orbit.
pub open spec fn unpack_seq<P: PieceKind>(w: u128) -> Seq<(u8, u8)> {
    Seq::new(P::spec_len(), |i: int| ((perm_at::<P>(w, i) as u8), (ori_at::<P>(w, i) as u8)))
}

/// The sum of the orientation fields of the first `n` pieces of `w`.
pub open spec fn ori_sum<P: PieceKind>(w: u128, n: nat) -> int
    decreases n,
{
    if n == 0 {
        0
    } else {
        ori_sum::<P>(w, (n - 1) as nat) + ori_at::<P>(w, n - 1)
    }
}

/// The orientations of the orbit add up to a multiple of its modulus.
pub open spec fn ori_balanced<P: PieceKind>(w: u128) -> bool {
    ori_sum::<P>(w, P::spec_len()) % (P::spec_mod() as int) == 0
}

/// Every pair of home positions `(i, i ^ 1)` holds a pair of pieces `(j, j ^ 1)`.
pub open spec fn pairs_assembled<P: PieceKind>(w: u128) -> bool {
    forall|i: int|
        0 <= i < P::spec_len() ==> #[trigger] ((perm_at::<P>(w, i) as u8) ^ 1u8) == (perm_at::<P>(
            w,
            (i as usize ^ 1usize) as int,
        ) as u8)
}

proof fn lemma_chunk(b: u128, i: u128)
    requires
        i + 3 <= 26,
    ensures
        (((b >> (5 * i)) & 32767) & 31) == (b >> ((5 * i) as u128)) & 31,
        ((((b >> (5 * i)) & 32767) >> 5) & 31) == (b >> ((5 * (i + 1)) as u128)) & 31,
        ((((b >> (5 * i)) & 32767) >> 10) & 31) == (b >> ((5 * (i + 2)) as u128)) & 31,
        (b >> (5 * i)) >> 15 == b >> ((5 * (i + 3)) as u128),
{
    assert(
        (((b >> (5 * i)) & 32767) & 31) == (b >> ((5 * i) as u128)) & 31
        && ((((b >> (5 * i)) & 32767) >> 5) & 31) == (b >> ((5 * (i + 1)) as u128)) & 31
        && ((((b >> (5 * i)) & 32767) >> 10) & 31) == (b >> ((5 * (i + 2)) as u128)) & 31
        && (b >> (5 * i)) >> 15 == b >> ((5 * (i + 3)) as u128)
    ) by (bit_vector)
        requires
            i + 3 <= 26,
    ;
}

proof fn lemma_or3(p: u128, x: u128, y: u128, z: u128)
    ensures
        p | (x | y | z) == ((p | x) | y) | z,
{
    assert(p | (x | y | z) == ((p | x) | y) | z) by (bit_vector);
}

/// Extracts the corner block (lower 40 bits) of the first word of a cube.
pub fn get_corner(a: u128) -> (r: u64)
    ensures
        r as u128 == a & 0xff_ffff_ffff,
{
    assert((a & 0xff_ffff_ffff) <= 0xffff_ffff_ffff_ffffu128) by (bit_vector);
    (a & 0xff_ffff_ffffu128) as u64
}

/// Extracts the single-edge block (bits 40 .. 100) of the first word of a cube.
pub fn get_edge(a: u128) -> (r: u64)
    ensures
        r as u128 == (a >> 40) & 0xfff_ffff_ffff_ffff,
{
    assert(((a >> 40) & 0xfff_ffff_ffff_ffff) <= 0xffff_ffff_ffff_ffffu128) by (bit_vector);
    ((a >> 40u128) & 0xfff_ffff_ffff_ffffu128) as u64
}

/// Extracts the fixed-center block (bits 100 ..) of the first word of a cube.
pub fn get_center(a: u128) -> (r: u128)
    ensures
        r == a >> 100,
{
    a >> 100u128
}

/// Orientation-aware composition of two packed orbits: for each piece the
/// permutations are composed and the orientations added modulo the
/// orientation modulus.
pub fn add_ori<P: PieceKind>(a: u64, b: u64) -> (r: u128)
    requires
        P::spec_len() <= 12,
        small_positions(b as u128, P::spec_perm(), P::spec_len()),
    ensures
        r == spec_add_ori::<P>(a as u128, b as u128),
{
    proof {
        P::lemma_shape();
    }
    let a = a as u128;
    let b = b as u128;
    let pm = P::perm();
    let sh = P::shift();
    let md = P::modulus();
    let len = P::len();
    let ghost f = ori_fn(a, b, pm, sh as u128, md);
    let mut out: u128 = 0;
    let mut i: usize = 0;
    while i < len
        invariant
            kind_shape(len as nat, pm, P::spec_ori(), sh as u128, md),
            len == P::spec_len(),
            pm == P::spec_perm(),
            sh == P::spec_shift(),
            md == P::spec_mod(),
            len <= 12,
            i <= len,
            small_positions(b, pm, len as nat),
            f == ori_fn(a, b, pm, sh as u128, md),
            out == build(f, i as nat),
        decreases len - i,
    {
        let shift = (5 * i) as u128;
        let b_block = (b >> shift) & 31;
        assert(b_block == blk(b, i as int));
        assert((blk(b, i as int) & pm) <= 12);
        let b_perm = (b_block & pm) * 5;
        let b_ori = b_block >> sh;
        let a_block = (a >> b_perm) & 31;
        let a_perm = a_block & pm;
        let a_ori = a_block >> sh;
        assert(b_ori <= 31 && a_ori <= 31) by (bit_vector)
            requires
                b_ori == b_block >> sh,
                a_ori == a_block >> sh,
                b_block == (b >> shift) & 31,
                a_block == (a >> b_perm) & 31,
        ;
        let new_ori = ((b_ori + a_ori) % md) << sh;
        out = out | ((a_perm | new_ori) << shift);
        assert(a_block == blk(a, (b_block & pm) as int));
        assert(f(i as int) == (a_perm | new_ori));
        i = i + 1;
    }
    out
}

/// Inverse orientation-aware composition: `a - b`, the inverse of
/// [`add_ori`] when `b` is a permutation.
pub fn sub_ori<P: PieceKind>(a: u64, b: u64) -> (r: u128)
    requires
        P::spec_len() <= 12,
        small_positions(b as u128, P::spec_perm(), P::spec_len()),
        forall|i: int|
            0 <= i < P::spec_len() ==> #[trigger] (blk(b as u128, i) >> P::spec_shift()) <= (blk(
                a as u128,
                i,
            ) >> P::spec_shift()) + P::spec_mod(),
    ensures
        r == spec_sub_ori::<P>(a as u128, b as u128),
{
    proof {
        P::lemma_shape();
    }
    let a = a as u128;
    let b = b as u128;
    let pm = P::perm();
    let sh = P::shift();
    let md = P::modulus();
    let len = P::len();
    let ghost val = unori_fn(a, b, pm, sh as u128, md);
    let ghost pos = pos_fn(b, pm);
    let mut out: u128 = 0;
    let mut i: usize = 0;
    while i < len
        invariant
            kind_shape(len as nat, pm, P::spec_ori(), sh as u128, md),
            len == P::spec_len(),
            pm == P::spec_perm(),
            sh == P::spec_shift(),
            md == P::spec_mod(),
            len <= 12,
            i <= len,
            small_positions(b, pm, len as nat),
            forall|k: int|
                0 <= k < len ==> #[trigger] (blk(b, k) >> sh) <= (blk(a, k) >> sh) + md,
            val == unori_fn(a, b, pm, sh as u128, md),
            pos == pos_fn(b, pm),
            out == scatter(val, pos, i as nat),
        decreases len - i,
    {
        let shift = (5 * i) as u128;
        let b_block = (b >> shift) & 31;
        assert(b_block == blk(b, i as int));
        assert((blk(b, i as int) & pm) <= 12);
        let b_perm = (b_block & pm) * 5;
        let b_ori = b_block >> sh;
        let a_block = (a >> shift) & 31;
        assert(a_block == blk(a, i as int));
        let a_perm = a_block & pm;
        let a_ori = a_block >> sh;
        assert(a_ori <= 31) by (bit_vector)
            requires
                a_ori == a_block >> sh,
                a_block == (a >> shift) & 31,
        ;
        let new_ori = ((a_ori + md - b_ori) % md) << sh;
        out = out | ((a_perm | new_ori) << b_perm);
        assert(val(i as int) == (a_perm | new_ori));
        assert(pos(i as int) == (b_block & pm));
        i = i + 1;
    }
    out & 0xffff_ffff_ffff_ffffu128
}

/// Permutation composition of two packed orbits, three pieces at a time:
/// block `i` of the result is block `b[i]` of `a`.
pub fn add_perm<P: PieceKind>(a: u128, b: u128) -> (r: u128)
    requires
        word_positions(b, span(P::spec_len())),
    ensures
        r == spec_add_perm::<P>(a, b),
{
    proof {
        P::lemma_shape();
    }
    let len = P::len();
    let ghost sp = span(len as nat);
    let ghost f = compose_fn(a, b);
    let mut bb = b;
    assert(b >> 0u128 == b) by (bit_vector);
    let mut p: u128 = 0;
    let mut i: usize = 0;
    while i < len
        invariant
            len == P::spec_len(),
            len <= 24,
            sp == span(len as nat),
            i % 3 == 0,
            i <= sp,
            sp <= 24,
            word_positions(b, sp),
            f == compose_fn(a, b),
            bb == b >> ((5 * i) as u128),
            p == build(f, i as nat),
        decreases sp - i,
    {
        proof {
            lemma_chunk(b, i as u128);
            assert(i + 3 <= sp);
        }
        let idx = bb & 32767;
        let v0 = idx & 31;
        let v1 = (idx >> 5u128) & 31;
        let v2 = (idx >> 10u128) & 31;
        assert(v0 == blk(b, i as int) && v1 == blk(b, i + 1) && v2 == blk(b, i + 2));
        assert(v0 <= 25 && v1 <= 25 && v2 <= 25);
        let p1 = ((a >> (v0 * 5)) & 31) << ((i * 5) as u128);
        let p2 = ((a >> (v1 * 5)) & 31) << (((i + 1) * 5) as u128);
        let p3 = ((a >> (v2 * 5)) & 31) << (((i + 2) * 5) as u128);
        bb = bb >> 15u128;
        proof {
            lemma_or3(p, p1, p2, p3);
            assert(f(i as int) == (a >> (v0 * 5)) & 31);
            assert(f(i + 1) == (a >> (v1 * 5)) & 31);
            assert(f(i + 2) == (a >> (v2 * 5)) & 31);
            assert(build(f, (i + 1) as nat) == build(f, i as nat) | p1);
            assert(build(f, (i + 2) as nat) == build(f, (i + 1) as nat) | p2);
            assert(build(f, (i + 3) as nat) == build(f, (i + 2) as nat) | p3);
        }
        p = p | (p1 | p2 | p3);
        i = i + 3;
    }
    p
}

/// Inverse permutation composition, three pieces at a time: the piece
/// `a[i]` goes to position `b[i]`.  The inverse of [`add_perm`] when `b`
/// is a permutation.
pub fn sub_perm<P: PieceKind>(a: u128, b: u128) -> (r: u128)
    requires
        word_positions(b, span(P::spec_len())),
    ensures
        r == spec_sub_perm::<P>(a, b),
{
    proof {
        P::lemma_shape();
    }
    let len = P::len();
    let ghost sp = span(len as nat);
    let ghost val = blk_fn(a);
    let ghost pos = blk_fn(b);
    let mut aa = a;
    let mut bb = b;
    assert(b >> 0u128 == b && a >> 0u128 == a) by (bit_vector);
    let mut p: u128 = 0;
    let mut i: usize = 0;
    while i < len
        invariant
            len == P::spec_len(),
            len <= 24,
            sp == span(len as nat),
            i % 3 == 0,
            i <= sp,
            sp <= 24,
            word_positions(b, sp),
            val == blk_fn(a),
            pos == blk_fn(b),
            bb == b >> ((5 * i) as u128),
            aa == a >> ((5 * i) as u128),
            p == scatter(val, pos, i as nat),
        decreases sp - i,
    {
        proof {
            lemma_chunk(b, i as u128);
            lemma_chunk(a, i as u128);
            assert(i + 3 <= sp);
        }
        let idx = bb & 32767;
        let vl = aa & 32767;
        let v0 = idx & 31;
        let v1 = (idx >> 5u128) & 31;
        let v2 = (idx >> 10u128) & 31;
        let w0 = vl & 31;
        let w1 = (vl >> 5u128) & 31;
        let w2 = (vl >> 10u128) & 31;
        assert(v0 == blk(b, i as int) && v1 == blk(b, i + 1) && v2 == blk(b, i + 2));
        assert(w0 == blk(a, i as int) && w1 == blk(a, i + 1) && w2 == blk(a, i + 2));
        assert(v0 <= 25 && v1 <= 25 && v2 <= 25);
        let p1 = w0 << (v0 * 5);
        let p2 = w1 << (v1 * 5);
        let p3 = w2 << (v2 * 5);
        bb = bb >> 15u128;
        aa = aa >> 15u128;
        proof {
            lemma_or3(p, p1, p2, p3);
            assert(scatter(val, pos, (i + 1) as nat) == scatter(val, pos, i as nat) | p1);
            assert(scatter(val, pos, (i + 2) as nat) == scatter(val, pos, (i + 1) as nat) | p2);
            assert(scatter(val, pos, (i + 3) as nat) == scatter(val, pos, (i + 2) as nat) | p3);
        }
        p = p | (p1 | p2 | p3);
        i = i + 3;
    }
    p
}

/// Unpacks a packed orbit into `len` (perm, ori) pairs, one per block.
pub fn unpack_u128<P: PieceKind>(value: u128) -> (r: Vec<(u8, u8)>)
    ensures
        r@ == unpack_seq::<P>(value),
{
    proof {
        P::lemma_shape();
    }
    let len = P::len();
    let pm = P::perm();
    let om = P::ori();
    let sh = P::shift();
    let mut vect: Vec<(u8, u8)> = Vec::with_capacity(len);
    let mut i: usize = 0;
    while i < len
        invariant
            kind_shape(len as nat, pm, om, sh as u128, P::spec_mod()),
            len == P::spec_len(),
            pm == P::spec_perm(),
            om == P::spec_ori(),
            sh == P::spec_shift(),
            i <= len,
            vect@.len() == i,
            forall|k: int|
                0 <= k < i ==> #[trigger] vect@[k] == ((perm_at::<P>(value, k) as u8), (ori_at::<P>(
                    value,
                    k,
                ) as u8)),
        decreases len - i,
    {
        let block = (value >> ((i * 5) as u128)) & 31;
        assert(block == blk(value, i as int));
        let p = (block & pm) as u8;
        let o = ((block >> sh) & om) as u8;
        vect.push((p, o));
        i = i + 1;
    }
    assert(vect@ =~= unpack_seq::<P>(value));
    vect
}

/// Packs a slice of (perm, ori) pairs into a single word, one per block.
/// The inverse of [`unpack_u128`].
pub fn pack_u128<P: PieceKind>(slice: &[(u8, u8)]) -> (r: u128)
    requires
        slice@.len() == P::spec_len(),
    ensures
        r == spec_pack::<P>(slice@),
{
    proof {
        P::lemma_shape();
    }
    let len = P::len();
    let sh = P::shift();
    let ghost f = pack_fn::<P>(slice@);
    let mut value: u128 = 0;
    let mut i: usize = 0;
    while i < len
        invariant
            len == P::spec_len(),
            len <= 24,
            sh == P::spec_shift(),
            sh <= 4,
            slice@.len() == len,
            i <= len,
            f == pack_fn::<P>(slice@),
            value == build(f, i as nat),
        decreases len - i,
    {
        let (p, o) = slice[i];
        let block = (p as u128) | ((o as u128) << sh);
        assert(f(i as int) == block);
        value = value | (block << ((i * 5) as u128));
        i = i + 1;
    }
    value
}

/// Checks that the orientations of the orbit add up to a multiple of the
/// orientation modulus.
pub fn orientation_check<P: PieceKind>(value: u128) -> (r: Result<(), CubeError>)
    ensures
        r is Ok <==> ori_balanced::<P>(value),
        r matches Err(e) ==> e matches CubeError::InvalidOrientation { got, mod_ } && got@
            == unpack_seq::<P>(value) && mod_ == P::spec_mod(),
{
    proof {
        P::lemma_shape();
    }
    let len = P::len();
    let om = P::ori();
    let sh = P::shift();
    let md = P::modulus();
    let mut sum: u128 = 0;
    let mut i: usize = 0;
    while i < len
        invariant
            kind_shape(len as nat, P::spec_perm(), om, sh as u128, md),
            len == P::spec_len(),
            om == P::spec_ori(),
            sh == P::spec_shift(),
            md == P::spec_mod(),
            i <= len,
            sum == ori_sum::<P>(value, i as nat),
            sum <= 3 * i,
        decreases len - i,
    {
        let o = (value >> ((i * 5) as u128 + sh as u128)) & om;
        let ghost at = ((value >> ((5 * i) as u128)) & 31) >> (sh as u128) & om;
        assert(o == at) by (bit_vector)
            requires
                o == (value >> ((i * 5) as u128 + sh as u128)) & om,
                at == ((value >> ((5 * i) as u128)) & 31) >> (sh as u128) & om,
                sh <= 4,
                i < 24,
                om == 0 || om == 1 || om == 3,
                om == 3 ==> sh == 3,
                om == 1 ==> sh == 4,
        ;
        assert(at == ori_at::<P>(value, i as int));
        assert(o <= 3) by (bit_vector)
            requires
                o == (value >> ((i * 5) as u128 + sh as u128)) & om,
                om <= 3,
        ;
        sum = sum + o;
        i = i + 1;
    }
    if sum % md != 0 {
        let got = unpack_u128::<P>(value);
        return Err(CubeError::InvalidOrientation { got, mod_: md as usize });
    }
    Ok(())
}


/// Checks that every pair of home positions `(i, i ^ 1)` holds a pair of
/// pieces `(j, j ^ 1)`: the coupled-edge pairs are assembled.
pub fn edge_check<P: PieceKind>(value: u128) -> (r: bool)
    ensures
        r == pairs_assembled::<P>(value),
{
    proof {
        P::lemma_shape();
    }
    let len = P::len();
    let pm = P::perm();
    let mut perm: Vec<u8> = Vec::with_capacity(len);
    let mut k: usize = 0;
    while k < len
        invariant
            kind_shape(len as nat, pm, P::spec_ori(), P::spec_shift(), P::spec_mod()),
            len == P::spec_len(),
            len <= 24,
            pm == P::spec_perm(),
            k <= len,
            perm@.len() == k,
            forall|j: int| 0 <= j < k ==> #[trigger] perm@[j] == perm_at::<P>(value, j) as u8,
        decreases len - k,
    {
        let block = (value >> ((k * 5) as u128)) & pm;
        let ghost at = ((value >> ((5 * k) as u128)) & 31) & pm;
        assert(block == at) by (bit_vector)
            requires
                block == (value >> ((k * 5) as u128)) & pm,
                at == ((value >> ((5 * k) as u128)) & 31) & pm,
                pm == 7 || pm == 15 || pm == 31,
        ;
        assert(at == perm_at::<P>(value, k as int));
        perm.push(block as u8);
        k = k + 1;
    }
    let mut i: usize = 0;
    while i < len
        invariant
            len == P::spec_len(),
            len % 2 == 0,
            len <= 24,
            i <= len,
            perm@.len() == len,
            forall|j: int| 0 <= j < len ==> #[trigger] perm@[j] == perm_at::<P>(value, j) as u8,
            forall|j: int|
                0 <= j < i ==> #[trigger] ((perm_at::<P>(value, j) as u8) ^ 1u8) == (perm_at::<P>(
                    value,
                    (j as usize ^ 1usize) as int,
                ) as u8),
        decreases len - i,
    {
        let partner = i ^ 1;
        assert(partner < len) by (bit_vector)
            requires
                partner == i ^ 1,
                i < len,
                len % 2 == 0,
        ;
        if perm[partner] != (perm[i] ^ 1) {
            return false;
        }
        i = i + 1;
    }
    true
}


/// How a piece block splits into its permutation and orientation fields.
pub proof fn lemma_block_fields(b: u128, p: u128, o: u128, pm: u128, om: u128, sh: u128)
    requires
        (pm == 7 && sh == 3 && om == 3) || (pm == 15 && sh == 4 && om == 1) || (pm == 31 && sh == 0
            && om == 0),
    ensures
        p <= pm && o <= om ==> ((p | (o << sh)) & pm) == p && (((p | (o << sh)) >> sh) & om) == o
            && (p | (o << sh)) < 32,
        p <= pm && o <= om && pm != 31 ==> (p | (o << sh)) >> sh == o,
        b < 32 ==> ((b & pm) | (((b >> sh) & om) << sh)) == b,
        b < 32 && pm != 31 ==> (b >> sh) & om == b >> sh,
        o == 0 ==> (p | (o << sh)) == p,
{
    assert((p <= pm && o <= om ==> ((p | (o << sh)) & pm) == p && (((p | (o << sh)) >> sh) & om)
        == o && (p | (o << sh)) < 32) && (p <= pm && o <= om && pm != 31 ==> (p | (o << sh)) >> sh == o)
        && (b < 32 ==> ((b & pm) | (((b >> sh) & om) << sh)) == b)
        && (b < 32 && pm != 31 ==> (b >> sh) & om == b >> sh) && (o == 0 ==> (p | (o << sh)) == p))
        by (bit_vector)
        requires
            (pm == 7 && sh == 3 && om == 3) || (pm == 15 && sh == 4 && om == 1) || (pm == 31 && sh
                == 0 && om == 0),
    ;
}

/// Unpacking a packed orbit gives back its (perm, ori) pairs, when each
/// pair fits its fields.
pub proof fn law_unpack_pack<P: PieceKind>(s: Seq<(u8, u8)>)
    requires
        s.len() == P::spec_len(),
        forall|i: int| 0 <= i < s.len() ==> (#[trigger] s[i]).0 <= P::spec_perm() && s[i].1 <= P::spec_ori(),
    ensures
        unpack_seq::<P>(spec_pack::<P>(s)) == s,
{
    P::lemma_shape();
    let f = pack_fn::<P>(s);
    assert forall|i: int| 0 <= i < P::spec_len() implies #[trigger] f(i) < 32 by {
        lemma_block_fields(0, s[i].0 as u128, s[i].1 as u128, P::spec_perm(), P::spec_ori(), P::spec_shift());
    }
    crate::bits::lemma_build(f, P::spec_len());
    let w = spec_pack::<P>(s);
    assert forall|i: int| 0 <= i < s.len() implies #[trigger] unpack_seq::<P>(w)[i] == s[i] by {
        assert(blk(w, i) == f(i));
        lemma_block_fields(0, s[i].0 as u128, s[i].1 as u128, P::spec_perm(), P::spec_ori(), P::spec_shift());
    }
    assert(unpack_seq::<P>(w) =~= s);
}

/// Packing the unpacked pairs of a word gives the word back, when nothing
/// is stored above its last piece.
pub proof fn law_pack_unpack<P: PieceKind>(w: u128)
    requires
        w >> ((5 * P::spec_len()) as u128) == 0,
    ensures
        spec_pack::<P>(unpack_seq::<P>(w)) == w,
{
    P::lemma_shape();
    let s = unpack_seq::<P>(w);
    let f = pack_fn::<P>(s);
    assert forall|i: int| 0 <= i < P::spec_len() implies #[trigger] f(i) < 32 && f(i) == blk(w, i) by {
        let b = blk(w, i);
        crate::group::lemma_blk_small(w, i);
        crate::bits::lemma_and_le(b, P::spec_perm());
        crate::bits::lemma_and_le(b >> P::spec_shift(), P::spec_ori());
        lemma_block_fields(b, 0, 0, P::spec_perm(), P::spec_ori(), P::spec_shift());
    }
    crate::bits::lemma_build(f, P::spec_len());
    let x = spec_pack::<P>(s);
    assert forall|j: int| 0 <= j < P::spec_len() implies #[trigger] blk(x, j) == blk(w, j) by {}
    crate::bits::lemma_word_ext(x, w, P::spec_len());
}

} // verus!
