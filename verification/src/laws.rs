//! The cube-level group laws: composition of valid cubes is associative,
//! the solved cube is neutral, and subtraction adds the inverse.
use vstd::prelude::*;

use crate::arena::{
    add_word0, arena_stride, center_of, composable, corner_of, cube_add, cube_mul, cube_neg, cube_pow, cube_sub,
    edge_of, id_word0, identity_cube, is_odd, sub_word0, ID_24, ID_CENTER, ID_CORNER, ID_EDGE,
    ID_ODD_HIGH,
};
use crate::bits::blk;
use crate::cycles::{is_perm, step};
use crate::group::{
    lemma_blk_small,
    lemma_ori_add, lemma_ori_add_valid, lemma_ori_assoc, lemma_ori_identity, lemma_ori_inverse,
    lemma_ori_neutral,
    lemma_perm_add, lemma_perm_add_valid, lemma_perm_assoc, lemma_perm_inverse,
    lemma_perm_neutral, ori_add, ori_sub, ori_valid, perm_add, perm_identity, perm_sub,
    perm_valid,
};
use crate::group::ori_kind;
use crate::kinds::{Corner, Edge};
use crate::ops::{low64, span, spec_add_ori, spec_sub_ori, word_positions};

verus! {

/// The first word of a valid cube: valid corners, and either nothing else
/// (even dimension) or valid single edges and fixed centers (odd dimension).
pub open spec fn valid0(n: nat, w: u128) -> bool {
    &&& ori_valid(corner_of(w), 8, 7, 3, 3)
    &&& if is_odd(n) {
        ori_valid(edge_of(w), 12, 15, 4, 2) && perm_valid(center_of(w), 6)
    } else {
        w >> 40 == 0
    }
}

/// A cube that is an element of the cube group's packing: every orbit
/// word packs a permutation of its pieces with orientations in range.
pub open spec fn valid_cube(n: nat, c: Seq<u128>) -> bool {
    &&& c.len() == arena_stride(n)
    &&& valid0(n, c[0])
    &&& forall|k: int| 1 <= k < c.len() ==> perm_valid(#[trigger] c[k], 24)
}

pub proof fn lemma_id_words()
    ensures
        perm_identity(ID_CORNER, 8),
        perm_identity(ID_EDGE, 12),
        perm_identity(ID_CENTER, 6),
        perm_identity(ID_24, 24),
{
    assert((247132686368u128 >> 0u128) & 31 == 0u128 && (247132686368u128 >> 5u128) & 31 == 1u128 && (247132686368u128 >> 10u128) & 31 == 2u128 && (247132686368u128 >> 15u128) & 31 == 3u128 && (247132686368u128 >> 20u128) & 31 == 4u128 && (247132686368u128 >> 25u128) & 31 == 5u128 && (247132686368u128 >> 30u128) & 31 == 6u128 && (247132686368u128 >> 35u128) & 31 == 7u128 && 247132686368u128 >> 40u128 == 0) by (bit_vector);
    assert((407901468851537952u128 >> 0u128) & 31 == 0u128 && (407901468851537952u128 >> 5u128) & 31 == 1u128 && (407901468851537952u128 >> 10u128) & 31 == 2u128 && (407901468851537952u128 >> 15u128) & 31 == 3u128 && (407901468851537952u128 >> 20u128) & 31 == 4u128 && (407901468851537952u128 >> 25u128) & 31 == 5u128 && (407901468851537952u128 >> 30u128) & 31 == 6u128 && (407901468851537952u128 >> 35u128) & 31 == 7u128 && (407901468851537952u128 >> 40u128) & 31 == 8u128 && (407901468851537952u128 >> 45u128) & 31 == 9u128 && (407901468851537952u128 >> 50u128) & 31 == 10u128 && (407901468851537952u128 >> 55u128) & 31 == 11u128 && 407901468851537952u128 >> 60u128 == 0) by (bit_vector);
    assert((172066848u128 >> 0u128) & 31 == 0u128 && (172066848u128 >> 5u128) & 31 == 1u128 && (172066848u128 >> 10u128) & 31 == 2u128 && (172066848u128 >> 15u128) & 31 == 3u128 && (172066848u128 >> 20u128) & 31 == 4u128 && (172066848u128 >> 25u128) & 31 == 5u128 && 172066848u128 >> 30u128 == 0) by (bit_vector);
    assert((984818244535754528103549039458486304u128 >> 0u128) & 31 == 0u128 && (984818244535754528103549039458486304u128 >> 5u128) & 31 == 1u128 && (984818244535754528103549039458486304u128 >> 10u128) & 31 == 2u128 && (984818244535754528103549039458486304u128 >> 15u128) & 31 == 3u128 && (984818244535754528103549039458486304u128 >> 20u128) & 31 == 4u128 && (984818244535754528103549039458486304u128 >> 25u128) & 31 == 5u128 && (984818244535754528103549039458486304u128 >> 30u128) & 31 == 6u128 && (984818244535754528103549039458486304u128 >> 35u128) & 31 == 7u128 && (984818244535754528103549039458486304u128 >> 40u128) & 31 == 8u128 && (984818244535754528103549039458486304u128 >> 45u128) & 31 == 9u128 && (984818244535754528103549039458486304u128 >> 50u128) & 31 == 10u128 && (984818244535754528103549039458486304u128 >> 55u128) & 31 == 11u128 && (984818244535754528103549039458486304u128 >> 60u128) & 31 == 12u128 && (984818244535754528103549039458486304u128 >> 65u128) & 31 == 13u128 && (984818244535754528103549039458486304u128 >> 70u128) & 31 == 14u128 && (984818244535754528103549039458486304u128 >> 75u128) & 31 == 15u128 && (984818244535754528103549039458486304u128 >> 80u128) & 31 == 16u128 && (984818244535754528103549039458486304u128 >> 85u128) & 31 == 17u128 && (984818244535754528103549039458486304u128 >> 90u128) & 31 == 18u128 && (984818244535754528103549039458486304u128 >> 95u128) & 31 == 19u128 && (984818244535754528103549039458486304u128 >> 100u128) & 31 == 20u128 && (984818244535754528103549039458486304u128 >> 105u128) & 31 == 21u128 && (984818244535754528103549039458486304u128 >> 110u128) & 31 == 22u128 && (984818244535754528103549039458486304u128 >> 115u128) & 31 == 23u128 && 984818244535754528103549039458486304u128 >> 120u128 == 0) by (bit_vector);
    assert forall|i: int| 0 <= i < 8 implies #[trigger] blk(ID_CORNER, i) == i by {
        assert(i == 0 || i == 1 || i == 2 || i == 3 || i == 4 || i == 5 || i == 6 || i == 7);
    }
    assert forall|i: int| 0 <= i < 12 implies #[trigger] blk(ID_EDGE, i) == i by {
        assert(i == 0 || i == 1 || i == 2 || i == 3 || i == 4 || i == 5 || i == 6 || i == 7 || i == 8 || i == 9 || i == 10 || i == 11);
    }
    assert forall|i: int| 0 <= i < 6 implies #[trigger] blk(ID_CENTER, i) == i by {
        assert(i == 0 || i == 1 || i == 2 || i == 3 || i == 4 || i == 5);
    }
    assert forall|i: int| 0 <= i < 24 implies #[trigger] blk(ID_24, i) == i by {
        assert(i == 0 || i == 1 || i == 2 || i == 3 || i == 4 || i == 5 || i == 6 || i == 7 || i == 8 || i == 9 || i == 10 || i == 11 || i == 12 || i == 13 || i == 14 || i == 15 || i == 16 || i == 17 || i == 18 || i == 19 || i == 20 || i == 21 || i == 22 || i == 23);
    }
}


/// How the three parts of the first word of a cube are packed and read back.
pub proof fn lemma_word_bits(w: u128, c: u128, e: u128, z: u128)
    ensures
        c >> 40 == 0 ==> corner_of(c) == c && low64(c) == c,
        e >> 60 == 0 ==> low64(e) == e,
        z >> 30 == 0 && (z >> 25) & 31 < 8 ==> z >> 28 == 0,
        c >> 40 == 0 && e >> 60 == 0 && z >> 28 == 0 ==> corner_of(c | (e << 40) | (z << 100)) == c
            && edge_of(c | (e << 40) | (z << 100)) == e && center_of(c | (e << 40) | (z << 100)) == z,
        w == corner_of(w) | (edge_of(w) << 40) | (center_of(w) << 100),
{
    assert(
        (c >> 40 == 0 ==> corner_of(c) == c && low64(c) == c)
        && (e >> 60 == 0 ==> low64(e) == e)
        && (z >> 30 == 0 && (z >> 25) & 31 < 8 ==> z >> 28 == 0)
        && (c >> 40 == 0 && e >> 60 == 0 && z >> 28 == 0 ==> corner_of(c | (e << 40) | (z << 100)) == c
            && edge_of(c | (e << 40) | (z << 100)) == e && center_of(c | (e << 40) | (z << 100)) == z)
        && w == corner_of(w) | (edge_of(w) << 40) | (center_of(w) << 100)
    ) by (bit_vector);
}

/// A valid fixed-center word fits in the 28 bits above bit 100.
proof fn lemma_center_fits(z: u128)
    requires
        perm_valid(z, 6),
    ensures
        z >> 28 == 0,
{
    assert(blk(z, 5) < 6);
    assert(blk(z, 5) == (z >> 25) & 31);
    lemma_word_bits(0, 0, 0, z);
}

/// The parts of the first word of `x + y`.
pub(crate) proof fn lemma_word0_add(n: nat, x: u128, y: u128)
    requires
        valid0(n, x),
        valid0(n, y),
    ensures
        valid0(n, add_word0(n, x, y)),
        corner_of(add_word0(n, x, y)) == ori_add(corner_of(x), corner_of(y), 8, 7, 3, 3),
        is_odd(n) ==> edge_of(add_word0(n, x, y)) == ori_add(edge_of(x), edge_of(y), 12, 15, 4, 2),
        is_odd(n) ==> center_of(add_word0(n, x, y)) == perm_add(center_of(x), center_of(y), 6),
{
    let c = ori_add(corner_of(x), corner_of(y), 8, 7, 3, 3);
    lemma_ori_add_valid(corner_of(x), corner_of(y), 8, 7, 3, 3);
    let w = add_word0(n, x, y);
    if is_odd(n) {
        let e = ori_add(edge_of(x), edge_of(y), 12, 15, 4, 2);
        let z = perm_add(center_of(x), center_of(y), 6);
        lemma_ori_add_valid(edge_of(x), edge_of(y), 12, 15, 4, 2);
        lemma_perm_add_valid(center_of(x), center_of(y), 6);
        lemma_center_fits(z);
        assert(w == c | (e << 40) | (z << 100));
        lemma_word_bits(w, c, e, z);
    } else {
        lemma_word_bits(w, c, 0, 0);
    }
}

/// The parts of the first word of `x - y`.
proof fn lemma_word0_sub(n: nat, x: u128, y: u128)
    requires
        valid0(n, x),
        valid0(n, y),
    ensures
        valid0(n, sub_word0(n, x, y)),
        corner_of(sub_word0(n, x, y)) == ori_sub(corner_of(x), corner_of(y), 8, 7, 3, 3),
        is_odd(n) ==> edge_of(sub_word0(n, x, y)) == ori_sub(edge_of(x), edge_of(y), 12, 15, 4, 2),
        is_odd(n) ==> center_of(sub_word0(n, x, y)) == perm_sub(center_of(x), center_of(y), 6),
{
    lemma_id_words();
    let c = ori_sub(corner_of(x), corner_of(y), 8, 7, 3, 3);
    lemma_ori_inverse(corner_of(x), corner_of(y), ID_CORNER, 8, 7, 3, 3);
    lemma_word_bits(0, c, 0, 0);
    let w = sub_word0(n, x, y);
    if is_odd(n) {
        let e = ori_sub(edge_of(x), edge_of(y), 12, 15, 4, 2);
        let z = perm_sub(center_of(x), center_of(y), 6);
        lemma_ori_inverse(edge_of(x), edge_of(y), ID_EDGE, 12, 15, 4, 2);
        lemma_perm_inverse(center_of(x), center_of(y), ID_CENTER, 6);
        lemma_center_fits(z);
        lemma_word_bits(0, 0, e, 0);
        assert(w == c | (e << 40) | (z << 100));
        lemma_word_bits(w, c, e, z);
    } else {
        lemma_word_bits(w, c, 0, 0);
    }
}

/// Two valid first words with the same parts are equal.
pub(crate) proof fn lemma_word0_eq(n: nat, x: u128, y: u128)
    requires
        valid0(n, x),
        valid0(n, y),
        corner_of(x) == corner_of(y),
        is_odd(n) ==> edge_of(x) == edge_of(y) && center_of(x) == center_of(y),
    ensures
        x == y,
{
    lemma_word_bits(x, x, 0, 0);
    lemma_word_bits(y, y, 0, 0);
}

/// The parts of the first word of the solved cube.
pub proof fn lemma_word0_id(n: nat)
    ensures
        valid0(n, id_word0(n)),
        corner_of(id_word0(n)) == ID_CORNER,
        is_odd(n) ==> edge_of(id_word0(n)) == ID_EDGE && center_of(id_word0(n)) == ID_CENTER,
{
    lemma_id_words();
    assert(corner_of(ID_CORNER) == ID_CORNER && ID_CORNER >> 40 == 0
        && corner_of(ID_CORNER | ID_ODD_HIGH) == ID_CORNER
        && edge_of(ID_CORNER | ID_ODD_HIGH) == ID_EDGE
        && center_of(ID_CORNER | ID_ODD_HIGH) == ID_CENTER) by (bit_vector);
    lemma_ori_identity(ID_CORNER, 8, 7, 3, 3);
    lemma_ori_identity(ID_EDGE, 12, 15, 4, 2);
}


/// Every word of a valid cube names only positions that exist: such a cube
/// can always be composed with.
pub proof fn lemma_valid_composable(n: nat, b: Seq<u128>)
    requires
        valid_cube(n, b),
    ensures
        composable(n, b),
{
    assert forall|k: int| 1 <= k < b.len() implies word_positions(#[trigger] b[k], 24) by {
        assert(perm_valid(b[k], 24));
    }
}

/// The solved cube is a valid cube.
pub proof fn law_identity_valid(n: nat)
    requires
        n >= 2,
    ensures
        valid_cube(n, identity_cube(n)),
{
    lemma_id_words();
    lemma_word0_id(n);
}

/// Composition and difference of valid cubes give valid cubes.
pub proof fn law_closed(n: nat, a: Seq<u128>, b: Seq<u128>)
    requires
        n >= 2,
        valid_cube(n, a),
        valid_cube(n, b),
    ensures
        valid_cube(n, cube_add(n, a, b)),
        valid_cube(n, cube_sub(n, a, b)),
{
    assert(span(24) == 24);
    lemma_id_words();
    lemma_word0_add(n, a[0], b[0]);
    lemma_word0_sub(n, a[0], b[0]);
    assert forall|k: int| 1 <= k < a.len() implies perm_valid(#[trigger] cube_add(n, a, b)[k], 24)
        && perm_valid(cube_sub(n, a, b)[k], 24) by {
        lemma_perm_add_valid(a[k], b[k], 24);
        lemma_perm_inverse(a[k], b[k], ID_24, 24);
    }
    assert forall|k: int| 1 <= k < a.len() implies perm_valid(#[trigger] cube_sub(n, a, b)[k], 24) by {
        assert(perm_valid(cube_add(n, a, b)[k], 24));
    }
}

/// Composition of valid cubes is associative: `(a + b) + c == a + (b + c)`.
pub proof fn law_assoc(n: nat, a: Seq<u128>, b: Seq<u128>, c: Seq<u128>)
    requires
        n >= 2,
        valid_cube(n, a),
        valid_cube(n, b),
        valid_cube(n, c),
    ensures
        cube_add(n, cube_add(n, a, b), c) == cube_add(n, a, cube_add(n, b, c)),
{
    assert(span(24) == 24);
    law_closed(n, a, b);
    law_closed(n, b, c);
    let ab = cube_add(n, a, b);
    let bc = cube_add(n, b, c);
    let x = cube_add(n, ab, c);
    let y = cube_add(n, a, bc);
    lemma_word0_add(n, a[0], b[0]);
    lemma_word0_add(n, b[0], c[0]);
    lemma_word0_add(n, ab[0], c[0]);
    lemma_word0_add(n, a[0], bc[0]);
    lemma_ori_assoc(corner_of(a[0]), corner_of(b[0]), corner_of(c[0]), 8, 7, 3, 3);
    if is_odd(n) {
        lemma_ori_assoc(edge_of(a[0]), edge_of(b[0]), edge_of(c[0]), 12, 15, 4, 2);
        lemma_perm_assoc(center_of(a[0]), center_of(b[0]), center_of(c[0]), 6);
    }
    lemma_word0_eq(n, x[0], y[0]);
    assert forall|k: int| 0 <= k < x.len() implies #[trigger] x[k] == y[k] by {
        if k > 0 {
            lemma_perm_assoc(a[k], b[k], c[k], 24);
        }
    }
    assert(x =~= y);
}

/// The solved cube is neutral: `a + id == a == id + a`.
pub proof fn law_identity(n: nat, a: Seq<u128>)
    requires
        n >= 2,
        valid_cube(n, a),
    ensures
        cube_add(n, a, identity_cube(n)) == a,
        cube_add(n, identity_cube(n), a) == a,
{
    assert(span(24) == 24);
    let e = identity_cube(n);
    law_identity_valid(n);
    lemma_id_words();
    lemma_word0_id(n);
    let x = cube_add(n, a, e);
    let y = cube_add(n, e, a);
    lemma_word0_add(n, a[0], e[0]);
    lemma_word0_add(n, e[0], a[0]);
    lemma_ori_neutral(corner_of(a[0]), ID_CORNER, 8, 7, 3, 3);
    if is_odd(n) {
        lemma_ori_neutral(edge_of(a[0]), ID_EDGE, 12, 15, 4, 2);
        lemma_perm_neutral(center_of(a[0]), ID_CENTER, 6);
    }
    lemma_word0_eq(n, x[0], a[0]);
    lemma_word0_eq(n, y[0], a[0]);
    assert forall|k: int| 0 <= k < a.len() implies #[trigger] x[k] == a[k] && y[k] == a[k] by {
        if k > 0 {
            lemma_perm_neutral(a[k], ID_24, 24);
        }
    }
    assert(x =~= a);
    assert(y =~= a);
}

/// Every valid cube has an inverse `-a` with `a + (-a) == id == (-a) + a`,
/// and subtracting `b` is adding `-b`.
pub proof fn law_inverse(n: nat, a: Seq<u128>, b: Seq<u128>)
    requires
        n >= 2,
        valid_cube(n, a),
        valid_cube(n, b),
    ensures
        valid_cube(n, cube_neg(n, b)),
        cube_add(n, b, cube_neg(n, b)) == identity_cube(n),
        cube_add(n, cube_neg(n, b), b) == identity_cube(n),
        cube_sub(n, a, b) == cube_add(n, a, cube_neg(n, b)),
{
    assert(span(24) == 24);
    let e = identity_cube(n);
    law_identity_valid(n);
    lemma_id_words();
    lemma_word0_id(n);
    law_closed(n, e, b);
    let v = cube_neg(n, b);
    lemma_word0_sub(n, e[0], b[0]);
    lemma_word0_sub(n, a[0], b[0]);
    let bv = cube_add(n, b, v);
    let vb = cube_add(n, v, b);
    let s = cube_sub(n, a, b);
    let av = cube_add(n, a, v);
    lemma_word0_add(n, b[0], v[0]);
    lemma_word0_add(n, v[0], b[0]);
    lemma_word0_add(n, a[0], v[0]);
    lemma_ori_inverse(corner_of(a[0]), corner_of(b[0]), ID_CORNER, 8, 7, 3, 3);
    if is_odd(n) {
        lemma_ori_inverse(edge_of(a[0]), edge_of(b[0]), ID_EDGE, 12, 15, 4, 2);
        lemma_perm_inverse(center_of(a[0]), center_of(b[0]), ID_CENTER, 6);
    }
    lemma_word0_eq(n, bv[0], e[0]);
    lemma_word0_eq(n, vb[0], e[0]);
    lemma_word0_eq(n, s[0], av[0]);
    assert forall|k: int| 0 <= k < b.len() implies #[trigger] bv[k] == e[k] && vb[k] == e[k] && s[k]
        == av[k] by {
        if k > 0 {
            lemma_perm_inverse(a[k], b[k], ID_24, 24);
        }
    }
    assert(bv =~= e);
    assert(vb =~= e);
    assert(s =~= av);
}


/// Subtracting `b` undoes adding it, and adding `b` undoes subtracting it:
/// `(a + b) - b == a` and `(a - b) + b == a`.
pub proof fn law_sub_undoes_add(n: nat, a: Seq<u128>, b: Seq<u128>)
    requires
        n >= 2,
        valid_cube(n, a),
        valid_cube(n, b),
    ensures
        cube_sub(n, cube_add(n, a, b), b) == a,
        cube_add(n, cube_sub(n, a, b), b) == a,
{
    let e = identity_cube(n);
    let v = cube_neg(n, b);
    law_closed(n, a, b);
    law_inverse(n, a, b);
    law_inverse(n, cube_add(n, a, b), b);
    law_assoc(n, a, b, v);
    law_assoc(n, a, v, b);
    law_identity(n, a);
}

/// A cube minus itself is the solved cube: `a - a == id`.
pub proof fn law_sub_self(n: nat, a: Seq<u128>)
    requires
        n >= 2,
        valid_cube(n, a),
    ensures
        cube_sub(n, a, a) == identity_cube(n),
{
    law_inverse(n, a, a);
}

/// Inverting twice gives the cube back: `-(-a) == a`.
pub proof fn law_neg_neg(n: nat, a: Seq<u128>)
    requires
        n >= 2,
        valid_cube(n, a),
    ensures
        cube_neg(n, cube_neg(n, a)) == a,
{
    let v = cube_neg(n, a);
    law_inverse(n, a, a);
    let w = cube_neg(n, v);
    law_inverse(n, a, v);
    law_identity(n, w);
    law_assoc(n, w, v, a);
    law_identity(n, a);
}


/// Every power of a valid cube is valid.
pub proof fn law_pow_valid(n: nat, a: Seq<u128>, k: nat)
    requires
        n >= 2,
        valid_cube(n, a),
    ensures
        valid_cube(n, cube_pow(n, a, k)),
    decreases k,
{
    if k == 0 {
        law_identity_valid(n);
    } else {
        law_pow_valid(n, a, (k - 1) as nat);
        law_closed(n, cube_pow(n, a, (k - 1) as nat), a);
    }
}

/// Powers add: `a^p + a^q == a^(p + q)`.
pub proof fn law_pow_add(n: nat, a: Seq<u128>, p: nat, q: nat)
    requires
        n >= 2,
        valid_cube(n, a),
    ensures
        cube_add(n, cube_pow(n, a, p), cube_pow(n, a, q)) == cube_pow(n, a, p + q),
    decreases q,
{
    law_pow_valid(n, a, p);
    if q == 0 {
        law_identity(n, cube_pow(n, a, p));
    } else {
        let q1 = (q - 1) as nat;
        law_pow_add(n, a, p, q1);
        law_pow_valid(n, a, q1);
        law_assoc(n, cube_pow(n, a, p), cube_pow(n, a, q1), a);
        assert(cube_pow(n, a, (p + q1 + 1) as nat) == cube_add(n, cube_pow(n, a, (p + q1) as nat), a));
        assert((p + q1 + 1) as nat == p + q);
    }
}

/// The first power of a valid cube is the cube itself.
pub proof fn law_pow_one(n: nat, a: Seq<u128>)
    requires
        n >= 2,
        valid_cube(n, a),
    ensures
        cube_pow(n, a, 1) == a,
{
    law_identity(n, a);
    assert(cube_pow(n, a, 1) == cube_add(n, cube_pow(n, a, 0), a));
}


/// A permutation word is a permutation of its first `l` five-bit fields.
pub proof fn lemma_perm_word(w: u128, l: nat)
    requires
        perm_valid(w, l),
    ensures
        is_perm(w, 31, l),
{
    assert forall|i: int| 0 <= i < l implies #[trigger] (blk(w, i) & 31) == blk(w, i) by {
        let x = blk(w, i);
        lemma_blk_small(w, i);
        assert(x < 32 ==> x & 31 == x) by (bit_vector);
    }
    assert forall|i: int, j: int| 0 <= i < l && 0 <= j < l && i != j implies #[trigger] step(w, 31, i)
        != #[trigger] step(w, 31, j) by {
        assert(blk(w, i) != blk(w, j));
    }
}

/// Every orbit of a valid cube packs a permutation.
pub proof fn lemma_valid_perms(n: nat, c: Seq<u128>)
    requires
        valid_cube(n, c),
    ensures
        is_perm(corner_of(c[0]), 7, 8),
        is_odd(n) ==> is_perm(edge_of(c[0]), 15, 12),
        is_odd(n) ==> is_perm(center_of(c[0]), 31, 6),
        forall|k: int| 1 <= k < c.len() ==> is_perm(#[trigger] c[k], 31, 24),
{
    let cw = corner_of(c[0]);
    assert forall|i: int, j: int| 0 <= i < 8 && 0 <= j < 8 && i != j implies #[trigger] step(cw, 7, i)
        != #[trigger] step(cw, 7, j) by {
        assert((blk(cw, i) & 7) != (blk(cw, j) & 7));
    }
    if is_odd(n) {
        let ew = edge_of(c[0]);
        assert forall|i: int, j: int| 0 <= i < 12 && 0 <= j < 12 && i != j implies #[trigger] step(
            ew,
            15,
            i,
        ) != #[trigger] step(ew, 15, j) by {
            assert((blk(ew, i) & 15) != (blk(ew, j) & 15));
        }
        lemma_perm_word(center_of(c[0]), 6);
    }
    assert forall|k: int| 1 <= k < c.len() implies is_perm(#[trigger] c[k], 31, 24) by {
        lemma_perm_word(c[k], 24);
    }
}


/// On one orientation orbit, taking `b` away undoes adding it and adding
/// it undoes taking it away.
proof fn lemma_ori_cancel_words(a: u128, b: u128, e: u128, l: nat, pm: u128, sh: u128, md: u128)
    requires
        ori_kind(l, pm, sh, md),
        ori_valid(a, l, pm, sh, md),
        ori_valid(b, l, pm, sh, md),
        perm_identity(e, l),
    ensures
        ori_sub(ori_add(a, b, l, pm, sh, md), b, l, pm, sh, md) == a,
        ori_add(ori_sub(a, b, l, pm, sh, md), b, l, pm, sh, md) == a,
        ori_valid(ori_add(a, b, l, pm, sh, md), l, pm, sh, md),
        ori_valid(ori_sub(a, b, l, pm, sh, md), l, pm, sh, md),
{
    let s = ori_add(a, b, l, pm, sh, md);
    lemma_ori_add_valid(a, b, l, pm, sh, md);
    lemma_ori_inverse(s, b, e, l, pm, sh, md);
    lemma_ori_inverse(a, b, e, l, pm, sh, md);
    let v = ori_sub(e, b, l, pm, sh, md);
    lemma_ori_assoc(a, b, v, l, pm, sh, md);
    lemma_ori_assoc(a, v, b, l, pm, sh, md);
    lemma_ori_neutral(a, e, l, pm, sh, md);
}

/// Corner words: `(a + b) - b == a` and `(a - b) + b == a`, for words that
/// pack a permutation of the 8 corners with orientations below 3.
pub proof fn law_corner_sub_undoes_add(a: u128, b: u128)
    requires
        ori_valid(a, 8, 7, 3, 3),
        ori_valid(b, 8, 7, 3, 3),
    ensures
        spec_sub_ori::<Corner>(spec_add_ori::<Corner>(a, b), b) == a,
        spec_add_ori::<Corner>(spec_sub_ori::<Corner>(a, b), b) == a,
{
    lemma_id_words();
    lemma_ori_cancel_words(a, b, ID_CORNER, 8, 7, 3, 3);
    let s = ori_add(a, b, 8, 7, 3, 3);
    let d = ori_sub(a, b, 8, 7, 3, 3);
    let t = ori_sub(s, b, 8, 7, 3, 3);
    lemma_word_bits(0, t, 0, 0);
    lemma_word_bits(0, d, 0, 0);
}

/// Single-edge words: `(a + b) - b == a` and `(a - b) + b == a`, for words
/// that pack a permutation of the 12 edges with orientations below 2.
pub proof fn law_edge_sub_undoes_add(a: u128, b: u128)
    requires
        ori_valid(a, 12, 15, 4, 2),
        ori_valid(b, 12, 15, 4, 2),
    ensures
        spec_sub_ori::<Edge>(spec_add_ori::<Edge>(a, b), b) == a,
        spec_add_ori::<Edge>(spec_sub_ori::<Edge>(a, b), b) == a,
{
    lemma_id_words();
    lemma_ori_cancel_words(a, b, ID_EDGE, 12, 15, 4, 2);
    let s = ori_add(a, b, 12, 15, 4, 2);
    let d = ori_sub(a, b, 12, 15, 4, 2);
    let t = ori_sub(s, b, 12, 15, 4, 2);
    lemma_word_bits(0, 0, t, 0);
    lemma_word_bits(0, 0, d, 0);
}


/// Multiplying by an integer counts: `0 * a` is the solved cube and
/// `(k + 1) * a == k * a + a` for every integer `k`, negative ones
/// included; so `k * a` and `(-k) * a` undo each other.
pub proof fn law_mul_step(n: nat, a: Seq<u128>, k: int)
    requires
        n >= 2,
        valid_cube(n, a),
    ensures
        cube_mul(n, a, 0) == identity_cube(n),
        valid_cube(n, cube_mul(n, a, k)),
        cube_mul(n, a, k + 1) == cube_add(n, cube_mul(n, a, k), a),
        cube_add(n, cube_mul(n, a, k), cube_mul(n, a, -k)) == identity_cube(n),
{
    law_inverse(n, a, a);
    let v = cube_neg(n, a);
    if k >= 0 {
        law_pow_valid(n, a, k as nat);
        assert(cube_mul(n, a, k + 1) == cube_pow(n, a, (k + 1) as nat));
        law_mul_cancel(n, a, k as nat);
        law_inverse(n, a, a);
    } else {
        let m = (-k) as nat;
        law_pow_valid(n, v, m);
        law_pow_valid(n, v, (m - 1) as nat);
        assert(cube_pow(n, v, m) == cube_add(n, cube_pow(n, v, (m - 1) as nat), v));
        law_assoc(n, cube_pow(n, v, (m - 1) as nat), v, a);
        law_identity(n, cube_pow(n, v, (m - 1) as nat));
        if m == 1 {
            assert(cube_mul(n, a, k + 1) == cube_pow(n, a, 0));
        } else {
            assert(cube_mul(n, a, k + 1) == cube_pow(n, v, (m - 1) as nat));
        }
        law_mul_cancel(n, a, m);
        law_pow_valid(n, a, m);
        law_mul_commute(n, a, m);
    }
}

/// `a^m + (-a)^m` is the solved cube.
proof fn law_mul_cancel(n: nat, a: Seq<u128>, m: nat)
    requires
        n >= 2,
        valid_cube(n, a),
    ensures
        cube_add(n, cube_pow(n, a, m), cube_pow(n, cube_neg(n, a), m)) == identity_cube(n),
        cube_add(n, cube_pow(n, cube_neg(n, a), m), cube_pow(n, a, m)) == identity_cube(n),
    decreases m,
{
    let v = cube_neg(n, a);
    law_inverse(n, a, a);
    law_identity_valid(n);
    if m == 0 {
        law_identity(n, identity_cube(n));
    } else {
        let q = (m - 1) as nat;
        law_mul_cancel(n, a, q);
        let pa = cube_pow(n, a, q);
        let pv = cube_pow(n, v, q);
        law_pow_valid(n, a, q);
        law_pow_valid(n, v, q);
        // a^m = a + a^q and (-a)^m = (-a)^q + (-a)
        law_pow_add(n, a, 1, q);
        law_pow_one(n, a);
        assert((1 + q) as nat == m);
        // (a + a^q) + ((-a)^q + (-a)) == id
        law_closed(n, pv, v);
        law_assoc(n, a, pa, cube_add(n, pv, v));
        law_assoc(n, pa, pv, v);
        law_identity(n, v);
        law_identity(n, a);
        // ((-a)^q + (-a)) + (a + a^q) == id
        law_closed(n, a, pa);
        law_assoc(n, cube_add(n, pv, v), a, pa);
        law_assoc(n, pv, v, a);
        law_identity(n, pv);
        law_identity(n, pa);
    }
}

/// `(-a)^m + a^m == id` as well, taken the other way round.
proof fn law_mul_commute(n: nat, a: Seq<u128>, m: nat)
    requires
        n >= 2,
        valid_cube(n, a),
    ensures
        cube_add(n, cube_mul(n, a, -(m as int)), cube_mul(n, a, m as int)) == identity_cube(n),
{
    law_mul_cancel(n, a, m);
    if m == 0 {
        law_identity_valid(n);
        law_identity(n, identity_cube(n));
    }
}

} // verus!
