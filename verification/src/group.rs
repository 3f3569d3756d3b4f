//! The group structure of packed orbit words: composition is associative,
//! the solved word is neutral, and every valid word has an inverse.
use vstd::prelude::*;
use vstd::set_lib::{lemma_int_range, lemma_map_size, lemma_subset_equality, set_int_range};

use crate::bits::{blk, build, fits, lemma_build, lemma_peel, lemma_scatter, lemma_word_ext, scatter};
use crate::ops::{blk_fn, compose_fn, ori_fn, ori_val, pos_fn, unori_fn, unori_val};

verus! {

/// `w` packs a permutation of `0 .. l`: every block below `l` names a
/// distinct piece below `l`, and nothing is stored above block `l`.
pub open spec fn perm_valid(w: u128, l: nat) -> bool {
    &&& w >> ((5 * l) as u128) == 0
    &&& forall|i: int| 0 <= i < l ==> #[trigger] blk(w, i) < l
    &&& forall|i: int, j: int|
        0 <= i < l && 0 <= j < l && i != j ==> #[trigger] blk(w, i) != #[trigger] blk(w, j)
}

/// The parameters of the two orbits with orientation (corners and edges).
pub open spec fn ori_kind(l: nat, pm: u128, sh: u128, md: u128) -> bool {
    ||| (l == 8 && pm == 7 && sh == 3 && md == 3)
    ||| (l == 12 && pm == 15 && sh == 4 && md == 2)
}

/// `w` packs a permutation of `0 .. l` with an orientation below `md` on
/// every piece, and nothing above block `l`.
pub open spec fn ori_valid(w: u128, l: nat, pm: u128, sh: u128, md: u128) -> bool {
    &&& w >> ((5 * l) as u128) == 0
    &&& forall|i: int| 0 <= i < l ==> #[trigger] (blk(w, i) & pm) < l
    &&& forall|i: int| 0 <= i < l ==> #[trigger] (blk(w, i) >> sh) < md
    &&& forall|i: int, j: int|
        0 <= i < l && 0 <= j < l && i != j ==> #[trigger] (blk(w, i) & pm) != #[trigger] (blk(
            w,
            j,
        ) & pm)
}

/// Some piece below `l` maps to `k`.
pub open spec fn reached(f: spec_fn(int) -> int, l: int, k: int) -> bool {
    exists|i: int| 0 <= i < l && #[trigger] f(i) == k
}

/// Some block below `l` of `b` names `k`.
pub open spec fn named(b: u128, l: nat, k: int) -> bool {
    exists|i: int| 0 <= i < l && #[trigger] blk(b, i) == k
}

/// The identity of `0 .. l`: block `i` holds `i`.
pub open spec fn perm_identity(w: u128, l: nat) -> bool {
    &&& w >> ((5 * l) as u128) == 0
    &&& forall|i: int| 0 <= i < l ==> #[trigger] blk(w, i) == i
}

pub open spec fn perm_add(a: u128, b: u128, l: nat) -> u128 {
    build(compose_fn(a, b), l)
}

pub open spec fn perm_sub(a: u128, b: u128, l: nat) -> u128 {
    scatter(blk_fn(a), blk_fn(b), l)
}

pub open spec fn ori_add(a: u128, b: u128, l: nat, pm: u128, sh: u128, md: u128) -> u128 {
    build(ori_fn(a, b, pm, sh, md), l)
}

pub open spec fn ori_sub(a: u128, b: u128, l: nat, pm: u128, sh: u128, md: u128) -> u128 {
    scatter(unori_fn(a, b, pm, sh, md), pos_fn(b, pm), l)
}

pub proof fn lemma_blk_small(w: u128, i: int)
    ensures
        blk(w, i) < 32,
{
    let s = (5 * i) as u128;
    assert((w >> s) & 31 < 32) by (bit_vector);
}

/// A word whose blocks from `l` on are zero has nothing above block `l`.
pub proof fn lemma_top_zero(x: u128, l: nat)
    requires
        l <= 25,
        forall|j: int| l <= j < 26 ==> #[trigger] blk(x, j) == 0,
    ensures
        x >> ((5 * l) as u128) == 0,
    decreases 25 - l,
{
    if l == 25 {
        assert(blk(x, 25) == 0);
        assert(x >> 125u128 == 0) by (bit_vector)
            requires
                (x >> 125u128) & 31 == 0,
        ;
    } else {
        lemma_top_zero(x, l + 1);
        let ll = l as u128;
        assert(ll as int == l);
        assert(blk(x, ll as int) == 0);
        assert(0u128 >> ((5 * ll) as u128) == 0 && (0u128 >> ((5 * ll) as u128)) & 31 == 0
            && 0u128 >> ((5 * (ll + 1)) as u128) == 0) by (bit_vector);
        lemma_peel(x, 0, ll);
    }
}

/// A map of `0 .. l` into itself that is one-to-one is onto.
pub proof fn lemma_onto(f: spec_fn(int) -> int, l: int)
    requires
        0 <= l,
        forall|i: int| 0 <= i < l ==> 0 <= #[trigger] f(i) < l,
        forall|i: int, j: int| 0 <= i < l && 0 <= j < l && i != j ==> #[trigger] f(i) != #[trigger] f(j),
    ensures
        forall|k: int| 0 <= k < l ==> #[trigger] reached(f, l, k),
{
    let dom = set_int_range(0, l);
    let img = dom.map(f);
    lemma_int_range(0, l);
    assert(vstd::relations::injective_on(f, dom)) by {
        assert forall|x: int, y: int| dom.contains(x) && dom.contains(y) && #[trigger] f(x) == #[trigger] f(y) implies x == y by {
            if x != y {
                assert(f(x) != f(y));
            }
        }
    }
    lemma_map_size(dom, img, f);
    assert(img.subset_of(dom)) by {
        assert forall|k: int| img.contains(k) implies dom.contains(k) by {
            let i = choose|i: int| dom.contains(i) && f(i) == k;
        }
    }
    lemma_subset_equality(img, dom);
    assert forall|k: int| 0 <= k < l implies #[trigger] reached(f, l, k) by {
        assert(dom.contains(k));
        assert(img.contains(k));
        let i = choose|i: int| dom.contains(i) && f(i) == k;
        assert(f(i) == k);
    }
}

/// The blocks of `a + b` for a permutation orbit.
pub proof fn lemma_perm_add(a: u128, b: u128, l: nat)
    requires
        l <= 24,
        forall|i: int| 0 <= i < l ==> #[trigger] blk(b, i) < l,
    ensures
        perm_add(a, b, l) >> ((5 * l) as u128) == 0,
        forall|i: int| 0 <= i < l ==> #[trigger] blk(perm_add(a, b, l), i) == blk(a, blk(b, i) as int),
{
    let f = compose_fn(a, b);
    assert forall|i: int| 0 <= i < l implies #[trigger] f(i) < 32 by {
        lemma_blk_small(a, blk(b, i) as int);
    }
    lemma_build(f, l);
}

/// The blocks of `a - b` for a permutation orbit: `a[i]` lands at `b[i]`,
/// and every position below `l` is reached.
pub proof fn lemma_perm_sub(a: u128, b: u128, l: nat)
    requires
        l <= 24,
        perm_valid(b, l),
    ensures
        perm_sub(a, b, l) >> ((5 * l) as u128) == 0,
        forall|i: int| 0 <= i < l ==> #[trigger] blk(perm_sub(a, b, l), blk(b, i) as int) == blk(a, i),
        forall|k: int| 0 <= k < l ==> #[trigger] named(b, l, k),
{
    let val = blk_fn(a);
    let pos = blk_fn(b);
    assert forall|i: int| 0 <= i < l implies #[trigger] val(i) < 32 by {
        lemma_blk_small(a, i);
    }
    assert forall|i: int, k: int| 0 <= i < l && 0 <= k < l && i != k implies #[trigger] pos(i) != #[trigger] pos(k) by {
        assert(blk(b, i) != blk(b, k));
    }
    lemma_scatter(val, pos, l);
    let f = |i: int| blk(b, i) as int;
    assert forall|i: int, j: int| 0 <= i < l && 0 <= j < l && i != j implies #[trigger] f(i) != #[trigger] f(j) by {
        assert(blk(b, i) != blk(b, j));
    }
    lemma_onto(f, l as int);
    let s = perm_sub(a, b, l);
    assert forall|j: int| l <= j < 26 implies #[trigger] blk(s, j) == 0 by {
        assert forall|i: int| 0 <= i < l implies #[trigger] pos(i) != j by {
            assert(blk(b, i) < l);
        }
    }
    lemma_top_zero(s, l);
    assert forall|i: int| 0 <= i < l implies #[trigger] blk(perm_sub(a, b, l), blk(b, i) as int) == blk(a, i) by {
        assert(pos(i) == blk(b, i));
        assert(blk(s, pos(i) as int) == val(i));
    }
    assert forall|k: int| 0 <= k < l implies #[trigger] named(b, l, k) by {
        assert(reached(f, l as int, k));
        let i = choose|i: int| 0 <= i < l && #[trigger] f(i) == k;
        assert(blk(b, i) == k);
    }
}

/// Composition keeps permutation words valid.
pub proof fn lemma_perm_add_valid(a: u128, b: u128, l: nat)
    requires
        l <= 24,
        perm_valid(a, l),
        perm_valid(b, l),
    ensures
        perm_valid(perm_add(a, b, l), l),
{
    lemma_perm_add(a, b, l);
    let c = perm_add(a, b, l);
    assert forall|i: int, j: int| 0 <= i < l && 0 <= j < l && i != j implies #[trigger] blk(c, i) != #[trigger] blk(c, j) by {
        assert(blk(b, i) != blk(b, j));
    }
}

/// Composition of permutation words is associative.
pub proof fn lemma_perm_assoc(a: u128, b: u128, c: u128, l: nat)
    requires
        l <= 24,
        perm_valid(a, l),
        perm_valid(b, l),
        perm_valid(c, l),
    ensures
        perm_add(perm_add(a, b, l), c, l) == perm_add(a, perm_add(b, c, l), l),
{
    lemma_perm_add(a, b, l);
    lemma_perm_add(b, c, l);
    lemma_perm_add_valid(b, c, l);
    lemma_perm_add(perm_add(a, b, l), c, l);
    lemma_perm_add(a, perm_add(b, c, l), l);
    let x = perm_add(perm_add(a, b, l), c, l);
    let y = perm_add(a, perm_add(b, c, l), l);
    assert forall|j: int| 0 <= j < l implies #[trigger] blk(x, j) == blk(y, j) by {
        assert(blk(c, j) < l);
    }
    lemma_word_ext(x, y, l);
}

/// The identity word is neutral on both sides.
pub proof fn lemma_perm_neutral(a: u128, e: u128, l: nat)
    requires
        l <= 24,
        perm_valid(a, l),
        perm_identity(e, l),
    ensures
        perm_add(a, e, l) == a,
        perm_add(e, a, l) == a,
        perm_valid(e, l),
{
    lemma_perm_add(a, e, l);
    lemma_perm_add(e, a, l);
    assert forall|j: int| 0 <= j < l implies #[trigger] blk(perm_add(a, e, l), j) == blk(a, j) by {}
    lemma_word_ext(perm_add(a, e, l), a, l);
    assert forall|j: int| 0 <= j < l implies #[trigger] blk(perm_add(e, a, l), j) == blk(a, j) by {
        assert(blk(a, j) < l);
    }
    lemma_word_ext(perm_add(e, a, l), a, l);
}

/// Subtraction is addition of the inverse `e - b`, which undoes `b` on
/// both sides.
pub proof fn lemma_perm_inverse(a: u128, b: u128, e: u128, l: nat)
    requires
        l <= 24,
        perm_valid(a, l),
        perm_valid(b, l),
        perm_identity(e, l),
    ensures
        perm_valid(perm_sub(e, b, l), l),
        perm_valid(perm_sub(a, b, l), l),
        perm_sub(a, b, l) == perm_add(a, perm_sub(e, b, l), l),
        perm_add(b, perm_sub(e, b, l), l) == e,
        perm_add(perm_sub(e, b, l), b, l) == e,
{
    lemma_perm_sub(e, b, l);
    lemma_perm_sub(a, b, l);
    let v = perm_sub(e, b, l);
    let s = perm_sub(a, b, l);
    // v[b[i]] == i
    assert forall|k: int| 0 <= k < l implies #[trigger] blk(v, k) < l && blk(s, k) == blk(a, blk(v, k) as int) by {
        assert(named(b, l, k));
        let i = choose|i: int| 0 <= i < l && #[trigger] blk(b, i) == k;
        assert(blk(v, blk(b, i) as int) == blk(e, i));
    }
    assert forall|x: int, y: int| 0 <= x < l && 0 <= y < l && x != y implies #[trigger] blk(v, x) != #[trigger] blk(v, y) by {
        assert(named(b, l, x) && named(b, l, y));
        let i = choose|i: int| 0 <= i < l && #[trigger] blk(b, i) == x;
        let j = choose|j: int| 0 <= j < l && #[trigger] blk(b, j) == y;
        assert(blk(v, blk(b, i) as int) == blk(e, i));
        assert(blk(v, blk(b, j) as int) == blk(e, j));
    }
    assert(perm_valid(v, l));
    assert forall|x: int, y: int| 0 <= x < l && 0 <= y < l && x != y implies #[trigger] blk(s, x) != #[trigger] blk(s, y) by {
        assert(blk(v, x) != blk(v, y));
    }
    assert forall|k: int| 0 <= k < l implies #[trigger] blk(s, k) < l by {
        assert(blk(v, k) < l);
    }
    lemma_perm_add(a, v, l);
    assert forall|k: int| 0 <= k < l implies #[trigger] blk(s, k) == blk(perm_add(a, v, l), k) by {}
    lemma_word_ext(s, perm_add(a, v, l), l);
    lemma_perm_add(b, v, l);
    assert forall|k: int| 0 <= k < l implies #[trigger] blk(perm_add(b, v, l), k) == blk(e, k) by {
        assert(named(b, l, k));
        let i = choose|i: int| 0 <= i < l && #[trigger] blk(b, i) == k;
        assert(blk(v, blk(b, i) as int) == blk(e, i));
    }
    lemma_word_ext(perm_add(b, v, l), e, l);
    lemma_perm_add(v, b, l);
    assert forall|k: int| 0 <= k < l implies #[trigger] blk(perm_add(v, b, l), k) == blk(e, k) by {
        assert(blk(v, blk(b, k) as int) == blk(e, k));
    }
    lemma_word_ext(perm_add(v, b, l), e, l);
}


/// A block is determined by its permutation and orientation parts, and a
/// block built from such parts gives them back.
pub proof fn lemma_ori_bits(pm: u128, sh: u128, md: u128, v: u128, p: u128, o: u128)
    requires
        (pm == 7 && sh == 3 && md == 3) || (pm == 15 && sh == 4 && md == 2),
        o < md,
    ensures
        v < 32 ==> v == (v & pm) | ((v >> sh) << sh),
        ((p & pm) | (o << sh)) & pm == p & pm,
        ((p & pm) | (o << sh)) >> sh == o,
        ((p & pm) | (o << sh)) < 32,
        (v & 31) >> sh < 4,
{
    assert(
        (v < 32 ==> v == (v & pm) | ((v >> sh) << sh))
        && ((p & pm) | (o << sh)) & pm == p & pm
        && ((p & pm) | (o << sh)) >> sh == o
        && ((p & pm) | (o << sh)) < 32
        && (v & 31) >> sh < 4
    ) by (bit_vector)
        requires
            (pm == 7 && sh == 3 && md == 3) || (pm == 15 && sh == 4 && md == 2),
            o < md,
    ;
}

/// Blocks of two orientation words agree when their parts agree.
pub proof fn lemma_ori_block_eq(x: u128, y: u128, i: int, pm: u128, sh: u128, md: u128)
    requires
        (pm == 7 && sh == 3 && md == 3) || (pm == 15 && sh == 4 && md == 2),
        blk(x, i) & pm == blk(y, i) & pm,
        blk(x, i) >> sh == blk(y, i) >> sh,
    ensures
        blk(x, i) == blk(y, i),
{
    lemma_blk_small(x, i);
    lemma_blk_small(y, i);
    lemma_ori_bits(pm, sh, md, blk(x, i), 0, 0);
    lemma_ori_bits(pm, sh, md, blk(y, i), 0, 0);
}

/// The parts of the blocks of `a + b` for an orbit with orientation.
pub proof fn lemma_ori_add(a: u128, b: u128, l: nat, pm: u128, sh: u128, md: u128)
    requires
        ori_kind(l, pm, sh, md),
        forall|i: int| 0 <= i < l ==> #[trigger] (blk(b, i) & pm) < l,
    ensures
        ori_add(a, b, l, pm, sh, md) >> ((5 * l) as u128) == 0,
        forall|i: int|
            0 <= i < l ==> #[trigger] (blk(ori_add(a, b, l, pm, sh, md), i) & pm) == blk(
                a,
                (blk(b, i) & pm) as int,
            ) & pm,
        forall|i: int|
            0 <= i < l ==> #[trigger] (blk(ori_add(a, b, l, pm, sh, md), i) >> sh) == (((blk(b, i)
                >> sh) + (blk(a, (blk(b, i) & pm) as int) >> sh)) as int % (md as int)) as u128,
{
    let f = ori_fn(a, b, pm, sh, md);
    assert forall|i: int| 0 <= i < l implies #[trigger] f(i) < 32 && (f(i) & pm) == blk(
        a,
        (blk(b, i) & pm) as int,
    ) & pm && (f(i) >> sh) == (((blk(b, i) >> sh) + (blk(a, (blk(b, i) & pm) as int) >> sh)) as int
        % (md as int)) as u128 by {
        let bb = blk(b, i);
        let ab = blk(a, (bb & pm) as int);
        let o = ((((bb >> sh) + (ab >> sh)) as int) % (md as int)) as u128;
        lemma_ori_bits(pm, sh, md, 0, ab, o);
    }
    lemma_build(f, l);
}

/// Composition keeps orientation words valid.
pub proof fn lemma_ori_add_valid(a: u128, b: u128, l: nat, pm: u128, sh: u128, md: u128)
    requires
        ori_kind(l, pm, sh, md),
        ori_valid(a, l, pm, sh, md),
        ori_valid(b, l, pm, sh, md),
    ensures
        ori_valid(ori_add(a, b, l, pm, sh, md), l, pm, sh, md),
{
    lemma_ori_add(a, b, l, pm, sh, md);
    let c = ori_add(a, b, l, pm, sh, md);
    assert forall|i: int, j: int| 0 <= i < l && 0 <= j < l && i != j implies #[trigger] (blk(c, i) & pm) != #[trigger] (blk(c, j) & pm) by {
        assert((blk(b, i) & pm) != (blk(b, j) & pm));
    }
}

pub proof fn lemma_mod_assoc(x: int, y: int, z: int, m: int)
    requires
        m == 2 || m == 3,
        0 <= x,
        0 <= y,
        0 <= z,
    ensures
        (x + (y + z) % m) % m == ((x + y) % m + z) % m,
        (x + m - y) % m == ((m - y) % m + x) % m,
        y < m ==> (y + (m - y) % m) % m == 0,
        y < m ==> ((m - y) % m + y) % m == 0,
        y < m ==> y % m == y,
        0 <= (m - y) % m < m,
{
}

/// Composition of orientation words is associative.
pub proof fn lemma_ori_assoc(a: u128, b: u128, c: u128, l: nat, pm: u128, sh: u128, md: u128)
    requires
        ori_kind(l, pm, sh, md),
        ori_valid(a, l, pm, sh, md),
        ori_valid(b, l, pm, sh, md),
        ori_valid(c, l, pm, sh, md),
    ensures
        ori_add(ori_add(a, b, l, pm, sh, md), c, l, pm, sh, md) == ori_add(
            a,
            ori_add(b, c, l, pm, sh, md),
            l,
            pm,
            sh,
            md,
        ),
{
    let ab = ori_add(a, b, l, pm, sh, md);
    let bc = ori_add(b, c, l, pm, sh, md);
    lemma_ori_add(a, b, l, pm, sh, md);
    lemma_ori_add(b, c, l, pm, sh, md);
    lemma_ori_add_valid(b, c, l, pm, sh, md);
    lemma_ori_add(ab, c, l, pm, sh, md);
    lemma_ori_add(a, bc, l, pm, sh, md);
    let x = ori_add(ab, c, l, pm, sh, md);
    let y = ori_add(a, bc, l, pm, sh, md);
    assert forall|j: int| 0 <= j < l implies #[trigger] blk(x, j) == blk(y, j) by {
        let cj = (blk(c, j) & pm) as int;
        assert(0 <= cj < l);
        let bcj = (blk(b, cj) & pm) as int;
        assert(0 <= bcj < l);
        assert((blk(x, j) & pm) == (blk(y, j) & pm));
        let xo = blk(c, j) >> sh;
        let yo = blk(b, cj) >> sh;
        let zo = blk(a, bcj) >> sh;
        lemma_mod_assoc(xo as int, yo as int, zo as int, md as int);
        assert((blk(ab, cj) >> sh) == (((yo + zo) as int % (md as int)) as u128));
        assert((blk(bc, j) >> sh) == (((xo + yo) as int % (md as int)) as u128));
        assert((blk(bc, j) & pm) == blk(b, cj) & pm);
        assert((blk(x, j) >> sh) == (blk(y, j) >> sh));
        lemma_ori_block_eq(x, y, j, pm, sh, md);
    }
    lemma_word_ext(x, y, l);
}

/// An identity word (block `i` holds `i`) is a valid orientation word
/// with every orientation zero.
pub proof fn lemma_ori_identity(e: u128, l: nat, pm: u128, sh: u128, md: u128)
    requires
        ori_kind(l, pm, sh, md),
        perm_identity(e, l),
    ensures
        ori_valid(e, l, pm, sh, md),
        forall|i: int| 0 <= i < l ==> (#[trigger] (blk(e, i) & pm)) == i && (blk(e, i) >> sh) == 0,
{
    assert forall|i: int| 0 <= i < l implies (#[trigger] (blk(e, i) & pm)) == i && (blk(e, i) >> sh)
        == 0 by {
        assert(blk(e, i) == i);
        let ii = i as u128;
        assert(ii < 12 ==> (ii & pm) == ii && (ii >> sh) == 0) by (bit_vector)
            requires
                (pm == 7 && sh == 3 && ii < 8) || (pm == 15 && sh == 4),
        ;
    }
    assert forall|i: int| 0 <= i < l implies #[trigger] (blk(e, i) >> sh) < md by {
        assert((blk(e, i) & pm) == i);
    }
    assert forall|i: int, j: int| 0 <= i < l && 0 <= j < l && i != j implies #[trigger] (blk(e, i) & pm) != #[trigger] (blk(e, j) & pm) by {
    }
}

/// An identity word (block `i` holds `i`) is neutral on both sides.
pub proof fn lemma_ori_neutral(a: u128, e: u128, l: nat, pm: u128, sh: u128, md: u128)
    requires
        ori_kind(l, pm, sh, md),
        ori_valid(a, l, pm, sh, md),
        perm_identity(e, l),
    ensures
        ori_add(a, e, l, pm, sh, md) == a,
        ori_add(e, a, l, pm, sh, md) == a,
        ori_valid(e, l, pm, sh, md),
        forall|i: int| 0 <= i < l ==> (#[trigger] (blk(e, i) & pm)) == i && (blk(e, i) >> sh) == 0,
{
    lemma_ori_identity(e, l, pm, sh, md);
    lemma_ori_add(a, e, l, pm, sh, md);
    lemma_ori_add(e, a, l, pm, sh, md);
    let x = ori_add(a, e, l, pm, sh, md);
    let y = ori_add(e, a, l, pm, sh, md);
    assert forall|j: int| 0 <= j < l implies #[trigger] blk(x, j) == blk(a, j) by {
        lemma_ori_block_eq(x, a, j, pm, sh, md);
    }
    lemma_word_ext(x, a, l);
    assert forall|j: int| 0 <= j < l implies #[trigger] blk(y, j) == blk(a, j) by {
        let aj = (blk(a, j) & pm) as int;
        assert(0 <= aj < l);
        lemma_ori_block_eq(y, a, j, pm, sh, md);
    }
    lemma_word_ext(y, a, l);
}

/// The parts of the blocks of `a - b`: `a[i]` lands at `b[i]` with the
/// orientation of `b[i]` taken away; every position below `l` is reached.
pub proof fn lemma_ori_sub(a: u128, b: u128, l: nat, pm: u128, sh: u128, md: u128)
    requires
        ori_kind(l, pm, sh, md),
        ori_valid(b, l, pm, sh, md),
        forall|i: int| 0 <= i < l ==> #[trigger] (blk(a, i) >> sh) < md,
    ensures
        ori_sub(a, b, l, pm, sh, md) >> ((5 * l) as u128) == 0,
        forall|i: int|
            0 <= i < l ==> #[trigger] (blk(ori_sub(a, b, l, pm, sh, md), (blk(b, i) & pm) as int)
                & pm) == blk(a, i) & pm,
        forall|i: int|
            0 <= i < l ==> #[trigger] (blk(ori_sub(a, b, l, pm, sh, md), (blk(b, i) & pm) as int)
                >> sh) == ((((blk(a, i) >> sh) + md - (blk(b, i) >> sh)) as int) % (md as int)) as u128,
        forall|k: int| 0 <= k < l ==> #[trigger] named_part(b, l, pm, k),
{
    let val = unori_fn(a, b, pm, sh, md);
    let pos = pos_fn(b, pm);
    assert forall|i: int| 0 <= i < l implies #[trigger] val(i) < 32 by {
        let ab = blk(a, i);
        let bb = blk(b, i);
        let o = ((((ab >> sh) + md - (bb >> sh)) as int) % (md as int)) as u128;
        lemma_ori_bits(pm, sh, md, 0, ab, o);
    }
    assert forall|i: int, k: int| 0 <= i < l && 0 <= k < l && i != k implies #[trigger] pos(i) != #[trigger] pos(k) by {
        assert((blk(b, i) & pm) != (blk(b, k) & pm));
    }
    lemma_scatter(val, pos, l);
    let s = ori_sub(a, b, l, pm, sh, md);
    assert forall|i: int| 0 <= i < l implies (#[trigger] (blk(s, (blk(b, i) & pm) as int) & pm)) == blk(a, i) & pm
        && (blk(s, (blk(b, i) & pm) as int) >> sh) == ((((blk(a, i) >> sh) + md - (blk(b, i) >> sh)) as int) % (md as int)) as u128 by {
        assert(pos(i) == blk(b, i) & pm);
        assert(blk(s, pos(i) as int) == val(i));
        let ab = blk(a, i);
        let bb = blk(b, i);
        let o = ((((ab >> sh) + md - (bb >> sh)) as int) % (md as int)) as u128;
        lemma_ori_bits(pm, sh, md, 0, ab, o);
    }
    assert forall|i: int| 0 <= i < l implies #[trigger] (blk(s, (blk(b, i) & pm) as int) >> sh) == ((((blk(a, i) >> sh) + md - (blk(b, i) >> sh)) as int) % (md as int)) as u128 by {
        assert((blk(s, (blk(b, i) & pm) as int) & pm) == blk(a, i) & pm);
    }
    assert forall|j: int| l <= j < 26 implies #[trigger] blk(s, j) == 0 by {
        assert forall|i: int| 0 <= i < l implies #[trigger] pos(i) != j by {
            assert((blk(b, i) & pm) < l);
        }
    }
    lemma_top_zero(s, l);
    let f = |i: int| (blk(b, i) & pm) as int;
    assert forall|i: int, j: int| 0 <= i < l && 0 <= j < l && i != j implies #[trigger] f(i) != #[trigger] f(j) by {
        assert((blk(b, i) & pm) != (blk(b, j) & pm));
    }
    lemma_onto(f, l as int);
    assert forall|k: int| 0 <= k < l implies #[trigger] named_part(b, l, pm, k) by {
        assert(reached(f, l as int, k));
        let i = choose|i: int| 0 <= i < l && #[trigger] f(i) == k;
        assert((blk(b, i) & pm) == k);
    }
}

/// Some piece below `l` of `b` has permutation part `k`.
pub open spec fn named_part(b: u128, l: nat, pm: u128, k: int) -> bool {
    exists|i: int| 0 <= i < l && #[trigger] (blk(b, i) & pm) == k
}

/// The inverse `e - b` of an orientation word: valid, and it maps `b[i]`
/// back to `i` with the orientation of `b[i]` negated.
pub proof fn lemma_ori_inv(b: u128, e: u128, l: nat, pm: u128, sh: u128, md: u128)
    requires
        ori_kind(l, pm, sh, md),
        ori_valid(b, l, pm, sh, md),
        perm_identity(e, l),
        forall|i: int| 0 <= i < l ==> (#[trigger] (blk(e, i) & pm)) == i && (blk(e, i) >> sh) == 0,
    ensures
        ori_valid(ori_sub(e, b, l, pm, sh, md), l, pm, sh, md),
        forall|i: int|
            0 <= i < l ==> #[trigger] (blk(ori_sub(e, b, l, pm, sh, md), (blk(b, i) & pm) as int)
                & pm) == i,
        forall|i: int|
            0 <= i < l ==> #[trigger] (blk(ori_sub(e, b, l, pm, sh, md), (blk(b, i) & pm) as int)
                >> sh) == (((md - (blk(b, i) >> sh)) as int) % (md as int)) as u128,
        forall|k: int| 0 <= k < l ==> #[trigger] named_part(b, l, pm, k),
{
    assert forall|i: int| 0 <= i < l implies #[trigger] (blk(e, i) >> sh) < md by {
        assert((blk(e, i) & pm) == i);
    }
    lemma_ori_sub(e, b, l, pm, sh, md);
    let v = ori_sub(e, b, l, pm, sh, md);
    assert forall|i: int| 0 <= i < l implies #[trigger] (blk(v, (blk(b, i) & pm) as int) & pm) == i by {
        assert((blk(e, i) & pm) == i);
    }
    assert forall|i: int| 0 <= i < l implies #[trigger] (blk(v, (blk(b, i) & pm) as int) >> sh) == (((md - (blk(b, i) >> sh)) as int) % (md as int)) as u128 by {
        assert((blk(e, i) & pm) == i);
    }
    assert forall|k: int| 0 <= k < l implies #[trigger] (blk(v, k) & pm) < l by {
        assert(named_part(b, l, pm, k));
        let i = choose|i: int| 0 <= i < l && #[trigger] (blk(b, i) & pm) == k;
        assert((blk(v, (blk(b, i) & pm) as int) & pm) == i);
    }
    assert forall|k: int| 0 <= k < l implies #[trigger] (blk(v, k) >> sh) < md by {
        assert(named_part(b, l, pm, k));
        let i = choose|i: int| 0 <= i < l && #[trigger] (blk(b, i) & pm) == k;
        assert((blk(v, (blk(b, i) & pm) as int) >> sh) == (((md - (blk(b, i) >> sh)) as int) % (md as int)) as u128);
        lemma_mod_assoc(0, (blk(b, i) >> sh) as int, 0, md as int);
    }
    assert forall|x: int, y: int| 0 <= x < l && 0 <= y < l && x != y implies #[trigger] (blk(v, x) & pm) != #[trigger] (blk(v, y) & pm) by {
        assert(named_part(b, l, pm, x) && named_part(b, l, pm, y));
        let i = choose|i: int| 0 <= i < l && #[trigger] (blk(b, i) & pm) == x;
        let j = choose|j: int| 0 <= j < l && #[trigger] (blk(b, j) & pm) == y;
        assert((blk(v, (blk(b, i) & pm) as int) & pm) == i);
        assert((blk(v, (blk(b, j) & pm) as int) & pm) == j);
    }
}

/// Subtraction is addition of the inverse.
pub proof fn lemma_ori_sub_is_add(a: u128, b: u128, e: u128, l: nat, pm: u128, sh: u128, md: u128)
    requires
        ori_kind(l, pm, sh, md),
        ori_valid(a, l, pm, sh, md),
        ori_valid(b, l, pm, sh, md),
        perm_identity(e, l),
        forall|i: int| 0 <= i < l ==> (#[trigger] (blk(e, i) & pm)) == i && (blk(e, i) >> sh) == 0,
    ensures
        ori_sub(a, b, l, pm, sh, md) == ori_add(a, ori_sub(e, b, l, pm, sh, md), l, pm, sh, md),
{
    lemma_ori_inv(b, e, l, pm, sh, md);
    lemma_ori_sub(a, b, l, pm, sh, md);
    let v = ori_sub(e, b, l, pm, sh, md);
    let s = ori_sub(a, b, l, pm, sh, md);
    lemma_ori_add(a, v, l, pm, sh, md);
    let av = ori_add(a, v, l, pm, sh, md);
    assert forall|k: int| 0 <= k < l implies #[trigger] blk(s, k) == blk(av, k) by {
        assert(named_part(b, l, pm, k));
        let i = choose|i: int| 0 <= i < l && #[trigger] (blk(b, i) & pm) == k;
        assert((blk(v, (blk(b, i) & pm) as int) & pm) == i);
        assert((blk(v, (blk(b, i) & pm) as int) >> sh) == (((md - (blk(b, i) >> sh)) as int) % (md as int)) as u128);
        assert((blk(s, (blk(b, i) & pm) as int) & pm) == blk(a, i) & pm);
        assert((blk(s, (blk(b, i) & pm) as int) >> sh) == ((((blk(a, i) >> sh) + md - (blk(b, i) >> sh)) as int) % (md as int)) as u128);
        let ao = (blk(a, i) >> sh) as int;
        let bo = (blk(b, i) >> sh) as int;
        lemma_mod_assoc(ao, bo, 0, md as int);
        lemma_ori_block_eq(s, av, k, pm, sh, md);
    }
    lemma_word_ext(s, av, l);
}

/// The inverse undoes `b` on both sides.
pub proof fn lemma_ori_cancel(b: u128, e: u128, l: nat, pm: u128, sh: u128, md: u128)
    requires
        ori_kind(l, pm, sh, md),
        ori_valid(b, l, pm, sh, md),
        perm_identity(e, l),
        forall|i: int| 0 <= i < l ==> (#[trigger] (blk(e, i) & pm)) == i && (blk(e, i) >> sh) == 0,
    ensures
        ori_add(b, ori_sub(e, b, l, pm, sh, md), l, pm, sh, md) == e,
        ori_add(ori_sub(e, b, l, pm, sh, md), b, l, pm, sh, md) == e,
{
    lemma_ori_inv(b, e, l, pm, sh, md);
    let v = ori_sub(e, b, l, pm, sh, md);
    lemma_ori_add(b, v, l, pm, sh, md);
    lemma_ori_add(v, b, l, pm, sh, md);
    let bv = ori_add(b, v, l, pm, sh, md);
    let vb = ori_add(v, b, l, pm, sh, md);
    assert forall|k: int| 0 <= k < l implies #[trigger] blk(bv, k) == blk(e, k) by {
        assert(named_part(b, l, pm, k));
        let i = choose|i: int| 0 <= i < l && #[trigger] (blk(b, i) & pm) == k;
        assert((blk(v, (blk(b, i) & pm) as int) & pm) == i);
        assert((blk(v, (blk(b, i) & pm) as int) >> sh) == (((md - (blk(b, i) >> sh)) as int) % (md as int)) as u128);
        lemma_mod_assoc(0, (blk(b, i) >> sh) as int, 0, md as int);
        assert((blk(e, k) & pm) == k);
        lemma_ori_block_eq(bv, e, k, pm, sh, md);
    }
    lemma_word_ext(bv, e, l);
    assert forall|k: int| 0 <= k < l implies #[trigger] blk(vb, k) == blk(e, k) by {
        assert((blk(v, (blk(b, k) & pm) as int) & pm) == k);
        assert((blk(v, (blk(b, k) & pm) as int) >> sh) == (((md - (blk(b, k) >> sh)) as int) % (md as int)) as u128);
        lemma_mod_assoc(0, (blk(b, k) >> sh) as int, 0, md as int);
        assert((blk(e, k) & pm) == k);
        lemma_ori_block_eq(vb, e, k, pm, sh, md);
    }
    lemma_word_ext(vb, e, l);
}

/// Subtraction is addition of the inverse `e - b`, which undoes `b` on
/// both sides.
pub proof fn lemma_ori_inverse(a: u128, b: u128, e: u128, l: nat, pm: u128, sh: u128, md: u128)
    requires
        ori_kind(l, pm, sh, md),
        ori_valid(a, l, pm, sh, md),
        ori_valid(b, l, pm, sh, md),
        perm_identity(e, l),
    ensures
        ori_valid(ori_sub(e, b, l, pm, sh, md), l, pm, sh, md),
        ori_valid(ori_sub(a, b, l, pm, sh, md), l, pm, sh, md),
        ori_sub(a, b, l, pm, sh, md) == ori_add(a, ori_sub(e, b, l, pm, sh, md), l, pm, sh, md),
        ori_add(b, ori_sub(e, b, l, pm, sh, md), l, pm, sh, md) == e,
        ori_add(ori_sub(e, b, l, pm, sh, md), b, l, pm, sh, md) == e,
{
    lemma_ori_neutral(a, e, l, pm, sh, md);
    lemma_ori_inv(b, e, l, pm, sh, md);
    lemma_ori_sub_is_add(a, b, e, l, pm, sh, md);
    lemma_ori_cancel(b, e, l, pm, sh, md);
    lemma_ori_add_valid(a, ori_sub(e, b, l, pm, sh, md), l, pm, sh, md);
}

} // verus!
