//! The order of a cube: adding a valid cube to itself as many times as the
//! least common multiple of the orders of its cycles gives the solved cube.
//!
//! A power of an orbit word moves piece `i` along its cycle: position `i`
//! of the `t`-th power holds the piece reached from `i` after `t` steps,
//! with the orientations met on the way added up.
use vstd::prelude::*;

use crate::analysis::{
    center_order, corner_order, cube_order_of, edge_order, lemma_orders_grow, orders_upto, piece_order,
};
use crate::arena::{
    center_of, corner_of, cube_pow, edge_of, id_word0, identity_cube, is_odd, ID_24, ID_CENTER, ID_CORNER,
    ID_EDGE,
};
use crate::bits::{blk, lemma_word_ext};
use crate::cycles::{
    cycle_order, is_perm, iter, leader, lemma_iter_add, lemma_order_grows, lemma_period, order_below,
    period, reached_below, step, twist,
};
use crate::group::{
    lemma_blk_small, lemma_ori_add, lemma_ori_add_valid, lemma_ori_block_eq, lemma_ori_identity,
    lemma_perm_add, lemma_perm_add_valid, ori_add, ori_kind, ori_valid, perm_add, perm_identity,
    perm_valid,
};
use crate::laws::{lemma_id_words, lemma_word0_add, lemma_word0_eq, lemma_word0_id, law_pow_valid, valid_cube};
use crate::numbers::{law_lcm, law_lcm_least, spec_lcm};
use crate::ops::span;
use crate::roundtrip::lemma_small_masks;

verus! {

/// The `t`-th power of an orbit word with orientations, starting from the
/// identity word `e`.
pub open spec fn ori_pow(w: u128, e: u128, l: nat, pm: u128, sh: u128, md: u128, t: nat) -> u128
    decreases t,
{
    if t == 0 {
        e
    } else {
        ori_add(ori_pow(w, e, l, pm, sh, md, (t - 1) as nat), w, l, pm, sh, md)
    }
}

/// The `t`-th power of a permutation word, starting from the identity word `e`.
pub open spec fn perm_pow(w: u128, e: u128, l: nat, t: nat) -> u128
    decreases t,
{
    if t == 0 {
        e
    } else {
        perm_add(perm_pow(w, e, l, (t - 1) as nat), w, l)
    }
}

/// One step and then `k` more is `k + 1` steps.
proof fn lemma_iter_front(w: u128, pm: u128, i: int, k: nat)
    ensures
        iter(w, pm, step(w, pm, i), k) == iter(w, pm, i, k + 1),
{
    lemma_iter_add(w, pm, i, 1, k);
    assert(iter(w, pm, i, 1) == step(w, pm, iter(w, pm, i, 0)));
}

/// The orientations met in `t` steps from `i`: that of `i`, then those met
/// in `t - 1` steps from the next position.
proof fn lemma_twist_front(w: u128, pm: u128, sh: u128, om: u128, i: int, t: nat)
    requires
        t >= 1,
    ensures
        twist(w, pm, sh, om, i, t) == ((blk(w, i) >> sh) & om) as nat + twist(
            w,
            pm,
            sh,
            om,
            step(w, pm, i),
            (t - 1) as nat,
        ),
    decreases t,
{
    let o = |x: int| ((blk(w, x) >> sh) & om) as nat;
    if t > 1 {
        lemma_twist_front(w, pm, sh, om, i, (t - 1) as nat);
        lemma_iter_front(w, pm, i, (t - 2) as nat);
        assert(twist(w, pm, sh, om, i, t) == twist(w, pm, sh, om, i, (t - 1) as nat) + o(
            iter(w, pm, i, (t - 1) as nat),
        ));
        assert(twist(w, pm, sh, om, step(w, pm, i), (t - 1) as nat) == twist(
            w,
            pm,
            sh,
            om,
            step(w, pm, i),
            (t - 2) as nat,
        ) + o(iter(w, pm, step(w, pm, i), (t - 2) as nat)));
    } else {
        assert(iter(w, pm, i, 0) == i);
        assert(twist(w, pm, sh, om, i, 1) == twist(w, pm, sh, om, i, 0) + o(iter(w, pm, i, 0)));
    }
}

/// The orientations met in `a + b` steps are those met in `a` steps and
/// then in `b` more.
proof fn lemma_twist_add(w: u128, pm: u128, sh: u128, om: u128, i: int, a: nat, b: nat)
    ensures
        twist(w, pm, sh, om, i, a + b) == twist(w, pm, sh, om, i, a) + twist(
            w,
            pm,
            sh,
            om,
            iter(w, pm, i, a),
            b,
        ),
    decreases b,
{
    if b > 0 {
        lemma_twist_add(w, pm, sh, om, i, a, (b - 1) as nat);
        lemma_iter_add(w, pm, i, a, (b - 1) as nat);
        assert((a + b - 1) as nat == a + (b - 1) as nat);
    }
}

/// Going `m` times round a cycle of length `p` comes back, having met `m`
/// times the orientations of one turn.
proof fn lemma_turns(w: u128, pm: u128, sh: u128, om: u128, x: int, p: nat, m: nat)
    requires
        iter(w, pm, x, p) == x,
    ensures
        iter(w, pm, x, m * p) == x,
        twist(w, pm, sh, om, x, m * p) == m * twist(w, pm, sh, om, x, p),
    decreases m,
{
    if m > 0 {
        let m1 = (m - 1) as nat;
        lemma_turns(w, pm, sh, om, x, p, m1);
        assert(m * p == m1 * p + p) by (nonlinear_arith)
            requires
                m1 == m - 1,
        ;
        lemma_iter_add(w, pm, x, m1 * p, p);
        lemma_twist_add(w, pm, sh, om, x, m1 * p, p);
        assert(m * twist(w, pm, sh, om, x, p) == m1 * twist(w, pm, sh, om, x, p) + twist(
            w,
            pm,
            sh,
            om,
            x,
            p,
        )) by (nonlinear_arith)
            requires
                m1 == m - 1,
        ;
    } else {
        assert(m * p == 0) by (nonlinear_arith)
            requires
                m == 0,
        ;
    }
}

/// Every position is reached from the leader of its cycle.
proof fn lemma_leader_of(w: u128, pm: u128, i: int)
    requires
        0 <= i,
    ensures
        exists|j: int, s: nat| 0 <= j <= i && leader(w, pm, j) && #[trigger] iter(w, pm, j, s) == i,
    decreases i,
{
    if leader(w, pm, i) {
        assert(iter(w, pm, i, 0) == i);
    } else {
        let (j0, k0) = choose|j: int, k: nat| 0 <= j < i && #[trigger] iter(w, pm, j, k) == i;
        lemma_leader_of(w, pm, j0);
        let (j, s) = choose|j: int, s: nat| 0 <= j <= j0 && leader(w, pm, j) && #[trigger] iter(w, pm, j, s) == j0;
        lemma_iter_add(w, pm, j, s, k0);
        assert(iter(w, pm, j, s + k0) == i);
    }
}

/// The blocks of a power of an orbit word with orientations: position `i`
/// holds the piece reached after `t` steps, with the orientations met on
/// the way added up.
proof fn lemma_ori_pow(w: u128, e: u128, l: nat, pm: u128, sh: u128, md: u128, om: u128, t: nat)
    requires
        ori_kind(l, pm, sh, md),
        (pm == 7 && om == 3) || (pm == 15 && om == 1),
        ori_valid(w, l, pm, sh, md),
        perm_identity(e, l),
    ensures
        ori_valid(ori_pow(w, e, l, pm, sh, md, t), l, pm, sh, md),
        forall|i: int|
            0 <= i < l ==> #[trigger] (blk(ori_pow(w, e, l, pm, sh, md, t), i) & pm) == iter(w, pm, i, t),
        forall|i: int|
            0 <= i < l ==> #[trigger] (blk(ori_pow(w, e, l, pm, sh, md, t), i) >> sh) == (twist(
                w,
                pm,
                sh,
                om,
                i,
                t,
            ) % (md as nat)) as u128,
    decreases t,
{
    lemma_ori_identity(e, l, pm, sh, md);
    if t > 0 {
        let t1 = (t - 1) as nat;
        let q = ori_pow(w, e, l, pm, sh, md, t1);
        lemma_ori_pow(w, e, l, pm, sh, md, om, t1);
        lemma_ori_add(q, w, l, pm, sh, md);
        lemma_ori_add_valid(q, w, l, pm, sh, md);
        let r = ori_pow(w, e, l, pm, sh, md, t);
        assert forall|i: int| #![trigger blk(r, i)] 0 <= i < l implies (blk(r, i) & pm) == iter(w, pm, i, t) && (blk(r, i) >> sh) == (twist(
            w,
            pm,
            sh,
            om,
            i,
            t,
        ) % (md as nat)) as u128 by {
            let j = step(w, pm, i);
            assert(0 <= j < l);
            lemma_iter_front(w, pm, i, t1);
            lemma_twist_front(w, pm, sh, om, i, t);
            let ow = blk(w, i) >> sh;
            assert(ow < md);
            lemma_small_masks(ow);
            let tw = twist(w, pm, sh, om, j, t1);
            vstd::arithmetic::div_mod::lemma_add_mod_noop(ow as int, tw as int, md as int);
            vstd::arithmetic::div_mod::lemma_small_mod(ow as nat, md as nat);
        }
    } else {
        assert forall|i: int| 0 <= i < l implies (#[trigger] (blk(e, i) >> sh)) == (twist(w, pm, sh, om, i, 0) % (md as nat)) as u128 by {
            assert((blk(e, i) & pm) == i);
            vstd::arithmetic::div_mod::lemma_small_mod(0, md as nat);
        }
    }
}

/// The blocks of a power of a permutation word: position `i` holds the
/// position reached after `t` steps.
proof fn lemma_perm_pow(w: u128, e: u128, l: nat, t: nat)
    requires
        l <= 24,
        perm_valid(w, l),
        perm_identity(e, l),
    ensures
        perm_valid(perm_pow(w, e, l, t), l),
        forall|i: int| 0 <= i < l ==> #[trigger] blk(perm_pow(w, e, l, t), i) == iter(w, 31, i, t),
    decreases t,
{
    if t > 0 {
        let t1 = (t - 1) as nat;
        let q = perm_pow(w, e, l, t1);
        lemma_perm_pow(w, e, l, t1);
        lemma_perm_add(q, w, l);
        lemma_perm_add_valid(q, w, l);
        assert forall|i: int| 0 <= i < l implies #[trigger] blk(perm_pow(w, e, l, t), i) == iter(w, 31, i, t) by {
            lemma_blk_small(w, i);
            lemma_small_masks(blk(w, i));
            lemma_iter_front(w, 31, i, t1);
        }
    } else {
        assert forall|i: int, j: int| 0 <= i < l && 0 <= j < l && i != j implies #[trigger] blk(e, i) != #[trigger] blk(e, j) by {}
    }
}

/// `a` is a multiple of `c` when it is a multiple of a multiple of `c`.
proof fn lemma_divides_trans(a: nat, b: nat, c: nat)
    requires
        b > 0,
        c > 0,
        a % b == 0,
        b % c == 0,
    ensures
        a % c == 0,
{
    vstd::arithmetic::div_mod::lemma_fundamental_div_mod(a as int, b as int);
    vstd::arithmetic::div_mod::lemma_fundamental_div_mod(b as int, c as int);
    let x = a / b;
    let y = b / c;
    assert(a == c * (y * x)) by (nonlinear_arith)
        requires
            a == b * x,
            b == c * y,
    ;
    vstd::arithmetic::div_mod::lemma_mod_multiples_basic((y * x) as int, c as int);
    assert(c * (y * x) == (y * x) * c) by (nonlinear_arith);
}

/// The order of the cycles led below `m` is a multiple of the order of
/// each of those cycles.
proof fn lemma_order_divides(w: u128, pm: u128, sh: u128, om: u128, md: nat, l: nat, m: nat, j: int)
    requires
        is_perm(w, pm, l),
        md >= 1,
        m <= l,
        0 <= j < m,
        leader(w, pm, j),
    ensures
        cycle_order(w, pm, sh, om, md, l, j) >= 1,
        order_below(w, pm, sh, om, md, l, m) % cycle_order(w, pm, sh, om, md, l, j) == 0,
    decreases m,
{
    let m1 = (m - 1) as nat;
    let o = order_below(w, pm, sh, om, md, l, m1);
    lemma_order_grows(w, pm, sh, om, md, l, m1, m1);
    lemma_period(w, pm, l, j);
    let cj = cycle_order(w, pm, sh, om, md, l, j);
    assert(cj >= 1) by (nonlinear_arith)
        requires
            cj == period(w, pm, l, j) || cj == period(w, pm, l, j) * md,
            period(w, pm, l, j) >= 1,
            md >= 1,
    ;
    if leader(w, pm, m1 as int) {
        lemma_period(w, pm, l, m1 as int);
        let c = cycle_order(w, pm, sh, om, md, l, m1 as int);
        assert(c >= 1) by (nonlinear_arith)
            requires
                c == period(w, pm, l, m1 as int) || c == period(w, pm, l, m1 as int) * md,
                period(w, pm, l, m1 as int) >= 1,
                md >= 1,
        ;
        law_lcm(o, c);
        lemma_order_grows(w, pm, sh, om, md, l, m, m);
        if j < m1 {
            lemma_order_divides(w, pm, sh, om, md, l, m1, j);
            lemma_divides_trans(order_below(w, pm, sh, om, md, l, m), o, cj);
        }
    } else {
        lemma_order_divides(w, pm, sh, om, md, l, m1, j);
    }
}

/// After a multiple of the orders of all its cycles, a word has walked
/// every position back to itself and met a multiple of `md` in orientations.
proof fn lemma_at_order(w: u128, pm: u128, sh: u128, om: u128, md: nat, l: nat, i: int, t: nat)
    requires
        is_perm(w, pm, l),
        md >= 1,
        0 <= i < l,
        t % order_below(w, pm, sh, om, md, l, l) == 0,
    ensures
        iter(w, pm, i, t) == i,
        twist(w, pm, sh, om, i, t) % md == 0,
{
    lemma_leader_of(w, pm, i);
    let (j, s) = choose|j: int, s: nat| 0 <= j <= i && leader(w, pm, j) && #[trigger] iter(w, pm, j, s) == i;
    lemma_order_divides(w, pm, sh, om, md, l, l, j);
    lemma_order_grows(w, pm, sh, om, md, l, l, l);
    let co = cycle_order(w, pm, sh, om, md, l, j);
    lemma_divides_trans(t, order_below(w, pm, sh, om, md, l, l), co);
    lemma_period(w, pm, l, j);
    let p = period(w, pm, l, j);
    let twj = twist(w, pm, sh, om, j, p);
    vstd::arithmetic::div_mod::lemma_fundamental_div_mod(t as int, co as int);
    let q = t / co;
    let m: nat = if twj % md == 0 { q } else { q * md };
    assert(t == m * p) by (nonlinear_arith)
        requires
            t == co * q,
            twj % md == 0 ==> co == p && m == q,
            twj % md != 0 ==> co == p * md && m == q * md,
    ;
    lemma_turns(w, pm, sh, om, j, p, m);
    lemma_iter_add(w, pm, j, s, t);
    lemma_iter_add(w, pm, j, t, s);
    lemma_iter_add(w, pm, j, s, p);
    lemma_iter_add(w, pm, j, p, s);
    assert(iter(w, pm, i, p) == i);
    lemma_twist_add(w, pm, sh, om, j, s, p);
    lemma_twist_add(w, pm, sh, om, j, p, s);
    assert(twist(w, pm, sh, om, i, p) == twj);
    lemma_turns(w, pm, sh, om, i, p, m);
    if twj % md == 0 {
        vstd::arithmetic::div_mod::lemma_fundamental_div_mod(twj as int, md as int);
        let k = twj / md;
        assert(m * twj == (m * k) * md) by (nonlinear_arith)
            requires
                twj == md * k + 0,
        ;
        vstd::arithmetic::div_mod::lemma_mod_multiples_basic((m * k) as int, md as int);
    } else {
        assert(m * twj == (q * twj) * md) by (nonlinear_arith)
            requires
                m == q * md,
        ;
        vstd::arithmetic::div_mod::lemma_mod_multiples_basic((q * twj) as int, md as int);
    }
}

/// A power of an orbit word with orientations by a multiple of its order
/// is the identity.
proof fn lemma_ori_orbit_identity(w: u128, e: u128, l: nat, pm: u128, sh: u128, md: u128, om: u128, t: nat)
    requires
        ori_kind(l, pm, sh, md),
        (pm == 7 && om == 3) || (pm == 15 && om == 1),
        ori_valid(w, l, pm, sh, md),
        perm_identity(e, l),
        t % order_below(w, pm, sh, om, md as nat, l, l) == 0,
    ensures
        ori_pow(w, e, l, pm, sh, md, t) == e,
{
    lemma_ori_pow(w, e, l, pm, sh, md, om, t);
    lemma_ori_identity(e, l, pm, sh, md);
    let r = ori_pow(w, e, l, pm, sh, md, t);
    assert(is_perm(w, pm, l)) by {
        assert forall|i: int| 0 <= i < l implies 0 <= #[trigger] step(w, pm, i) < l by {}
        assert forall|i: int, j: int| 0 <= i < l && 0 <= j < l && i != j implies #[trigger] step(w, pm, i) != #[trigger] step(w, pm, j) by {
            assert((blk(w, i) & pm) != (blk(w, j) & pm));
        }
    }
    assert forall|i: int| 0 <= i < l implies #[trigger] blk(r, i) == blk(e, i) by {
        lemma_at_order(w, pm, sh, om, md as nat, l, i, t);
        assert((blk(e, i) & pm) == i && (blk(e, i) >> sh) == 0);
        assert((blk(r, i) & pm) == iter(w, pm, i, t));
        assert((blk(r, i) >> sh) == 0);
        lemma_ori_block_eq(r, e, i, pm, sh, md);
    }
    lemma_word_ext(r, e, l);
}

/// A power of a permutation word by a multiple of its order is the identity.
proof fn lemma_perm_orbit_identity(w: u128, e: u128, l: nat, t: nat)
    requires
        l <= 24,
        perm_valid(w, l),
        perm_identity(e, l),
        t % order_below(w, 31, 0, 0, 1, l, l) == 0,
    ensures
        perm_pow(w, e, l, t) == e,
{
    lemma_perm_pow(w, e, l, t);
    crate::laws::lemma_perm_word(w, l);
    let r = perm_pow(w, e, l, t);
    assert forall|i: int| 0 <= i < l implies #[trigger] blk(r, i) == blk(e, i) by {
        lemma_at_order(w, 31, 0, 0, 1, l, i, t);
    }
    lemma_word_ext(r, e, l);
}

/// The words of a power of a valid cube are the powers of its orbit words.
proof fn lemma_pow_words(n: nat, c: Seq<u128>, t: nat)
    requires
        n >= 2,
        valid_cube(n, c),
    ensures
        cube_pow(n, c, t).len() == c.len(),
        valid_cube(n, cube_pow(n, c, t)),
        forall|k: int| 1 <= k < c.len() ==> #[trigger] cube_pow(n, c, t)[k] == perm_pow(c[k], ID_24, 24, t),
        corner_of(cube_pow(n, c, t)[0]) == ori_pow(corner_of(c[0]), ID_CORNER, 8, 7, 3, 3, t),
        is_odd(n) ==> edge_of(cube_pow(n, c, t)[0]) == ori_pow(edge_of(c[0]), ID_EDGE, 12, 15, 4, 2, t)
            && center_of(cube_pow(n, c, t)[0]) == perm_pow(center_of(c[0]), ID_CENTER, 6, t),
    decreases t,
{
    law_pow_valid(n, c, t);
    if t == 0 {
        lemma_word0_id(n);
    } else {
        let t1 = (t - 1) as nat;
        let p = cube_pow(n, c, t1);
        lemma_pow_words(n, c, t1);
        lemma_word0_add(n, p[0], c[0]);
        assert(span(24) == 24);
        assert forall|k: int| 1 <= k < c.len() implies #[trigger] cube_pow(n, c, t)[k] == perm_pow(c[k], ID_24, 24, t) by {
            assert(cube_pow(n, c, t)[k] == perm_add(p[k], c[k], 24));
        }
    }
}

/// The order of a valid cube is a multiple of the order of each of its orbits.
proof fn lemma_orders_divide(n: nat, c: Seq<u128>, m: nat)
    requires
        valid_cube(n, c),
        1 <= m <= c.len(),
    ensures
        orders_upto(n, c, m) % corner_order(corner_of(c[0])) == 0,
        is_odd(n) ==> orders_upto(n, c, m) % edge_order(edge_of(c[0])) == 0
            && orders_upto(n, c, m) % center_order(center_of(c[0])) == 0,
        forall|k: int| 1 <= k < m ==> orders_upto(n, c, m) % piece_order(#[trigger] c[k]) == 0,
    decreases m,
{
    lemma_orders_grow(n, c, m, m);
    let co = corner_order(corner_of(c[0]));
    let o1 = spec_lcm(1, co);
    law_lcm(1, co);
    if m == 1 {
        if is_odd(n) {
            let eo = edge_order(edge_of(c[0]));
            let zo = center_order(center_of(c[0]));
            let o2 = spec_lcm(o1, eo);
            law_lcm(o1, eo);
            law_lcm(o2, zo);
            lemma_divides_trans(spec_lcm(o2, zo), o2, o1);
            lemma_divides_trans(spec_lcm(o2, zo), o1, co);
            lemma_divides_trans(spec_lcm(o2, zo), o2, eo);
        }
    } else {
        let m1 = (m - 1) as nat;
        lemma_orders_divide(n, c, m1);
        lemma_orders_grow(n, c, m1, m1);
        lemma_orders_grow(n, c, m1, m);
        let o = orders_upto(n, c, m1);
        let po = piece_order(c[m1 as int]);
        law_lcm(o, po);
        let r = orders_upto(n, c, m);
        lemma_divides_trans(r, o, co);
        if is_odd(n) {
            lemma_divides_trans(r, o, edge_order(edge_of(c[0])));
            lemma_divides_trans(r, o, center_order(center_of(c[0])));
        }
        assert forall|k: int| 1 <= k < m implies r % piece_order(#[trigger] c[k]) == 0 by {
            if k < m1 {
                lemma_orders_grow(n, c, (k + 1) as nat, (k + 1) as nat);
                lemma_divides_trans(r, o, piece_order(c[k]));
            }
        }
    }
}

/// Adding a valid cube to itself as many times as its order gives the
/// solved cube.
pub proof fn law_order_identity(n: nat, c: Seq<u128>)
    requires
        n >= 2,
        valid_cube(n, c),
    ensures
        cube_pow(n, c, cube_order_of(n, c)) == identity_cube(n),
{
    let t = cube_order_of(n, c);
    let r = cube_pow(n, c, t);
    lemma_id_words();
    lemma_word0_id(n);
    lemma_orders_divide(n, c, c.len());
    lemma_pow_words(n, c, t);
    lemma_ori_orbit_identity(corner_of(c[0]), ID_CORNER, 8, 7, 3, 3, 3, t);
    if is_odd(n) {
        lemma_ori_orbit_identity(edge_of(c[0]), ID_EDGE, 12, 15, 4, 2, 1, t);
        lemma_perm_orbit_identity(center_of(c[0]), ID_CENTER, 6, t);
    }
    lemma_word0_eq(n, r[0], id_word0(n));
    assert forall|k: int| 1 <= k < c.len() implies #[trigger] r[k] == ID_24 by {
        lemma_perm_orbit_identity(c[k], ID_24, 24, t);
    }
    assert(r =~= identity_cube(n));
}

/// A multiple of the order of each cycle led below `m` is a multiple of the
/// order of the cycles led below `m`.
proof fn lemma_order_below_least(w: u128, pm: u128, sh: u128, om: u128, md: nat, l: nat, m: nat, t: nat)
    requires
        is_perm(w, pm, l),
        md >= 1,
        m <= l,
        forall|j: int| 0 <= j < m && leader(w, pm, j) ==> t % #[trigger] cycle_order(w, pm, sh, om, md, l, j) == 0,
    ensures
        t % order_below(w, pm, sh, om, md, l, m) == 0,
    decreases m,
{
    if m == 0 {
        assert(t % 1 == 0);
    } else {
        let m1 = (m - 1) as nat;
        lemma_order_below_least(w, pm, sh, om, md, l, m1, t);
        if leader(w, pm, m1 as int) {
            lemma_order_grows(w, pm, sh, om, md, l, m1, m1);
            lemma_order_divides(w, pm, sh, om, md, l, m, m1 as int);
            law_lcm_least(
                order_below(w, pm, sh, om, md, l, m1),
                cycle_order(w, pm, sh, om, md, l, m1 as int),
                t,
            );
        }
    }
}

/// Modulo 2 or 3, a product with a factor that is not a multiple is a
/// multiple only when the other factor is.
proof fn lemma_prime_factor(m: nat, x: nat, md: nat)
    requires
        md == 2 || md == 3,
        (m * x) % md == 0,
        x % md != 0,
    ensures
        m % md == 0,
{
    vstd::arithmetic::div_mod::lemma_mul_mod_noop(m as int, x as int, md as int);
    let a = m % md;
    let b = x % md;
    assert((a * b) % md == 0);
    assert(a < md && b < md && b != 0);
    if a != 0 {
        assert((a * b) % md != 0) by (nonlinear_arith)
            requires
                md == 2 || md == 3,
                0 < a < md,
                0 < b < md,
        ;
    }
}

/// When the `t`-th power of a word brings every position back with a
/// multiple of `md` in orientations, `t` is a multiple of the order of
/// each cycle.
proof fn lemma_cycle_order_least(w: u128, pm: u128, sh: u128, om: u128, md: nat, l: nat, j: int, t: nat)
    requires
        is_perm(w, pm, l),
        md == 1 || md == 2 || md == 3,
        0 <= j < l,
        iter(w, pm, j, t) == j,
        twist(w, pm, sh, om, j, t) % md == 0,
    ensures
        t % cycle_order(w, pm, sh, om, md, l, j) == 0,
{
    lemma_period(w, pm, l, j);
    let p = period(w, pm, l, j);
    crate::cycles::lemma_iter_mod(w, pm, l, j, t);
    vstd::arithmetic::div_mod::lemma_fundamental_div_mod(t as int, p as int);
    let m = t / p;
    if t % p != 0 {
        assert(iter(w, pm, j, t % p) != j);
    }
    assert(t == m * p) by (nonlinear_arith)
        requires
            t == p * m + t % p,
            t % p == 0,
    ;
    lemma_turns(w, pm, sh, om, j, p, m);
    let x = twist(w, pm, sh, om, j, p);
    if x % md == 0 {
        vstd::arithmetic::div_mod::lemma_mod_multiples_basic(m as int, p as int);
    } else {
        if md == 1 {
            assert(x % 1 == 0);
        }
        lemma_prime_factor(m, x, md);
        vstd::arithmetic::div_mod::lemma_fundamental_div_mod(m as int, md as int);
        let k = m / md;
        assert(t == k * (p * md)) by (nonlinear_arith)
            requires
                t == m * p,
                m == md * k + 0,
        ;
        vstd::arithmetic::div_mod::lemma_mod_multiples_basic(k as int, (p * md) as int);
    }
}

/// A power of an orbit word with orientations that is the identity has an
/// exponent that is a multiple of the word's order.
proof fn lemma_ori_orbit_least(w: u128, e: u128, l: nat, pm: u128, sh: u128, md: u128, om: u128, t: nat)
    requires
        ori_kind(l, pm, sh, md),
        (pm == 7 && om == 3) || (pm == 15 && om == 1),
        ori_valid(w, l, pm, sh, md),
        perm_identity(e, l),
        ori_pow(w, e, l, pm, sh, md, t) == e,
    ensures
        t % order_below(w, pm, sh, om, md as nat, l, l) == 0,
{
    lemma_ori_pow(w, e, l, pm, sh, md, om, t);
    lemma_ori_identity(e, l, pm, sh, md);
    assert(is_perm(w, pm, l)) by {
        assert forall|i: int| 0 <= i < l implies 0 <= #[trigger] step(w, pm, i) < l by {}
        assert forall|i: int, j: int| 0 <= i < l && 0 <= j < l && i != j implies #[trigger] step(w, pm, i) != #[trigger] step(w, pm, j) by {
            assert((blk(w, i) & pm) != (blk(w, j) & pm));
        }
    }
    assert forall|j: int| 0 <= j < l && leader(w, pm, j) implies t % #[trigger] cycle_order(w, pm, sh, om, md as nat, l, j) == 0 by {
        assert((blk(e, j) & pm) == j);
        assert((blk(e, j) >> sh) == 0);
        assert(iter(w, pm, j, t) == j);
        assert((twist(w, pm, sh, om, j, t) % (md as nat)) as u128 == 0);
        lemma_cycle_order_least(w, pm, sh, om, md as nat, l, j, t);
    }
    lemma_order_below_least(w, pm, sh, om, md as nat, l, l, t);
}

/// A power of a permutation word that is the identity has an exponent that
/// is a multiple of the word's order.
proof fn lemma_perm_orbit_least(w: u128, e: u128, l: nat, t: nat)
    requires
        l <= 24,
        perm_valid(w, l),
        perm_identity(e, l),
        perm_pow(w, e, l, t) == e,
    ensures
        t % order_below(w, 31, 0, 0, 1, l, l) == 0,
{
    lemma_perm_pow(w, e, l, t);
    crate::laws::lemma_perm_word(w, l);
    assert forall|j: int| 0 <= j < l && leader(w, 31, j) implies t % #[trigger] cycle_order(w, 31, 0, 0, 1, l, j) == 0 by {
        assert(blk(e, j) == j);
        assert(twist(w, 31, 0, 0, j, t) % 1 == 0);
        lemma_cycle_order_least(w, 31, 0, 0, 1, l, j, t);
    }
    lemma_order_below_least(w, 31, 0, 0, 1, l, l, t);
}

/// A common multiple of the orders of the orbits of a valid cube is a
/// multiple of the order of its first `m` words.
proof fn lemma_orders_least(n: nat, c: Seq<u128>, m: nat, t: nat)
    requires
        valid_cube(n, c),
        1 <= m <= c.len(),
        t % corner_order(corner_of(c[0])) == 0,
        is_odd(n) ==> t % edge_order(edge_of(c[0])) == 0 && t % center_order(center_of(c[0])) == 0,
        forall|k: int| 1 <= k < c.len() ==> t % piece_order(#[trigger] c[k]) == 0,
    ensures
        t % orders_upto(n, c, m) == 0,
    decreases m,
{
    lemma_orders_grow(n, c, m, m);
    let co = corner_order(corner_of(c[0]));
    assert(t % 1 == 0);
    law_lcm_least(1, co, t);
    if m == 1 {
        if is_odd(n) {
            let o1 = spec_lcm(1, co);
            law_lcm_least(o1, edge_order(edge_of(c[0])), t);
            law_lcm_least(spec_lcm(o1, edge_order(edge_of(c[0]))), center_order(center_of(c[0])), t);
        }
    } else {
        let m1 = (m - 1) as nat;
        lemma_orders_least(n, c, m1, t);
        lemma_orders_grow(n, c, m1, m);
        law_lcm_least(orders_upto(n, c, m1), piece_order(c[m1 as int]), t);
    }
}

/// The order of a valid cube is the least positive number of additions of
/// the cube to itself that gives the solved cube: every number of
/// additions that gives the solved cube is a multiple of it.
pub proof fn law_order_least(n: nat, c: Seq<u128>, t: nat)
    requires
        n >= 2,
        valid_cube(n, c),
        cube_pow(n, c, t) == identity_cube(n),
    ensures
        t % cube_order_of(n, c) == 0,
        t > 0 ==> t >= cube_order_of(n, c),
{
    let r = cube_pow(n, c, t);
    lemma_id_words();
    lemma_word0_id(n);
    lemma_pow_words(n, c, t);
    assert(r[0] == id_word0(n));
    lemma_ori_orbit_least(corner_of(c[0]), ID_CORNER, 8, 7, 3, 3, 3, t);
    if is_odd(n) {
        lemma_ori_orbit_least(edge_of(c[0]), ID_EDGE, 12, 15, 4, 2, 1, t);
        lemma_perm_orbit_least(center_of(c[0]), ID_CENTER, 6, t);
    }
    assert forall|k: int| 1 <= k < c.len() implies t % piece_order(#[trigger] c[k]) == 0 by {
        assert(r[k] == ID_24);
        lemma_perm_orbit_least(c[k], ID_24, 24, t);
    }
    lemma_orders_least(n, c, c.len(), t);
    lemma_orders_grow(n, c, c.len(), c.len());
    if t > 0 {
        vstd::arithmetic::div_mod::lemma_mod_is_zero(t, cube_order_of(n, c));
    }
}

} // verus!
