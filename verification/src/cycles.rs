//! The cycles of the permutation packed in an orbit word.
//!
//! Following the permutation fields of a packed orbit from a position gives
//! the positions of its cycle.  A cycle is represented by its smallest
//! position, its leader: the position that no smaller position reaches.
use vstd::prelude::*;
use vstd::set_lib::{lemma_int_range, lemma_len_subset, lemma_map_size, set_int_range};

use crate::bits::blk;
use crate::numbers::{law_lcm, spec_lcm};

verus! {

/// The position named by the permutation field of piece `i` of `w`.
pub open spec fn step(w: u128, pm: u128, i: int) -> int {
    (blk(w, i) & pm) as int
}

/// The position reached from `i` after following `step` `k` times.
pub open spec fn iter(w: u128, pm: u128, i: int, k: nat) -> int
    decreases k,
{
    if k == 0 {
        i
    } else {
        step(w, pm, iter(w, pm, i, (k - 1) as nat))
    }
}

/// The permutation fields of the first `l` pieces of `w` are a permutation
/// of `0 .. l`.
pub open spec fn is_perm(w: u128, pm: u128, l: nat) -> bool {
    &&& forall|i: int| 0 <= i < l ==> 0 <= #[trigger] step(w, pm, i) < l
    &&& forall|i: int, j: int|
        0 <= i < l && 0 <= j < l && i != j ==> #[trigger] step(w, pm, i) != #[trigger] step(w, pm, j)
}

/// Some position below `m` reaches `x`.
pub open spec fn reached_below(w: u128, pm: u128, m: int, x: int) -> bool {
    exists|j: int, k: nat| 0 <= j < m && #[trigger] iter(w, pm, j, k) == x
}

/// No smaller position reaches `i`: `i` is the smallest position of its cycle.
pub open spec fn leader(w: u128, pm: u128, i: int) -> bool {
    !reached_below(w, pm, i, i)
}

/// The number of cycles whose leader is below `m`.
pub open spec fn count_leaders(w: u128, pm: u128, m: nat) -> nat
    decreases m,
{
    if m == 0 {
        0
    } else {
        count_leaders(w, pm, (m - 1) as nat) + if leader(w, pm, m - 1) {
            1nat
        } else {
            0nat
        }
    }
}

/// The least `t` in `s ..= l` with `iter(i, t) == i`, or `l + 1` if there is none.
pub open spec fn first_return(w: u128, pm: u128, l: nat, i: int, s: nat) -> nat
    decreases l + 1 - s,
{
    if s > l {
        l + 1
    } else if iter(w, pm, i, s) == i {
        s
    } else {
        first_return(w, pm, l, i, s + 1)
    }
}

/// The length of the cycle through `i`: the least `t >= 1` with
/// `iter(i, t) == i`.
pub open spec fn period(w: u128, pm: u128, l: nat, i: int) -> nat {
    first_return(w, pm, l, i, 1)
}

/// The positions of the cycle through `i`, in the order the cycle visits them.
pub open spec fn cycle_of(w: u128, pm: u128, l: nat, i: int) -> Seq<int> {
    Seq::new(period(w, pm, l, i), |s: int| iter(w, pm, i, s as nat))
}

/// The cycles of length at least 2 whose leaders are below `m`, ordered by leader.
pub open spec fn cycles_below(w: u128, pm: u128, l: nat, m: nat) -> Seq<Seq<int>>
    decreases m,
{
    if m == 0 {
        Seq::empty()
    } else {
        let prev = cycles_below(w, pm, l, (m - 1) as nat);
        if leader(w, pm, m - 1) && period(w, pm, l, m - 1) > 1 {
            prev.push(cycle_of(w, pm, l, m - 1))
        } else {
            prev
        }
    }
}

pub proof fn lemma_iter_range(w: u128, pm: u128, l: nat, i: int, k: nat)
    requires
        is_perm(w, pm, l),
        0 <= i < l,
    ensures
        0 <= iter(w, pm, i, k) < l,
    decreases k,
{
    if k > 0 {
        lemma_iter_range(w, pm, l, i, (k - 1) as nat);
    }
}

/// Following `a` steps and then `b` steps is following `a + b` steps.
pub proof fn lemma_iter_add(w: u128, pm: u128, i: int, a: nat, b: nat)
    ensures
        iter(w, pm, iter(w, pm, i, a), b) == iter(w, pm, i, a + b),
    decreases b,
{
    if b > 0 {
        lemma_iter_add(w, pm, i, a, (b - 1) as nat);
        assert((a + b - 1) as nat == a + (b - 1) as nat);
    }
}

/// Two equal positions on the walk from `i` are a whole number of turns apart.
proof fn lemma_iter_cancel(w: u128, pm: u128, l: nat, i: int, a: nat, b: nat)
    requires
        is_perm(w, pm, l),
        0 <= i < l,
        a <= b,
        iter(w, pm, i, a) == iter(w, pm, i, b),
    ensures
        iter(w, pm, i, (b - a) as nat) == i,
    decreases a,
{
    if a > 0 {
        lemma_iter_range(w, pm, l, i, (a - 1) as nat);
        lemma_iter_range(w, pm, l, i, (b - 1) as nat);
        lemma_iter_cancel(w, pm, l, i, (a - 1) as nat, (b - 1) as nat);
        assert((b - 1 - (a - 1)) as nat == (b - a) as nat);
    }
}

/// Among `l + 1` values in `0 .. l` two are equal.
proof fn lemma_pigeonhole(f: spec_fn(int) -> int, l: nat)
    requires
        forall|k: int| 0 <= k <= l ==> 0 <= #[trigger] f(k) < l,
    ensures
        exists|a: int, b: int| 0 <= a < b <= l && #[trigger] f(a) == #[trigger] f(b),
{
    if !(exists|a: int, b: int| 0 <= a < b <= l && #[trigger] f(a) == #[trigger] f(b)) {
        let dom = set_int_range(0, l as int + 1);
        let rng = set_int_range(0, l as int);
        lemma_int_range(0, l as int + 1);
        lemma_int_range(0, l as int);
        assert(vstd::relations::injective_on(f, dom)) by {
            assert forall|x: int, y: int|
                dom.contains(x) && dom.contains(y) && #[trigger] f(x) == #[trigger] f(y) implies x
                == y by {
                if x < y {
                    assert(f(x) == f(y));
                } else if y < x {
                    assert(f(y) == f(x));
                }
            }
        }
        let img = dom.map(f);
        lemma_map_size(dom, img, f);
        assert(img.subset_of(rng)) by {
            assert forall|k: int| img.contains(k) implies rng.contains(k) by {
                let i = choose|i: int| dom.contains(i) && f(i) == k;
            }
        }
        lemma_len_subset(img, rng);
    }
}

/// The walk from `i` comes back to `i` within `l` steps.
proof fn lemma_returns(w: u128, pm: u128, l: nat, i: int)
    requires
        is_perm(w, pm, l),
        0 <= i < l,
    ensures
        exists|t: nat| 1 <= t <= l && #[trigger] iter(w, pm, i, t) == i,
{
    let f = |k: int| iter(w, pm, i, k as nat);
    assert forall|k: int| 0 <= k <= l implies 0 <= #[trigger] f(k) < l by {
        lemma_iter_range(w, pm, l, i, k as nat);
    }
    lemma_pigeonhole(f, l);
    let (a, b) = choose|a: int, b: int| 0 <= a < b <= l && #[trigger] f(a) == #[trigger] f(b);
    lemma_iter_cancel(w, pm, l, i, a as nat, b as nat);
    assert(iter(w, pm, i, (b - a) as nat) == i);
}

proof fn lemma_first_return(w: u128, pm: u128, l: nat, i: int, s: nat, t: nat)
    requires
        1 <= s <= t <= l,
        iter(w, pm, i, t) == i,
    ensures
        s <= first_return(w, pm, l, i, s) <= t,
        iter(w, pm, i, first_return(w, pm, l, i, s)) == i,
        forall|u: nat| s <= u < first_return(w, pm, l, i, s) ==> #[trigger] iter(w, pm, i, u) != i,
    decreases t - s,
{
    if iter(w, pm, i, s) != i {
        lemma_first_return(w, pm, l, i, s + 1, t);
    }
}

/// The period of `i`: the walk from `i` first comes back after `period` steps.
pub proof fn lemma_period(w: u128, pm: u128, l: nat, i: int)
    requires
        is_perm(w, pm, l),
        0 <= i < l,
    ensures
        1 <= period(w, pm, l, i) <= l,
        iter(w, pm, i, period(w, pm, l, i)) == i,
        forall|u: nat| 1 <= u < period(w, pm, l, i) ==> #[trigger] iter(w, pm, i, u) != i,
{
    lemma_returns(w, pm, l, i);
    let t = choose|t: nat| 1 <= t <= l && #[trigger] iter(w, pm, i, t) == i;
    lemma_first_return(w, pm, l, i, 1, t);
}

/// The positions of a cycle are distinct.
pub proof fn lemma_cycle_distinct(w: u128, pm: u128, l: nat, i: int, s: nat, t: nat)
    requires
        is_perm(w, pm, l),
        0 <= i < l,
        s < t < period(w, pm, l, i),
    ensures
        iter(w, pm, i, s) != iter(w, pm, i, t),
{
    lemma_period(w, pm, l, i);
    if iter(w, pm, i, s) == iter(w, pm, i, t) {
        lemma_iter_cancel(w, pm, l, i, s, t);
        assert(iter(w, pm, i, (t - s) as nat) != i);
    }
}

/// The walk from `i` repeats with the period of `i`.
pub proof fn lemma_iter_mod(w: u128, pm: u128, l: nat, i: int, k: nat)
    requires
        is_perm(w, pm, l),
        0 <= i < l,
    ensures
        iter(w, pm, i, k) == iter(w, pm, i, k % period(w, pm, l, i)),
    decreases k,
{
    lemma_period(w, pm, l, i);
    let p = period(w, pm, l, i);
    if k >= p {
        lemma_iter_add(w, pm, i, p, (k - p) as nat);
        lemma_iter_mod(w, pm, l, i, (k - p) as nat);
        assert((k - p) as nat % p == k % p) by {
            vstd::arithmetic::div_mod::lemma_mod_sub_multiples_vanish(k as int, p as int);
        }
    } else {
        vstd::arithmetic::div_mod::lemma_small_mod(k, p);
    }
}

/// A position that is reached from a position below `i` cannot lie on the
/// cycle of the leader `i`.
pub proof fn lemma_leader_cycle(w: u128, pm: u128, l: nat, i: int, t: nat)
    requires
        is_perm(w, pm, l),
        0 <= i < l,
        leader(w, pm, i),
    ensures
        !reached_below(w, pm, i, iter(w, pm, i, t)),
{
    lemma_period(w, pm, l, i);
    let p = period(w, pm, l, i);
    if reached_below(w, pm, i, iter(w, pm, i, t)) {
        let (j, k) = choose|j: int, k: nat| 0 <= j < i && #[trigger] iter(w, pm, j, k) == iter(
            w,
            pm,
            i,
            t,
        );
        let r = (p - t % p) as nat;
        lemma_iter_add(w, pm, j, k, r);
        lemma_iter_add(w, pm, i, t, r);
        lemma_iter_mod(w, pm, l, i, t + r);
        assert((t + r) % p == 0) by {
            vstd::arithmetic::div_mod::lemma_fundamental_div_mod(t as int, p as int);
            vstd::arithmetic::div_mod::lemma_mod_multiples_vanish(
                (t / p + 1) as int,
                0,
                p as int,
            );
            let q = (t / p) as int;
            assert(p * (q + 1) == p * q + p) by (nonlinear_arith);
            assert(t + r == p * (t / p + 1) + 0);
        }
        assert(iter(w, pm, j, k + r) == i);
    }
}

/// Everything reached from the leader `i` lies on its cycle.
pub proof fn lemma_reached_on_cycle(w: u128, pm: u128, l: nat, i: int, k: nat)
    requires
        is_perm(w, pm, l),
        0 <= i < l,
    ensures
        exists|s: nat| s < period(w, pm, l, i) && #[trigger] iter(w, pm, i, s) == iter(w, pm, i, k),
{
    lemma_period(w, pm, l, i);
    lemma_iter_mod(w, pm, l, i, k);
    let s = k % period(w, pm, l, i);
    assert(iter(w, pm, i, s) == iter(w, pm, i, k));
}

/// What a position reached from a non-leader `i` is also reached from below `i`.
pub proof fn lemma_follower(w: u128, pm: u128, i: int, k: nat)
    requires
        !leader(w, pm, i),
    ensures
        reached_below(w, pm, i, iter(w, pm, i, k)),
{
    let (j, k0) = choose|j: int, k0: nat| 0 <= j < i && #[trigger] iter(w, pm, j, k0) == i;
    lemma_iter_add(w, pm, j, k0, k);
    assert(iter(w, pm, j, k0 + k) == iter(w, pm, i, k));
}


/// Marking the cycle of the leader `i` extends the positions reached from
/// below `i` to those reached from below `i + 1`.
pub proof fn lemma_mark_leader(w: u128, pm: u128, l: nat, i: int, x: int)
    requires
        is_perm(w, pm, l),
        0 <= i < l,
    ensures
        (reached_below(w, pm, i, x) || exists|s: nat|
            s < period(w, pm, l, i) && #[trigger] iter(w, pm, i, s) == x) <==> reached_below(
            w,
            pm,
            i + 1,
            x,
        ),
{
    if reached_below(w, pm, i, x) {
        let (j, k) = choose|j: int, k: nat| 0 <= j < i && #[trigger] iter(w, pm, j, k) == x;
        assert(iter(w, pm, j, k) == x);
    }
    if exists|s: nat| s < period(w, pm, l, i) && #[trigger] iter(w, pm, i, s) == x {
        let s = choose|s: nat| s < period(w, pm, l, i) && #[trigger] iter(w, pm, i, s) == x;
        assert(iter(w, pm, i, s) == x);
    }
    if reached_below(w, pm, i + 1, x) {
        let (j, k) = choose|j: int, k: nat| 0 <= j < i + 1 && #[trigger] iter(w, pm, j, k) == x;
        if j < i {
            assert(iter(w, pm, j, k) == x);
        } else {
            lemma_reached_on_cycle(w, pm, l, i, k);
        }
    }
}

/// Nothing new is reached from a position that is not a leader.
pub proof fn lemma_skip_follower(w: u128, pm: u128, i: int, x: int)
    requires
        !leader(w, pm, i),
    ensures
        reached_below(w, pm, i + 1, x) <==> reached_below(w, pm, i, x),
{
    if reached_below(w, pm, i, x) {
        let (j, k) = choose|j: int, k: nat| 0 <= j < i && #[trigger] iter(w, pm, j, k) == x;
        assert(iter(w, pm, j, k) == x);
    }
    if reached_below(w, pm, i + 1, x) {
        let (j, k) = choose|j: int, k: nat| 0 <= j < i + 1 && #[trigger] iter(w, pm, j, k) == x;
        if j == i {
            lemma_follower(w, pm, i, k);
        } else {
            assert(iter(w, pm, j, k) == x);
        }
    }
}

/// When the walk from the leader `i` meets a marked position, it has gone
/// once round the cycle.
pub proof fn lemma_walk_end(w: u128, pm: u128, l: nat, i: int, t: nat)
    requires
        is_perm(w, pm, l),
        0 <= i < l,
        leader(w, pm, i),
        t <= period(w, pm, l, i),
        reached_below(w, pm, i, iter(w, pm, i, t)) || exists|s: nat|
            s < t && #[trigger] iter(w, pm, i, s) == iter(w, pm, i, t),
    ensures
        t == period(w, pm, l, i),
{
    lemma_leader_cycle(w, pm, l, i, t);
    if t < period(w, pm, l, i) {
        let s = choose|s: nat| s < t && #[trigger] iter(w, pm, i, s) == iter(w, pm, i, t);
        lemma_cycle_distinct(w, pm, l, i, s, t);
    }
}

/// The sum of the orientation fields `(block >> sh) & om` of the first `t`
/// positions of the walk from `i`.
pub open spec fn twist(w: u128, pm: u128, sh: u128, om: u128, i: int, t: nat) -> nat
    decreases t,
{
    if t == 0 {
        0
    } else {
        twist(w, pm, sh, om, i, (t - 1) as nat) + ((blk(w, iter(w, pm, i, (t - 1) as nat)) >> sh)
            & om) as nat
    }
}

/// The order of the cycle through `i` with its orientations: its period,
/// times the modulus `md` when its orientations do not add up to a multiple
/// of `md`.
pub open spec fn cycle_order(w: u128, pm: u128, sh: u128, om: u128, md: nat, l: nat, i: int) -> nat {
    let p = period(w, pm, l, i);
    if twist(w, pm, sh, om, i, p) % md == 0 {
        p
    } else {
        p * md
    }
}

/// The least common multiple of the orders of the cycles whose leaders are
/// below `m`.
pub open spec fn order_below(
    w: u128,
    pm: u128,
    sh: u128,
    om: u128,
    md: nat,
    l: nat,
    m: nat,
) -> nat
    decreases m,
{
    if m == 0 {
        1
    } else {
        let o = order_below(w, pm, sh, om, md, l, (m - 1) as nat);
        if leader(w, pm, m - 1) {
            spec_lcm(o, cycle_order(w, pm, sh, om, md, l, m - 1))
        } else {
            o
        }
    }
}

/// The running least common multiple only grows.
pub proof fn lemma_order_grows(
    w: u128,
    pm: u128,
    sh: u128,
    om: u128,
    md: nat,
    l: nat,
    m0: nat,
    m: nat,
)
    requires
        is_perm(w, pm, l),
        md >= 1,
        m0 <= m <= l,
    ensures
        1 <= order_below(w, pm, sh, om, md, l, m0) <= order_below(w, pm, sh, om, md, l, m),
    decreases m,
{
    if m > m0 {
        lemma_order_grows(w, pm, sh, om, md, l, m0, (m - 1) as nat);
        let o = order_below(w, pm, sh, om, md, l, (m - 1) as nat);
        if leader(w, pm, m - 1) {
            lemma_period(w, pm, l, m - 1);
            let c = cycle_order(w, pm, sh, om, md, l, m - 1);
            assert(c >= 1) by (nonlinear_arith)
                requires
                    c == period(w, pm, l, m - 1) || c == period(w, pm, l, m - 1) * md,
                    period(w, pm, l, m - 1) >= 1,
                    md >= 1,
            ;
            law_lcm(o, c);
        }
    } else if m0 > 0 {
        lemma_order_grows(w, pm, sh, om, md, l, (m0 - 1) as nat, (m0 - 1) as nat);
        let o = order_below(w, pm, sh, om, md, l, (m0 - 1) as nat);
        if leader(w, pm, m0 - 1) {
            lemma_period(w, pm, l, m0 - 1);
            let c = cycle_order(w, pm, sh, om, md, l, m0 - 1);
            assert(c >= 1) by (nonlinear_arith)
                requires
                    c == period(w, pm, l, m0 - 1) || c == period(w, pm, l, m0 - 1) * md,
                    period(w, pm, l, m0 - 1) >= 1,
                    md >= 1,
            ;
            law_lcm(o, c);
        }
    }
}


/// `cy` is a cycle of the permutation: it has at least two positions, all
/// below `l`, and the permutation sends each to the next, the last to the
/// first.
pub open spec fn follows(cy: Seq<int>, w: u128, pm: u128, l: nat) -> bool {
    &&& cy.len() >= 2
    &&& forall|t: int| 0 <= t < cy.len() ==> 0 <= #[trigger] cy[t] < l && cy[(t + 1) % (cy.len() as int)] == step(w, pm, cy[t])
}

/// `cs` is the cycle decomposition of the permutation in the fields of `w`:
/// each of its lists is a cycle of it, and every position the permutation
/// moves lies on one of them.
pub open spec fn decomposes(cs: Seq<Seq<int>>, w: u128, pm: u128, l: nat) -> bool {
    &&& forall|c: int| 0 <= c < cs.len() ==> follows(#[trigger] cs[c], w, pm, l)
    &&& forall|x: int|
        0 <= x < l && step(w, pm, x) != x ==> exists|c: int, t: int|
            0 <= c < cs.len() && 0 <= t < cs[c].len() && #[trigger] cs[c][t] == x
}

/// The listed cycles of a permutation are its cycle decomposition.
pub proof fn law_cycles_decompose(w: u128, pm: u128, l: nat)
    requires
        is_perm(w, pm, l),
    ensures
        decomposes(cycles_below(w, pm, l, l), w, pm, l),
{
    lemma_cycles_follow(w, pm, l, l);
    assert forall|x: int| 0 <= x < l && step(w, pm, x) != x implies exists|c: int, t: int|
        0 <= c < cycles_below(w, pm, l, l).len() && 0 <= t < cycles_below(w, pm, l, l)[c].len()
            && #[trigger] cycles_below(w, pm, l, l)[c][t] == x by {
        lemma_cycles_cover(w, pm, l, x);
    }
}

/// Every listed cycle follows the permutation: its positions lie below `l`,
/// it has at least two of them, and each is followed by the position the
/// permutation sends it to, the last by the first.
pub proof fn lemma_cycles_follow(w: u128, pm: u128, l: nat, m: nat)
    requires
        is_perm(w, pm, l),
        m <= l,
    ensures
        forall|c: int| 0 <= c < cycles_below(w, pm, l, m).len() ==> follows(#[trigger] cycles_below(w, pm, l, m)[c], w, pm, l),
    decreases m,
{
    if m > 0 {
        let prev = cycles_below(w, pm, l, (m - 1) as nat);
        lemma_cycles_follow(w, pm, l, (m - 1) as nat);
        let i = m - 1;
        if leader(w, pm, i) && period(w, pm, l, i) > 1 {
            let cur = prev.push(cycle_of(w, pm, l, i));
            assert(cycles_below(w, pm, l, m) == cur);
            lemma_period(w, pm, l, i);
            let p = period(w, pm, l, i);
            let cy = cycle_of(w, pm, l, i);
            assert forall|t: int| 0 <= t < cy.len() implies 0 <= #[trigger] cy[t] < l && cy[(t + 1) % (cy.len() as int)] == step(w, pm, cy[t]) by {
                    lemma_iter_range(w, pm, l, i, t as nat);
                    if t + 1 < p {
                        vstd::arithmetic::div_mod::lemma_small_mod((t + 1) as nat, p);
                        assert(iter(w, pm, i, (t + 1) as nat) == step(w, pm, iter(w, pm, i, t as nat)));
                    } else {
                        vstd::arithmetic::div_mod::lemma_mod_self_0(p as int);
                        assert(iter(w, pm, i, p) == step(w, pm, iter(w, pm, i, (p - 1) as nat)));
                    }
            }
            assert(follows(cy, w, pm, l));
            assert forall|c: int| 0 <= c < cur.len() implies follows(#[trigger] cur[c], w, pm, l) by {
                if c < prev.len() {
                    assert(cur[c] == prev[c]);
                }
            }
        }
    }
}

/// A position that a position below `j` reaches lies on the cycle of some
/// leader below `j`.
proof fn lemma_reached_leader(w: u128, pm: u128, l: nat, x: int, j: int, k: nat)
    requires
        is_perm(w, pm, l),
        0 <= j < l,
        iter(w, pm, j, k) == x,
    ensures
        exists|i: int, s: nat| 0 <= i <= j && leader(w, pm, i) && s < period(w, pm, l, i) && #[trigger] iter(w, pm, i, s) == x,
    decreases j,
{
    if leader(w, pm, j) {
        lemma_reached_on_cycle(w, pm, l, j, k);
        let s = choose|s: nat| s < period(w, pm, l, j) && #[trigger] iter(w, pm, j, s) == iter(w, pm, j, k);
        assert(iter(w, pm, j, s) == x);
    } else {
        let (j2, k2) = choose|j2: int, k2: nat| 0 <= j2 < j && #[trigger] iter(w, pm, j2, k2) == j;
        lemma_iter_add(w, pm, j2, k2, k);
        lemma_reached_leader(w, pm, l, x, j2, k2 + k);
    }
}

/// The cycle of every leader below `m` with more than one position is listed.
proof fn lemma_cycle_listed(w: u128, pm: u128, l: nat, m: nat, i: int)
    requires
        0 <= i < m,
        leader(w, pm, i),
        period(w, pm, l, i) > 1,
    ensures
        exists|c: int| 0 <= c < cycles_below(w, pm, l, m).len() && #[trigger] cycles_below(w, pm, l, m)[c] == cycle_of(w, pm, l, i),
    decreases m,
{
    let prev = cycles_below(w, pm, l, (m - 1) as nat);
    if i == m - 1 {
        let cur = prev.push(cycle_of(w, pm, l, i));
        assert(cycles_below(w, pm, l, m) == cur);
        assert(cycles_below(w, pm, l, m)[prev.len() as int] == cycle_of(w, pm, l, i));
    } else {
        lemma_cycle_listed(w, pm, l, (m - 1) as nat, i);
        let c = choose|c: int| 0 <= c < prev.len() && #[trigger] prev[c] == cycle_of(w, pm, l, i);
        if leader(w, pm, m - 1) && period(w, pm, l, m - 1) > 1 {
            let cur = prev.push(cycle_of(w, pm, l, m - 1));
            assert(cycles_below(w, pm, l, m) == cur);
            assert(cur[c] == prev[c]);
            assert(cycles_below(w, pm, l, m)[c] == cycle_of(w, pm, l, i));
        } else {
            assert(cycles_below(w, pm, l, m) == prev);
            assert(cycles_below(w, pm, l, m)[c] == cycle_of(w, pm, l, i));
        }
    }
}

/// Every position that the permutation moves appears in a listed cycle.
pub proof fn lemma_cycles_cover(w: u128, pm: u128, l: nat, x: int)
    requires
        is_perm(w, pm, l),
        0 <= x < l,
        step(w, pm, x) != x,
    ensures
        exists|c: int, t: int|
            0 <= c < cycles_below(w, pm, l, l).len() && 0 <= t < cycles_below(w, pm, l, l)[c].len()
                && #[trigger] cycles_below(w, pm, l, l)[c][t] == x,
{
    lemma_reached_leader(w, pm, l, x, x, 0);
    let (i, s) = choose|i: int, s: nat| 0 <= i <= x && leader(w, pm, i) && s < period(w, pm, l, i) && #[trigger] iter(w, pm, i, s) == x;
    lemma_period(w, pm, l, i);
    if period(w, pm, l, i) == 1 {
        assert(s == 0);
        assert(iter(w, pm, i, 1) == step(w, pm, i));
        assert(false);
    }
    lemma_cycle_listed(w, pm, l, l, i);
    let c = choose|c: int| 0 <= c < cycles_below(w, pm, l, l).len() && #[trigger] cycles_below(w, pm, l, l)[c] == cycle_of(w, pm, l, i);
    assert(cycles_below(w, pm, l, l)[c][s as int] == x);
}

} // verus!
