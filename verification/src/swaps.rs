//! Exchanging the targets of two positions of a permutation changes the
//! number of its cycles by one, and so its parity.
use vstd::prelude::*;

use crate::cycles::{
    count_leaders, is_perm, iter, leader, lemma_iter_add, lemma_iter_mod, lemma_iter_range,
    lemma_period, period, reached_below, step,
};
use crate::solvable::odd_perm;

verus! {

/// `v` is `w` with the targets of positions 0 and 1 exchanged.
pub open spec fn swapped01(w: u128, v: u128, pm: u128, l: nat) -> bool {
    &&& step(v, pm, 0) == step(w, pm, 1)
    &&& step(v, pm, 1) == step(w, pm, 0)
    &&& forall|i: int| 2 <= i < l ==> #[trigger] step(v, pm, i) == step(w, pm, i)
}

/// Following a permutation from `a` reaches `b`.
pub open spec fn reaches(w: u128, pm: u128, a: int, b: int) -> bool {
    exists|k: nat| #[trigger] iter(w, pm, a, k) == b
}

/// The walk from `a` visits neither 0 nor 1 in its first `t` steps.
pub open spec fn avoids01(w: u128, pm: u128, a: int, t: nat) -> bool {
    forall|s: nat| s < t ==> #[trigger] iter(w, pm, a, s) != 0 && iter(w, pm, a, s) != 1
}

/// What `a` reaches reaches `a` back.
proof fn lemma_reach_back(w: u128, pm: u128, l: nat, a: int, k: nat)
    requires
        is_perm(w, pm, l),
        0 <= a < l,
    ensures
        reaches(w, pm, iter(w, pm, a, k), a),
{
    lemma_period(w, pm, l, a);
    let p = period(w, pm, l, a);
    lemma_iter_mod(w, pm, l, a, k);
    let r = k % p;
    lemma_iter_add(w, pm, a, r, (p - r) as nat);
    assert(iter(w, pm, iter(w, pm, a, k), (p - r) as nat) == a);
}

/// `x` leads its cycle exactly when no walk from `x` reaches a smaller position.
proof fn lemma_leader_walk(w: u128, pm: u128, l: nat, x: int)
    requires
        is_perm(w, pm, l),
        0 <= x < l,
    ensures
        leader(w, pm, x) <==> !(exists|k: nat| #[trigger] iter(w, pm, x, k) < x),
{
    if !leader(w, pm, x) {
        let (j, k) = choose|j: int, k: nat| 0 <= j < x && #[trigger] iter(w, pm, j, k) == x;
        lemma_reach_back(w, pm, l, j, k);
        let k2 = choose|k2: nat| #[trigger] iter(w, pm, x, k2) == j;
        assert(iter(w, pm, x, k2) < x);
    }
    if exists|k: nat| #[trigger] iter(w, pm, x, k) < x {
        let k = choose|k: nat| #[trigger] iter(w, pm, x, k) < x;
        lemma_iter_range(w, pm, l, x, k);
        lemma_reach_back(w, pm, l, x, k);
        let j = iter(w, pm, x, k);
        let k2 = choose|k2: nat| #[trigger] iter(w, pm, j, k2) == x;
        assert(0 <= j < x && iter(w, pm, j, k2) == x);
        assert(reached_below(w, pm, x, x));
    }
}

/// While a walk avoids 0 and 1, it is the same walk in `v`.
proof fn lemma_same_walk(w: u128, v: u128, pm: u128, l: nat, a: int, t: nat)
    requires
        is_perm(w, pm, l),
        swapped01(w, v, pm, l),
        0 <= a < l,
        avoids01(w, pm, a, t),
    ensures
        iter(v, pm, a, t) == iter(w, pm, a, t),
    decreases t,
{
    if t > 0 {
        let tp = (t - 1) as nat;
        assert(avoids01(w, pm, a, tp));
        lemma_same_walk(w, v, pm, l, a, tp);
        lemma_iter_range(w, pm, l, a, tp);
        let y = iter(w, pm, a, tp);
        assert(y != 0 && y != 1);
        assert(step(v, pm, y) == step(w, pm, y));
    }
}

/// A walk that reaches 0 or 1 has a first step at which it does.
proof fn lemma_first_hit(w: u128, pm: u128, a: int, k: nat) -> (k0: nat)
    requires
        iter(w, pm, a, k) == 0 || iter(w, pm, a, k) == 1,
    ensures
        k0 <= k,
        iter(w, pm, a, k0) == 0 || iter(w, pm, a, k0) == 1,
        avoids01(w, pm, a, k0),
    decreases k,
{
    if avoids01(w, pm, a, k) {
        k
    } else {
        let s = choose|s: nat| s < k && !(#[trigger] iter(w, pm, a, s) != 0 && iter(w, pm, a, s) != 1);
        lemma_first_hit(w, pm, a, s)
    }
}

/// Positions other than 0 and 1 lead their cycles in `v` exactly when they
/// do in `w`.
proof fn lemma_leader_same(w: u128, v: u128, pm: u128, l: nat, x: int)
    requires
        is_perm(w, pm, l),
        is_perm(v, pm, l),
        swapped01(w, v, pm, l),
        2 <= x < l,
    ensures
        leader(v, pm, x) == leader(w, pm, x),
{
    lemma_leader_walk(w, pm, l, x);
    lemma_leader_walk(v, pm, l, x);
    if exists|k: nat| #[trigger] iter(w, pm, x, k) == 0 || iter(w, pm, x, k) == 1 {
        let k = choose|k: nat| #[trigger] iter(w, pm, x, k) == 0 || iter(w, pm, x, k) == 1;
        let k0 = lemma_first_hit(w, pm, x, k);
        lemma_same_walk(w, v, pm, l, x, k0);
        assert(iter(w, pm, x, k0) < x);
        assert(iter(v, pm, x, k0) < x);
    } else {
        assert forall|k: nat| #[trigger] iter(v, pm, x, k) == iter(w, pm, x, k) by {
            assert(avoids01(w, pm, x, k));
            lemma_same_walk(w, v, pm, l, x, k);
        }
        if exists|k: nat| #[trigger] iter(w, pm, x, k) < x {
            let k = choose|k: nat| #[trigger] iter(w, pm, x, k) < x;
            assert(iter(v, pm, x, k) < x);
        }
        if exists|k: nat| #[trigger] iter(v, pm, x, k) < x {
            let k = choose|k: nat| #[trigger] iter(v, pm, x, k) < x;
            assert(iter(w, pm, x, k) < x);
        }
    }
}

/// Position 1 leads its cycle in `v` exactly when it does not in `w`:
/// exchanging the targets of 0 and 1 splits their common cycle, or joins
/// their two cycles.
proof fn lemma_leader_one(w: u128, v: u128, pm: u128, l: nat)
    requires
        is_perm(w, pm, l),
        is_perm(v, pm, l),
        swapped01(w, v, pm, l),
        2 <= l,
    ensures
        leader(v, pm, 1) != leader(w, pm, 1),
{
    assert forall|u: u128| #![trigger leader(u, pm, 1)] leader(u, pm, 1) <==> !reaches(u, pm, 0, 1) by {
        if reached_below(u, pm, 1, 1) {
            let (j, k) = choose|j: int, k: nat| 0 <= j < 1 && #[trigger] iter(u, pm, j, k) == 1;
            assert(j == 0);
        }
        if reaches(u, pm, 0, 1) {
            let k = choose|k: nat| #[trigger] iter(u, pm, 0, k) == 1;
            assert(reached_below(u, pm, 1, 1));
        }
    }
    lemma_period(w, pm, l, 1);
    let p1 = period(w, pm, l, 1);
    reveal_with_fuel(iter, 2);
    let b = iter(w, pm, 1, 1);
    lemma_iter_range(w, pm, l, 1, 1);
    assert(iter(v, pm, 0, 1) == b);
    if reaches(w, pm, 0, 1) {
        let k = choose|k: nat| #[trigger] iter(w, pm, 0, k) == 1;
        lemma_reach_back(w, pm, l, 0, k);
        let k1 = choose|k1: nat| #[trigger] iter(w, pm, 1, k1) == 0;
        lemma_iter_mod(w, pm, l, 1, k1);
        let r = k1 % p1;
        assert(iter(w, pm, 1, r) == 0);
        assert(r >= 1);
        lemma_iter_add(w, pm, 1, 1, (r - 1) as nat);
        assert(iter(w, pm, b, (r - 1) as nat) == 0);
        let tb = lemma_first_hit(w, pm, b, (r - 1) as nat);
        let t0 = tb + 1;
        lemma_iter_add(w, pm, 1, 1, tb);
        assert(iter(w, pm, 1, t0) == iter(w, pm, b, tb));
        assert(t0 < p1);
        assert(iter(w, pm, 1, t0) != 1);
        assert(iter(w, pm, 1, t0) == 0);
        assert forall|s: nat| 1 <= s <= t0 implies #[trigger] iter(v, pm, 0, s) == iter(w, pm, 1, s) by {
            assert(avoids01(w, pm, b, (s - 1) as nat));
            lemma_same_walk(w, v, pm, l, b, (s - 1) as nat);
            lemma_iter_add(v, pm, 0, 1, (s - 1) as nat);
            lemma_iter_add(w, pm, 1, 1, (s - 1) as nat);
        }
        assert forall|s: nat| 1 <= s < t0 implies #[trigger] iter(w, pm, 1, s) != 0 && iter(w, pm, 1, s) != 1 by {
            lemma_iter_add(w, pm, 1, 1, (s - 1) as nat);
            assert(iter(w, pm, b, (s - 1) as nat) == iter(w, pm, 1, s));
        }
        lemma_period(v, pm, l, 0);
        let pv = period(v, pm, l, 0);
        assert(pv == t0) by {
            if pv < t0 {
                assert(iter(v, pm, 0, pv) == iter(w, pm, 1, pv));
            } else if pv > t0 {
                assert(iter(v, pm, 0, t0) == 0);
            }
        }
        assert(!reaches(v, pm, 0, 1)) by {
            if reaches(v, pm, 0, 1) {
                let k = choose|k: nat| #[trigger] iter(v, pm, 0, k) == 1;
                lemma_iter_mod(v, pm, l, 0, k);
                let s = k % t0;
                if s == 0 {
                    assert(iter(v, pm, 0, 0) == 0);
                } else {
                    assert(iter(v, pm, 0, s) == iter(w, pm, 1, s));
                }
            }
        }
    } else {
        assert forall|s: nat| 1 <= s < p1 implies #[trigger] iter(w, pm, 1, s) != 0 && iter(w, pm, 1, s) != 1 by {
            if iter(w, pm, 1, s) == 0 {
                lemma_reach_back(w, pm, l, 1, s);
            }
        }
        assert(avoids01(w, pm, b, (p1 - 1) as nat)) by {
            assert forall|s: nat| s < (p1 - 1) as nat implies #[trigger] iter(w, pm, b, s) != 0 && iter(w, pm, b, s) != 1 by {
                lemma_iter_add(w, pm, 1, 1, s);
                assert(iter(w, pm, 1, 1 + s) != 0 && iter(w, pm, 1, 1 + s) != 1);
            }
        }
        lemma_same_walk(w, v, pm, l, b, (p1 - 1) as nat);
        lemma_iter_add(v, pm, 0, 1, (p1 - 1) as nat);
        lemma_iter_add(w, pm, 1, 1, (p1 - 1) as nat);
        assert(iter(v, pm, 0, p1) == 1);
        assert(reaches(v, pm, 0, 1));
    }
}

/// The leaders below `m` of `v` and of `w` differ by the leadership of 1.
proof fn lemma_count_swap(w: u128, v: u128, pm: u128, l: nat, m: nat)
    requires
        is_perm(w, pm, l),
        is_perm(v, pm, l),
        swapped01(w, v, pm, l),
        2 <= m <= l,
    ensures
        count_leaders(v, pm, m) + (if leader(w, pm, 1) { 1int } else { 0int }) == count_leaders(w, pm, m) + (
        if leader(v, pm, 1) {
            1int
        } else {
            0int
        }),
    decreases m,
{
    if m > 2 {
        lemma_count_swap(w, v, pm, l, (m - 1) as nat);
        lemma_leader_same(w, v, pm, l, m - 1);
    } else {
        assert(leader(w, pm, 0) && leader(v, pm, 0));
        reveal_with_fuel(count_leaders, 3);
    }
}

/// Exchanging the targets of positions 0 and 1 of a permutation of at
/// least two positions changes its parity.
pub proof fn law_swap_parity(w: u128, v: u128, pm: u128, l: nat)
    requires
        is_perm(w, pm, l),
        is_perm(v, pm, l),
        swapped01(w, v, pm, l),
        2 <= l,
    ensures
        odd_perm(v, pm, l) != odd_perm(w, pm, l),
{
    lemma_leader_one(w, v, pm, l);
    lemma_count_swap(w, v, pm, l, l);
}

/// Walks that follow the same targets are the same walks.
proof fn lemma_same_iter(w1: u128, w2: u128, pm: u128, l: nat, i: int, k: nat)
    requires
        is_perm(w1, pm, l),
        forall|j: int| 0 <= j < l ==> #[trigger] step(w1, pm, j) == step(w2, pm, j),
        0 <= i < l,
    ensures
        iter(w1, pm, i, k) == iter(w2, pm, i, k),
    decreases k,
{
    if k > 0 {
        lemma_same_iter(w1, w2, pm, l, i, (k - 1) as nat);
        lemma_iter_range(w1, pm, l, i, (k - 1) as nat);
    }
}

/// Two words with the same targets have the same parity.
pub proof fn lemma_same_steps(w1: u128, w2: u128, pm: u128, l: nat)
    requires
        is_perm(w1, pm, l),
        forall|j: int| 0 <= j < l ==> #[trigger] step(w1, pm, j) == step(w2, pm, j),
    ensures
        odd_perm(w1, pm, l) == odd_perm(w2, pm, l),
{
    assert forall|x: int| 0 <= x < l implies #[trigger] leader(w1, pm, x) == leader(w2, pm, x) by {
        if reached_below(w1, pm, x, x) {
            let (j, k) = choose|j: int, k: nat| 0 <= j < x && #[trigger] iter(w1, pm, j, k) == x;
            lemma_same_iter(w1, w2, pm, l, j, k);
            assert(iter(w2, pm, j, k) == x);
        }
        if reached_below(w2, pm, x, x) {
            let (j, k) = choose|j: int, k: nat| 0 <= j < x && #[trigger] iter(w2, pm, j, k) == x;
            lemma_same_iter(w1, w2, pm, l, j, k);
            assert(iter(w1, pm, j, k) == x);
        }
    }
    lemma_same_count(w1, w2, pm, l, l);
}

proof fn lemma_same_count(w1: u128, w2: u128, pm: u128, l: nat, m: nat)
    requires
        m <= l,
        forall|x: int| 0 <= x < l ==> #[trigger] leader(w1, pm, x) == leader(w2, pm, x),
    ensures
        count_leaders(w1, pm, m) == count_leaders(w2, pm, m),
    decreases m,
{
    if m > 0 {
        lemma_same_count(w1, w2, pm, l, (m - 1) as nat);
        assert(leader(w1, pm, m - 1) == leader(w2, pm, m - 1));
    }
}

/// A word whose every piece is at home packs an even permutation.
pub proof fn lemma_identity_even(w: u128, pm: u128, l: nat)
    requires
        forall|j: int| 0 <= j < l ==> #[trigger] step(w, pm, j) == j,
    ensures
        !odd_perm(w, pm, l),
{
    assert forall|j: int, k: nat| 0 <= j < l implies #[trigger] iter(w, pm, j, k) == j by {
        lemma_fixed_iter(w, pm, l, j, k);
    }
    assert forall|x: int| 0 <= x < l implies #[trigger] leader(w, pm, x) by {
        if reached_below(w, pm, x, x) {
            let (j, k) = choose|j: int, k: nat| 0 <= j < x && #[trigger] iter(w, pm, j, k) == x;
            assert(iter(w, pm, j, k) == j);
        }
    }
    lemma_all_leaders(w, pm, l, l);
}

proof fn lemma_fixed_iter(w: u128, pm: u128, l: nat, j: int, k: nat)
    requires
        forall|i: int| 0 <= i < l ==> #[trigger] step(w, pm, i) == i,
        0 <= j < l,
    ensures
        iter(w, pm, j, k) == j,
    decreases k,
{
    if k > 0 {
        lemma_fixed_iter(w, pm, l, j, (k - 1) as nat);
    }
}

proof fn lemma_all_leaders(w: u128, pm: u128, l: nat, m: nat)
    requires
        m <= l,
        forall|x: int| 0 <= x < l ==> #[trigger] leader(w, pm, x),
    ensures
        count_leaders(w, pm, m) == m,
    decreases m,
{
    if m > 0 {
        lemma_all_leaders(w, pm, l, (m - 1) as nat);
        assert(leader(w, pm, m - 1));
    }
}

} // verus!
