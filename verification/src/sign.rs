//! The sign of a reordering, counted by its inversions, and how exchanges
//! change it.
use vstd::prelude::*;

verus! {

/// `s` with the entries at `i` and `j` exchanged.
pub open spec fn swapped<T>(s: Seq<T>, i: int, j: int) -> Seq<T> {
    s.update(i, s[j]).update(j, s[i])
}

/// The number of entries of `p` before position `a` that exceed `x`.
pub open spec fn above(p: Seq<int>, x: int, a: int) -> nat
    decreases a,
{
    if a <= 0 {
        0
    } else {
        above(p, x, a - 1) + if p[a - 1] > x {
            1nat
        } else {
            0nat
        }
    }
}

/// The number of inversions among the first `m` entries of `p`: pairs of
/// positions `a < b` with `p[a] > p[b]`.
pub open spec fn inv_upto(p: Seq<int>, m: int) -> nat
    decreases m,
{
    if m <= 0 {
        0
    } else {
        inv_upto(p, m - 1) + above(p, p[m - 1], m - 1)
    }
}

/// The number of inversions of `p`.
pub open spec fn inversions(p: Seq<int>) -> nat {
    inv_upto(p, p.len() as int)
}

/// The reordering `p` is odd: it has an odd number of inversions.
pub open spec fn odd_reordering(p: Seq<int>) -> bool {
    inversions(p) % 2 == 1
}

/// No two entries of `p` are equal.
pub open spec fn distinct(p: Seq<int>) -> bool {
    forall|a: int, b: int| 0 <= a < p.len() && 0 <= b < p.len() && a != b ==> #[trigger] p[a] != #[trigger] p[b]
}

/// The positions `0 .. l` in order.
pub open spec fn positions(l: nat) -> Seq<int> {
    Seq::new(l, |k: int| k)
}

/// Entries before the first changed position count alike.
proof fn lemma_above_prefix(p: Seq<int>, q: Seq<int>, x: int, a: int)
    requires
        0 <= a <= p.len(),
        a <= q.len(),
        forall|k: int| 0 <= k < a ==> p[k] == q[k],
    ensures
        above(p, x, a) == above(q, x, a),
    decreases a,
{
    if a > 0 {
        lemma_above_prefix(p, q, x, a - 1);
    }
}

/// Exchanging two neighbours before `a` does not change the count of
/// entries before `a` above `x`.
proof fn lemma_above_swap(p: Seq<int>, i: int, x: int, a: int)
    requires
        0 <= i,
        i + 2 <= a <= p.len(),
    ensures
        above(swapped(p, i, i + 1), x, a) == above(p, x, a),
    decreases a,
{
    let q = swapped(p, i, i + 1);
    if a == i + 2 {
        lemma_above_prefix(p, q, x, i);
        assert(above(q, x, i + 1) == above(q, x, i) + if q[i] > x { 1nat } else { 0nat });
        assert(above(p, x, i + 1) == above(p, x, i) + if p[i] > x { 1nat } else { 0nat });
    } else {
        lemma_above_swap(p, i, x, a - 1);
        assert(q[a - 1] == p[a - 1]);
    }
}

/// Inversions among the first `m` entries only depend on those entries.
proof fn lemma_inv_prefix(p: Seq<int>, q: Seq<int>, m: int)
    requires
        0 <= m <= p.len(),
        m <= q.len(),
        forall|k: int| 0 <= k < m ==> p[k] == q[k],
    ensures
        inv_upto(p, m) == inv_upto(q, m),
    decreases m,
{
    if m > 0 {
        lemma_inv_prefix(p, q, m - 1);
        lemma_above_prefix(p, q, p[m - 1], m - 1);
    }
}

/// Exchanging two distinct neighbours changes the number of inversions by one.
proof fn lemma_adjacent(p: Seq<int>, i: int, m: int)
    requires
        0 <= i,
        i + 2 <= m <= p.len(),
        p[i] != p[i + 1],
    ensures
        inv_upto(swapped(p, i, i + 1), m) + 1 == inv_upto(p, m) || inv_upto(swapped(p, i, i + 1), m)
            == inv_upto(p, m) + 1,
    decreases m,
{
    let q = swapped(p, i, i + 1);
    if m == i + 2 {
        lemma_inv_prefix(p, q, i);
        lemma_above_prefix(p, q, p[i], i);
        lemma_above_prefix(p, q, p[i + 1], i);
        assert(inv_upto(q, i + 2) == inv_upto(q, i) + above(q, q[i], i) + above(q, q[i + 1], i + 1));
        assert(inv_upto(p, i + 2) == inv_upto(p, i) + above(p, p[i], i) + above(p, p[i + 1], i + 1));
    } else {
        lemma_adjacent(p, i, m - 1);
        lemma_above_swap(p, i, p[m - 1], m - 1);
        assert(q[m - 1] == p[m - 1]);
    }
}

/// Exchanges keep the entries distinct.
pub proof fn lemma_swap_distinct(p: Seq<int>, i: int, j: int)
    requires
        distinct(p),
        0 <= i < p.len(),
        0 <= j < p.len(),
    ensures
        distinct(swapped(p, i, j)),
{
    let q = swapped(p, i, j);
    assert forall|a: int, b: int| 0 <= a < q.len() && 0 <= b < q.len() && a != b implies #[trigger] q[a] != #[trigger] q[b] by {
        let pa = if a == j { i } else if a == i { j } else { a };
        let pb = if b == j { i } else if b == i { j } else { b };
        assert(q[a] == p[pa] && q[b] == p[pb]);
    }
}

/// Exchanging two entries of a sequence of distinct entries changes the
/// parity of its inversions.
pub proof fn law_exchange_sign(p: Seq<int>, j: int, i: int)
    requires
        distinct(p),
        0 <= j < i < p.len(),
    ensures
        odd_reordering(swapped(p, j, i)) != odd_reordering(p),
    decreases i - j,
{
    if i == j + 1 {
        lemma_adjacent(p, j, p.len() as int);
    } else {
        let p1 = swapped(p, j, j + 1);
        let p2 = swapped(p1, j + 1, i);
        let p3 = swapped(p2, j, j + 1);
        lemma_swap_distinct(p, j, j + 1);
        lemma_swap_distinct(p1, j + 1, i);
        lemma_adjacent(p, j, p.len() as int);
        law_exchange_sign(p1, j + 1, i);
        lemma_adjacent(p2, j, p.len() as int);
        assert(p3 =~= swapped(p, j, i));
    }
}

/// The positions in order have no inversion.
pub proof fn lemma_positions_even(l: nat)
    ensures
        inversions(positions(l)) == 0,
        distinct(positions(l)),
{
    let p = positions(l);
    assert forall|m: int| 0 <= m <= l implies #[trigger] inv_upto(p, m) == 0 by {
        lemma_sorted_inv(l, m);
    }
}

proof fn lemma_sorted_above(l: nat, x: int, a: int)
    requires
        0 <= a <= x,
        a <= l,
    ensures
        above(positions(l), x, a) == 0,
    decreases a,
{
    if a > 0 {
        lemma_sorted_above(l, x, a - 1);
    }
}

proof fn lemma_sorted_inv(l: nat, m: int)
    requires
        0 <= m <= l,
    ensures
        inv_upto(positions(l), m) == 0,
    decreases m,
{
    if m > 0 {
        lemma_sorted_inv(l, m - 1);
        lemma_sorted_above(l, m - 1, m - 1);
    }
}

} // verus!
