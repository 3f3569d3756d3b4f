//! Walks over the cycles of a packed orbit: parity, cycle decomposition
//! and order.
use vstd::prelude::*;

use crate::bits::blk;
use crate::cycles::{
    count_leaders, cycle_of, cycles_below, is_perm, iter, leader, lemma_iter_add, lemma_iter_range,
    lemma_mark_leader, lemma_period, lemma_skip_follower, lemma_walk_end, order_below, period,
    reached_below, twist, cycle_order, lemma_order_grows,
};
use crate::kinds::{kind_shape, PieceKind};
use crate::numbers::{lcm_step, spec_lcm};

verus! {

/// The position named by the permutation field of piece `j` of `value`.
pub(crate) fn next_position(value: u128, pm: u128, l: usize, j: usize) -> (r: usize)
    requires
        is_perm(value, pm, l as nat),
        j < l,
        l <= 24,
    ensures
        r as int == iter(value, pm, j as int, 1),
        r < l,
{
    let block = (value >> ((j * 5) as u128)) & 31;
    assert(block == blk(value, j as int));
    assert(iter(value, pm, j as int, 0) == j);
    (block & pm) as usize
}

/// Whether the packed permutation is odd: whether the number of pieces
/// minus the number of cycles is odd.
pub fn parity<P: PieceKind>(value: u128) -> (r: bool)
    requires
        is_perm(value, P::spec_perm(), P::spec_len()),
    ensures
        r == ((P::spec_len() - count_leaders(value, P::spec_perm(), P::spec_len())) % 2 == 1),
{
    proof {
        P::lemma_shape();
    }
    let len = P::len();
    let pm = P::perm();
    let mut visited: Vec<bool> = Vec::with_capacity(len);
    let mut z: usize = 0;
    while z < len
        invariant
            z <= len,
            visited@.len() == z,
            forall|x: int| 0 <= x < z ==> !visited@[x],
        decreases len - z,
    {
        visited.push(false);
        z = z + 1;
    }
    let mut cycles: usize = 0;
    let mut i: usize = 0;
    while i < len
        invariant
            len == P::spec_len(),
            pm == P::spec_perm(),
            len <= 24,
            is_perm(value, pm, len as nat),
            i <= len,
            visited@.len() == len,
            forall|x: int| 0 <= x < len ==> (visited@[x] <==> reached_below(value, pm, i as int, x)),
            cycles == count_leaders(value, pm, i as nat),
            cycles <= i,
        decreases len - i,
    {
        if !visited[i] {
            assert(leader(value, pm, i as int));
            proof {
                lemma_period(value, pm, len as nat, i as int);
            }
            let ghost p = period(value, pm, len as nat, i as int);
            let ghost mut t: nat = 0;
            let mut j = i;
            while !visited[j]
                invariant
                    len == P::spec_len(),
                    pm == P::spec_perm(),
                    len <= 24,
                    is_perm(value, pm, len as nat),
                    i < len,
                    leader(value, pm, i as int),
                    p == period(value, pm, len as nat, i as int),
                    1 <= p <= len,
                    iter(value, pm, i as int, p) == i,
                    t <= p,
                    j < len,
                    j as int == iter(value, pm, i as int, t),
                    visited@.len() == len,
                    forall|x: int|
                        0 <= x < len ==> (visited@[x] <==> (reached_below(value, pm, i as int, x)
                            || exists|s: nat| s < t && #[trigger] iter(value, pm, i as int, s) == x)),
                decreases p - t,
            {
                proof {
                    if t == p {
                        assert(iter(value, pm, i as int, 0) == j);
                        assert(visited@[j as int]);
                    }
                }
                visited.set(j, true);
                j = next_position(value, pm, len, j);
                proof {
                    lemma_iter_add(value, pm, i as int, t, 1);
                    t = t + 1;
                }
            }
            proof {
                lemma_walk_end(value, pm, len as nat, i as int, t);
                assert forall|x: int| 0 <= x < len implies (visited@[x] <==> reached_below(
                    value,
                    pm,
                    i + 1,
                    x,
                )) by {
                    lemma_mark_leader(value, pm, len as nat, i as int, x);
                }
            }
            cycles = cycles + 1;
        } else {
            proof {
                assert forall|x: int| 0 <= x < len implies (visited@[x] <==> reached_below(
                    value,
                    pm,
                    i + 1,
                    x,
                )) by {
                    lemma_skip_follower(value, pm, i as int, x);
                }
            }
        }
        i = i + 1;
    }
    (len - cycles) % 2 == 1
}


/// `out` lists the cycles `cs`, position by position.
pub open spec fn lists_cycles(out: Seq<Vec<usize>>, cs: Seq<Seq<int>>) -> bool {
    &&& out.len() == cs.len()
    &&& forall|c: int|
        0 <= c < out.len() ==> (#[trigger] out[c])@.len() == cs[c].len() && forall|s: int|
            0 <= s < cs[c].len() ==> out[c]@[s] as int == cs[c][s]
}

/// The cycles of length at least 2 of the packed permutation, ordered by
/// their smallest position; each cycle starts at its smallest position and
/// follows the permutation.
pub fn cycle_decomp<P: PieceKind>(value: u128) -> (r: Vec<Vec<usize>>)
    requires
        is_perm(value, P::spec_perm(), P::spec_len()),
    ensures
        lists_cycles(r@, cycles_below(value, P::spec_perm(), P::spec_len(), P::spec_len())),
{
    proof {
        P::lemma_shape();
    }
    let len = P::len();
    let pm = P::perm();
    let ghost l = len as nat;
    let mut visited: Vec<bool> = Vec::with_capacity(len);
    let mut z: usize = 0;
    while z < len
        invariant
            z <= len,
            visited@.len() == z,
            forall|x: int| 0 <= x < z ==> !visited@[x],
        decreases len - z,
    {
        visited.push(false);
        z = z + 1;
    }
    let mut out: Vec<Vec<usize>> = Vec::new();
    let mut i: usize = 0;
    while i < len
        invariant
            len == P::spec_len(),
            l == len,
            pm == P::spec_perm(),
            len <= 24,
            is_perm(value, pm, l),
            i <= len,
            visited@.len() == len,
            forall|x: int| 0 <= x < len ==> (visited@[x] <==> reached_below(value, pm, i as int, x)),
            lists_cycles(out@, cycles_below(value, pm, l, i as nat)),
        decreases len - i,
    {
        if !visited[i] {
            assert(leader(value, pm, i as int));
            proof {
                lemma_period(value, pm, l, i as int);
            }
            let ghost p = period(value, pm, l, i as int);
            let ghost mut t: nat = 0;
            let mut j = i;
            let mut cycle: Vec<usize> = Vec::new();
            while !visited[j]
                invariant
                    len == P::spec_len(),
                    l == len,
                    pm == P::spec_perm(),
                    len <= 24,
                    is_perm(value, pm, l),
                    i < len,
                    leader(value, pm, i as int),
                    p == period(value, pm, l, i as int),
                    1 <= p <= len,
                    iter(value, pm, i as int, p) == i,
                    t <= p,
                    j < len,
                    j as int == iter(value, pm, i as int, t),
                    cycle@.len() == t,
                    forall|s: int| 0 <= s < t ==> cycle@[s] as int == iter(value, pm, i as int, s as nat),
                    visited@.len() == len,
                    forall|x: int|
                        0 <= x < len ==> (visited@[x] <==> (reached_below(value, pm, i as int, x)
                            || exists|s: nat| s < t && #[trigger] iter(value, pm, i as int, s) == x)),
                decreases p - t,
            {
                proof {
                    if t == p {
                        assert(iter(value, pm, i as int, 0) == j);
                        assert(visited@[j as int]);
                    }
                }
                visited.set(j, true);
                cycle.push(j);
                j = next_position(value, pm, len, j);
                proof {
                    lemma_iter_add(value, pm, i as int, t, 1);
                    t = t + 1;
                }
            }
            proof {
                lemma_walk_end(value, pm, l, i as int, t);
                assert forall|x: int| 0 <= x < len implies (visited@[x] <==> reached_below(
                    value,
                    pm,
                    i + 1,
                    x,
                )) by {
                    lemma_mark_leader(value, pm, l, i as int, x);
                }
            }
            let ghost old_out = out@;
            if cycle.len() > 1 {
                out.push(cycle);
                proof {
                    let cs = cycles_below(value, pm, l, i as nat);
                    assert(cycles_below(value, pm, l, (i + 1) as nat) == cs.push(
                        cycle_of(value, pm, l, i as int),
                    ));
                    assert forall|c: int| 0 <= c < out@.len() implies (#[trigger] out@[c])@.len()
                        == cs.push(cycle_of(value, pm, l, i as int))[c].len() && forall|s: int|
                        0 <= s < cs.push(cycle_of(value, pm, l, i as int))[c].len() ==> out@[c]@[s] as int
                            == cs.push(cycle_of(value, pm, l, i as int))[c][s] by {
                        if c < old_out.len() {
                            assert(out@[c] == old_out[c]);
                        }
                    }
                }
            }
        } else {
            proof {
                assert forall|x: int| 0 <= x < len implies (visited@[x] <==> reached_below(
                    value,
                    pm,
                    i + 1,
                    x,
                )) by {
                    lemma_skip_follower(value, pm, i as int, x);
                }
            }
        }
        i = i + 1;
    }
    out
}

/// The order of the packed permutation with orientation: the least common
/// multiple of the orders of its cycles, where a cycle of length `p` has
/// order `p` when its orientations add up to a multiple of the modulus and
/// `p` times the modulus otherwise.
pub fn orbit_order<P: PieceKind>(value: u128) -> (r: usize)
    requires
        is_perm(value, P::spec_perm(), P::spec_len()),
        order_below(
            value,
            P::spec_perm(),
            P::spec_shift(),
            P::spec_ori(),
            P::spec_mod() as nat,
            P::spec_len(),
            P::spec_len(),
        ) <= usize::MAX,
    ensures
        r == order_below(
            value,
            P::spec_perm(),
            P::spec_shift(),
            P::spec_ori(),
            P::spec_mod() as nat,
            P::spec_len(),
            P::spec_len(),
        ),
{
    proof {
        P::lemma_shape();
    }
    let len = P::len();
    let pm = P::perm();
    let sh = P::shift();
    let om = P::ori();
    let md = P::modulus();
    let ghost l = len as nat;
    let ghost mdn = md as nat;
    let mut visited: Vec<bool> = Vec::with_capacity(len);
    let mut z: usize = 0;
    while z < len
        invariant
            z <= len,
            visited@.len() == z,
            forall|x: int| 0 <= x < z ==> !visited@[x],
        decreases len - z,
    {
        visited.push(false);
        z = z + 1;
    }
    let mut order: usize = 1;
    let mut i: usize = 0;
    while i < len
        invariant
            kind_shape(len as nat, pm, om, sh as u128, md),
            len == P::spec_len(),
            l == len,
            mdn == md,
            pm == P::spec_perm(),
            sh == P::spec_shift(),
            om == P::spec_ori(),
            md == P::spec_mod(),
            is_perm(value, pm, l),
            order_below(value, pm, sh as u128, om, mdn, l, l) <= usize::MAX,
            i <= len,
            visited@.len() == len,
            forall|x: int| 0 <= x < len ==> (visited@[x] <==> reached_below(value, pm, i as int, x)),
            order == order_below(value, pm, sh as u128, om, mdn, l, i as nat),
        decreases len - i,
    {
        if !visited[i] {
            assert(leader(value, pm, i as int));
            proof {
                lemma_period(value, pm, l, i as int);
            }
            let ghost p = period(value, pm, l, i as int);
            let mut steps: usize = 0;
            let mut tw: usize = 0;
            let mut j = i;
            while !visited[j]
                invariant
                    kind_shape(len as nat, pm, om, sh as u128, md),
                    len == P::spec_len(),
                    l == len,
                    pm == P::spec_perm(),
                    is_perm(value, pm, l),
                    i < len,
                    leader(value, pm, i as int),
                    p == period(value, pm, l, i as int),
                    1 <= p <= len,
                    iter(value, pm, i as int, p) == i,
                    steps <= p,
                    j < len,
                    j as int == iter(value, pm, i as int, steps as nat),
                    tw == twist(value, pm, sh as u128, om, i as int, steps as nat),
                    tw <= 3 * steps,
                    visited@.len() == len,
                    forall|x: int|
                        0 <= x < len ==> (visited@[x] <==> (reached_below(value, pm, i as int, x)
                            || exists|s: nat|
                            s < steps && #[trigger] iter(value, pm, i as int, s) == x)),
                decreases p - steps,
            {
                proof {
                    if steps == p {
                        assert(iter(value, pm, i as int, 0) == j);
                        assert(visited@[j as int]);
                    }
                }
                visited.set(j, true);
                let block = (value >> ((j * 5) as u128)) & 31;
                assert(block == blk(value, j as int));
                let o = (block >> (sh as u128)) & om;
                proof {
                    crate::bits::lemma_and_le(block >> (sh as u128), om);
                }
                tw = tw + o as usize;
                j = next_position(value, pm, len, j);
                proof {
                    lemma_iter_add(value, pm, i as int, steps as nat, 1);
                }
                steps = steps + 1;
            }
            proof {
                lemma_walk_end(value, pm, l, i as int, steps as nat);
                assert forall|x: int| 0 <= x < len implies (visited@[x] <==> reached_below(
                    value,
                    pm,
                    i + 1,
                    x,
                )) by {
                    lemma_mark_leader(value, pm, l, i as int, x);
                }
            }
            assert(steps <= 24 && 1 <= md <= 3);
            let mdu = md as usize;
            assert(steps * mdu <= 72) by (nonlinear_arith)
                requires
                    steps <= 24,
                    mdu <= 3,
            ;
            let c = if tw % mdu == 0 {
                steps
            } else {
                steps * mdu
            };
            assert(c == cycle_order(value, pm, sh as u128, om, mdn, l, i as int));
            proof {
                lemma_order_grows(value, pm, sh as u128, om, mdn, l, (i + 1) as nat, l);
                lemma_order_grows(value, pm, sh as u128, om, mdn, l, i as nat, l);
                assert(c >= 1) by (nonlinear_arith)
                    requires
                        c == steps || c == steps * md,
                        steps >= 1,
                        md >= 1,
                ;
            }
            order = lcm_step(order, c);
        } else {
            proof {
                assert forall|x: int| 0 <= x < len implies (visited@[x] <==> reached_below(
                    value,
                    pm,
                    i + 1,
                    x,
                )) by {
                    lemma_skip_follower(value, pm, i as int, x);
                }
            }
        }
        i = i + 1;
    }
    order
}

} // verus!
