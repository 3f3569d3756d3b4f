//! Questions about a cube of an arena: its order and its cycles.
use vstd::prelude::*;

use crate::arena::{center_of, corner_of, edge_of, is_odd, CubeArena};
use crate::checks::{reports_slice, slice_fault};
use crate::error::CubeError;
use crate::cycles::{cycles_below, decomposes, law_cycles_decompose, lemma_order_grows, order_below};
use crate::kinds::{Center, Corner, Edge, Piece24};
use crate::laws::{lemma_valid_perms, valid_cube};
use crate::numbers::{law_lcm, lcm_step, spec_lcm};
use crate::ops::{get_center, get_corner, get_edge};
use crate::walks::{cycle_decomp, lists_cycles, orbit_order};

verus! {

/// The order of a corner word.
pub open spec fn corner_order(w: u128) -> nat {
    order_below(w, 7, 3, 3, 3, 8, 8)
}

/// The order of a single-edge word.
pub open spec fn edge_order(w: u128) -> nat {
    order_below(w, 15, 4, 1, 2, 12, 12)
}

/// The order of a fixed-center word.
pub open spec fn center_order(w: u128) -> nat {
    order_below(w, 31, 0, 0, 1, 6, 6)
}

/// The order of a 24-piece orbit word.
pub open spec fn piece_order(w: u128) -> nat {
    order_below(w, 31, 0, 0, 1, 24, 24)
}

/// The least common multiple of the orders of the orbits in the first
/// word of a cube.
pub open spec fn word0_order(n: nat, w: u128) -> nat {
    let o = spec_lcm(1, corner_order(corner_of(w)));
    if is_odd(n) {
        spec_lcm(spec_lcm(o, edge_order(edge_of(w))), center_order(center_of(w)))
    } else {
        o
    }
}

/// The least common multiple of the orders of the orbits in the first `m`
/// words of a cube.
pub open spec fn orders_upto(n: nat, c: Seq<u128>, m: nat) -> nat
    decreases m,
{
    if m <= 1 {
        word0_order(n, c[0])
    } else {
        spec_lcm(orders_upto(n, c, (m - 1) as nat), piece_order(c[m - 1]))
    }
}

/// The order of a cube: the least common multiple of the orders of its
/// orbits.  For a valid cube it is the least `k > 0` for which adding the
/// cube to itself `k` times gives the solved cube (`law_order_identity`,
/// `law_order_least`).
pub open spec fn cube_order_of(n: nat, c: Seq<u128>) -> nat {
    orders_upto(n, c, c.len())
}

/// The cycles of orbit group `g` of a cube: the corners, then for odd
/// dimensions the single edges and the fixed centers, then the 24-piece
/// orbits in word order.
pub open spec fn group_cycles(n: nat, c: Seq<u128>, g: int) -> Seq<Seq<int>> {
    if g == 0 {
        cycles_below(corner_of(c[0]), 7, 8, 8)
    } else if is_odd(n) && g == 1 {
        cycles_below(edge_of(c[0]), 15, 12, 12)
    } else if is_odd(n) && g == 2 {
        cycles_below(center_of(c[0]), 31, 6, 6)
    } else {
        cycles_below(c[g - 2 * (n % 2) as int], 31, 24, 24)
    }
}

/// Each group of the cycle decomposition of a valid cube is the cycle
/// decomposition of the orbit it stands for: group 0 of the corners (8
/// pieces), for odd dimensions group 1 of the single edges (12) and group 2
/// of the fixed centers (6), and each further group of the 24-piece word
/// of the cube in the same order.
pub proof fn law_group_cycles(n: nat, c: Seq<u128>, g: int)
    requires
        valid_cube(n, c),
        0 <= g < c.len() + 2 * (n % 2),
    ensures
        g == 0 ==> decomposes(group_cycles(n, c, g), corner_of(c[0]), 7, 8),
        is_odd(n) && g == 1 ==> decomposes(group_cycles(n, c, g), edge_of(c[0]), 15, 12),
        is_odd(n) && g == 2 ==> decomposes(group_cycles(n, c, g), center_of(c[0]), 31, 6),
        g >= 1 + 2 * (n % 2) ==> decomposes(group_cycles(n, c, g), c[g - 2 * (n % 2)], 31, 24),
{
    lemma_valid_perms(n, c);
    if g == 0 {
        law_cycles_decompose(corner_of(c[0]), 7, 8);
    } else if is_odd(n) && g == 1 {
        law_cycles_decompose(edge_of(c[0]), 15, 12);
    } else if is_odd(n) && g == 2 {
        law_cycles_decompose(center_of(c[0]), 31, 6);
    } else {
        assert(1 <= g - 2 * (n % 2) < c.len());
        law_cycles_decompose(c[g - 2 * (n % 2)], 31, 24);
    }
}

proof fn lemma_lcm_grows(o: nat, x: nat)
    requires
        o >= 1,
        x >= 1,
    ensures
        spec_lcm(o, x) >= o,
        spec_lcm(o, x) >= x,
{
    law_lcm(o, x);
}

/// The orders of the orbits of a valid cube are positive and the running
/// least common multiple only grows.
pub(crate) proof fn lemma_orders_grow(n: nat, c: Seq<u128>, m0: nat, m: nat)
    requires
        valid_cube(n, c),
        1 <= m0 <= m <= c.len(),
    ensures
        1 <= orders_upto(n, c, m0) <= orders_upto(n, c, m),
        m >= 2 ==> 1 <= piece_order(c[m - 1]) <= orders_upto(n, c, m),
        1 <= corner_order(corner_of(c[0])),
        corner_order(corner_of(c[0])) <= spec_lcm(1, corner_order(corner_of(c[0]))),
        spec_lcm(1, corner_order(corner_of(c[0]))) <= orders_upto(n, c, m),
        is_odd(n) ==> edge_order(edge_of(c[0])) <= orders_upto(n, c, m) && center_order(
            center_of(c[0]),
        ) <= orders_upto(n, c, m),
        is_odd(n) ==> 1 <= edge_order(edge_of(c[0])) && 1 <= center_order(center_of(c[0])),
        is_odd(n) ==> spec_lcm(spec_lcm(1, corner_order(corner_of(c[0]))), edge_order(edge_of(c[0])))
            <= orders_upto(n, c, m),
    decreases m,
{
    lemma_valid_perms(n, c);
    lemma_order_grows(corner_of(c[0]), 7, 3, 3, 3, 8, 0, 8);
    let o1 = spec_lcm(1, corner_order(corner_of(c[0])));
    lemma_lcm_grows(1, corner_order(corner_of(c[0])));
    if is_odd(n) {
        lemma_order_grows(edge_of(c[0]), 15, 4, 1, 2, 12, 0, 12);
        lemma_order_grows(center_of(c[0]), 31, 0, 0, 1, 6, 0, 6);
        lemma_lcm_grows(o1, edge_order(edge_of(c[0])));
        lemma_lcm_grows(
            spec_lcm(o1, edge_order(edge_of(c[0]))),
            center_order(center_of(c[0])),
        );
    }
    if m > 1 {
        lemma_orders_grow(n, c, if m0 == m { (m - 1) as nat } else { m0 }, (m - 1) as nat);
        lemma_order_grows(c[m - 1], 31, 0, 0, 1, 24, 0, 24);
        lemma_lcm_grows(orders_upto(n, c, (m - 1) as nat), piece_order(c[m - 1]));
    }
}

impl CubeArena {
    /// The order of the cube at `index`: the least common multiple of the
    /// orders of its orbits.
    pub fn cube_order(&self, index: usize) -> (r: usize)
        requires
            self.wf(),
            index < self.slots(),
            valid_cube(self.spec_n(), self.cube(index as int)),
            cube_order_of(self.spec_n(), self.cube(index as int)) <= usize::MAX,
        ensures
            r == cube_order_of(self.spec_n(), self.cube(index as int)),
    {
        proof {
            self.lemma_wf();
        }
        let ghost n = self.spec_n();
        let ghost c = self.cube(index as int);
        let len = self.stride() as usize;
        proof {
            lemma_valid_perms(n, c);
            lemma_orders_grow(n, c, 1, len as nat);
        }
        let w0 = self.read_word(index, 0);
        let mut order: usize = 1;
        order = lcm_step(order, orbit_order::<Corner>(get_corner(w0) as u128));
        if self.n() % 2 == 1 {
            order = lcm_step(order, orbit_order::<Edge>(get_edge(w0) as u128));
            order = lcm_step(order, orbit_order::<Center>(get_center(w0)));
        }
        assert(order == orders_upto(n, c, 1));
        let mut k: usize = 1;
        while k < len
            invariant
                self.wf(),
                index < self.slots(),
                len == self.spec_stride(),
                c == self.cube(index as int),
                c.len() == len,
                valid_cube(n, c),
                n == self.spec_n(),
                1 <= k <= len,
                order == orders_upto(n, c, k as nat),
                orders_upto(n, c, len as nat) <= usize::MAX,
            decreases len - k,
        {
            proof {
                lemma_valid_perms(n, c);
                lemma_orders_grow(n, c, (k + 1) as nat, len as nat);
                lemma_orders_grow(n, c, k as nat, (k + 1) as nat);
            }
            let w = self.read_word(index, k);
            let o = orbit_order::<Piece24>(w);
            order = lcm_step(order, o);
            k = k + 1;
        }
        order
    }

    /// The cycles of every orbit group of the cube at `index`: the corners,
    /// then for odd dimensions the single edges and the fixed centers, then
    /// the 24-piece orbits.
    pub fn cycle_decomposition_cube(&self, index: usize) -> (r: Vec<Vec<Vec<usize>>>)
        requires
            self.wf(),
            index < self.slots(),
            valid_cube(self.spec_n(), self.cube(index as int)),
        ensures
            r@.len() == self.spec_stride() + 2 * (self.spec_n() % 2),
            forall|g: int|
                0 <= g < r@.len() ==> lists_cycles(
                    (#[trigger] r@[g])@,
                    group_cycles(self.spec_n(), self.cube(index as int), g),
                ),
    {
        proof {
            self.lemma_wf();
        }
        let ghost n = self.spec_n();
        let ghost c = self.cube(index as int);
        proof {
            lemma_valid_perms(n, c);
        }
        let len = self.stride() as usize;
        let w0 = self.read_word(index, 0);
        let mut out: Vec<Vec<Vec<usize>>> = Vec::new();
        out.push(cycle_decomp::<Corner>(get_corner(w0) as u128));
        let off: usize = if self.n() % 2 == 1 {
            out.push(cycle_decomp::<Edge>(get_edge(w0) as u128));
            out.push(cycle_decomp::<Center>(get_center(w0)));
            2
        } else {
            0
        };
        assert(off == 2 * (n % 2));
        let mut k: usize = 1;
        while k < len
            invariant
                self.wf(),
                index < self.slots(),
                len == self.spec_stride(),
                c == self.cube(index as int),
                c.len() == len,
                valid_cube(n, c),
                n == self.spec_n(),
                off == 2 * (n % 2),
                1 <= k <= len,
                out@.len() == k + off,
                forall|g: int| 0 <= g < out@.len() ==> lists_cycles(
                    (#[trigger] out@[g])@,
                    group_cycles(n, c, g),
                ),
            decreases len - k,
        {
            proof {
                lemma_valid_perms(n, c);
            }
            let w = self.read_word(index, k);
            let cs = cycle_decomp::<Piece24>(w);
            let ghost before = out@;
            out.push(cs);
            proof {
                assert forall|g: int| 0 <= g < out@.len() implies lists_cycles(
                    (#[trigger] out@[g])@,
                    group_cycles(n, c, g),
                ) by {
                    if g < before.len() {
                        assert(out@[g] == before[g]);
                    }
                }
            }
            k = k + 1;
        }
        out
    }
}


/// Rotation-move sentinel for the X axis, used by [`CubeArena::normalize_cube`].
pub const X: u32 = 4;

/// Rotation-move sentinel for the Y axis, used by [`CubeArena::normalize_cube`].
pub const Y: u32 = 4;

/// Rotation-move sentinel for the Z axis, used by [`CubeArena::normalize_cube`].
pub const Z: u32 = 4;

/// Neutral rotation sentinel, used by [`CubeArena::normalize_cube`].
pub const ZERO: u32 = 4;

/// The first word of a cube names a whole-cube orientation: for even
/// dimensions a corner orientation field below 3 at position 0, for odd
/// dimensions a down-face center below 6 and a back-face center in `1 ..= 4`.
pub open spec fn names_rotation(n: nat, w: u128) -> bool {
    if is_odd(n) {
        center_of(w) & 7 <= 5 && 1 <= (center_of(w) >> 5) & 7 <= 4
    } else {
        (corner_of(w) >> 3) & 3 != 3
    }
}

impl CubeArena {
    /// Reads which whole-cube rotation the cube at `index` is in, from the
    /// corner at position 0 (even dimensions) or from the fixed centers (odd
    /// dimensions).  The cube itself is left as it is.
    pub fn normalize_cube(&mut self, index: usize)
        requires
            old(self).wf(),
            index < old(self).slots(),
            names_rotation(old(self).spec_n(), old(self).cube(index as int)[0]),
        ensures
            *final(self) == *old(self),
    {
        proof {
            self.lemma_wf();
        }
        let w = self.read_word(index, 0);
        if self.n() % 2 != 1 {
            let corner = get_corner(w) as u128;
            let _position: u32 = if corner & 7 == 0 {
                ZERO
            } else if corner & 7 == 1 {
                Y
            } else if corner & 7 == 2 {
                Y * Y
            } else if corner & 7 == 3 {
                Y * Y * Y
            } else if corner & 7 == 4 {
                X
            } else if corner & 7 == 5 {
                X * X
            } else if corner & 7 == 6 {
                Y * X * X
            } else {
                Z * Z
            };
            let _twist: u32 = if (corner >> 3u128) & 3 == 0 {
                ZERO
            } else if (corner >> 3u128) & 3 == 1 {
                X * Y
            } else {
                Z * Z * Z * Y * Y * Y
            };
        } else {
            let center = get_center(w);
            let _down: u32 = if center & 7 == 0 {
                ZERO
            } else if center & 7 == 1 {
                X
            } else if center & 7 == 2 {
                Z * Z * Z
            } else if center & 7 == 3 {
                X * X * X
            } else if center & 7 == 4 {
                Z
            } else {
                Y * Y
            };
            let _back: u32 = if (center >> 5u128) & 7 == 1 {
                ZERO
            } else if (center >> 5u128) & 7 == 2 {
                Y * Y * Y
            } else if (center >> 5u128) & 7 == 3 {
                Y * Y
            } else {
                Y
            };
        }
    }

    /// Validates the cube at `index`; see [`CubeArena::check_slice`].
    pub fn check_cube(&mut self, index: usize) -> (r: Result<(), CubeError>)
        requires
            old(self).wf(),
            index < old(self).slots(),
        ensures
            *final(self) == *old(self),
            r is Ok <==> slice_fault(old(self).spec_n(), old(self).cube(index as int)) is None,
            r matches Err(e) ==> slice_fault(old(self).spec_n(), old(self).cube(index as int)) matches Some(f)
                && reports_slice(e, f),
    {
        proof {
            self.lemma_wf();
        }
        let words = self.cube_words(index);
        self.check_slice(words.as_slice())
    }
}

} // verus!
