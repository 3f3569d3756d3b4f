//! The initial packed words of a cube state: for each packed orbit family,
//! how many words it has and the solved word each one starts from.
use vstd::prelude::*;

use crate::arena::{ID_24, ID_CENTER, ID_CORNER, ID_EDGE};

verus! {

/// The number of orbit groups of a cube of dimension `n`, single edges and
/// fixed centers counted once each.
pub open spec fn state_len(n: nat) -> int {
    (n * n + 5 * (n % 2) - 2 * n + 4) / 4
}

/// The (number of words, solved word) pairs of a cube of dimension `n`:
/// corners, then either the 24-piece orbits (even `n`) or the single edges,
/// the fixed centers and the 24-piece orbits (odd `n`).
pub open spec fn state_orbits(n: nat) -> Seq<(usize, u128)> {
    let t = ((n - 2 - n % 2) / 2) as nat;
    if n % 2 == 0 {
        seq![(1usize, ID_CORNER), ((t * t + t) as usize, ID_24), (0usize, 0u128), (0usize, 0u128)]
    } else {
        seq![(1usize, ID_CORNER), (1usize, ID_EDGE), (1usize, ID_CENTER), ((t * t + 2 * t) as usize, ID_24)]
    }
}

/// The packed-state layout of a cube.
#[derive(Debug)]
pub struct Layout {
    /// (number of words, solved word) of each packed orbit family.
    pub orbit: [(usize, u128); 4],
    /// The dimension.
    pub n: usize,
    /// The number of orbit groups.
    pub len: usize,
}

impl Layout {
    /// The layout of a cube of dimension `n`.
    pub fn new(n: usize) -> (r: Self)
        requires
            n > 1,
            n * n + 9 <= usize::MAX,
        ensures
            r.n == n,
            r.len == state_len(n as nat),
            r.orbit@ == state_orbits(n as nat),
    {
        let m = n % 2;
        assert(n * n >= 2 * n) by (nonlinear_arith)
            requires
                n > 1,
        ;
        let len = (n * n + 5 * m - 2 * n + 4) / 4;
        let t = (n - 2 - m) / 2;
        assert(t * t + 2 * t <= n * n) by (nonlinear_arith)
            requires
                2 * t <= n,
        ;
        let orbit = if m == 0 {
            [(1usize, ID_CORNER), (t * t + t, ID_24), (0usize, 0u128), (0usize, 0u128)]
        } else {
            [(1usize, ID_CORNER), (1usize, ID_EDGE), (1usize, ID_CENTER), (t * t + 2 * t, ID_24)]
        };
        assert(orbit@ =~= state_orbits(n as nat));
        Layout { orbit, n, len }
    }
}

} // verus!
