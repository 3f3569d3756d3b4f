//! Validation of packed cubes: every orbit holds each of its pieces once,
//! with orientations in range and balanced.
use vstd::prelude::*;

use crate::arena::{corner_of, edge_of, center_of, is_odd, CubeArena};
use crate::bits::blk;
use crate::error::CubeError;
use crate::kinds::{Corner, Edge, Piece24};
use crate::ops::{
    get_center, get_corner, get_edge, ori_balanced, orientation_check, unpack_seq, unpack_u128,
};

verus! {

/// The permutation field of piece `i`: the low `shift` bits of its block.
pub open spec fn field_perm(d: u128, i: int, shift: u128) -> u8 {
    (blk(d, i) & (((1u128 << shift) - 1) as u128)) as u8
}

/// The orientation field of piece `i`: the block above `shift`, masked.
pub open spec fn field_ori(d: u128, i: int, shift: u128, om: u128) -> u8 {
    ((blk(d, i) >> shift) & om) as u8
}

/// The failure found in an orbit: a permutation failure (an index out of
/// range or repeated), or an orientation out of range with the offending
/// piece.
pub type OrbitFault = (bool, u8, u8);

/// The first failure of pieces `i ..` of the orbit `d` of `count` pieces:
/// an index at least `max`, an orientation at least `md` (when `md > 0`),
/// or an index already held by an earlier piece.
pub open spec fn orbit_fault(
    d: u128,
    count: nat,
    shift: u128,
    om: u128,
    md: nat,
    max: nat,
    i: nat,
) -> Option<OrbitFault>
    decreases count - i,
{
    if i >= count {
        None
    } else if field_perm(d, i as int, shift) >= max {
        Some((false, 0u8, 0u8))
    } else if md > 0 && field_ori(d, i as int, shift, om) >= md {
        Some((true, field_perm(d, i as int, shift), field_ori(d, i as int, shift, om)))
    } else if exists|j: int| 0 <= j < i && #[trigger] field_perm(d, j, shift) == field_perm(d, i as int, shift) {
        Some((false, 0u8, 0u8))
    } else {
        orbit_fault(d, count, shift, om, md, max, i + 1)
    }
}

/// A failure of a whole cube: which check failed (0 an orbit's pieces,
/// 1 a piece's orientation, 2 the corner orientation sum, 3 the edge
/// orientation sum), the orbit word, the offending piece and the modulus.
pub type SliceFault = (u8, u128, u8, u8, usize);

/// The failure of an orbit as a failure of the cube.
pub open spec fn lift(f: Option<OrbitFault>, d: u128, md: usize) -> Option<SliceFault> {
    match f {
        None => None,
        Some(g) => if g.0 {
            Some((1u8, d, g.1, g.2, md))
        } else {
            Some((0u8, d, 0u8, 0u8, 0usize))
        },
    }
}

/// The first `Some` of two.
pub open spec fn first_of(a: Option<SliceFault>, b: Option<SliceFault>) -> Option<SliceFault> {
    if a is Some {
        a
    } else {
        b
    }
}

/// The first failing 24-piece orbit among words `k ..`.
pub open spec fn words_fault(c: Seq<u128>, k: nat) -> Option<SliceFault>
    decreases c.len() - k,
{
    if k >= c.len() {
        None
    } else {
        first_of(lift(orbit_fault(c[k as int], 24, 5, 0, 0, 24, 0), c[k as int], 0), words_fault(c, k + 1))
    }
}

/// The first failure of the packed cube `c` of dimension `n`: corners,
/// then (odd dimensions) single edges and fixed centers, then the 24-piece
/// orbits, then the orientation sums of corners and edges.
pub open spec fn slice_fault(n: nat, c: Seq<u128>) -> Option<SliceFault> {
    let cw = corner_of(c[0]);
    let ew = edge_of(c[0]);
    let zw = center_of(c[0]);
    let corners = lift(orbit_fault(cw, 8, 3, 3, 3, 8, 0), cw, 3);
    let odd_part = if is_odd(n) {
        first_of(
            lift(orbit_fault(ew, 12, 4, 1, 2, 12, 0), ew, 2),
            lift(orbit_fault(zw, 6, 5, 0, 0, 6, 0), zw, 0),
        )
    } else {
        None
    };
    let sums = if !ori_balanced::<Corner>(cw) {
        Some((2u8, cw, 0u8, 0u8, 3usize))
    } else if !ori_balanced::<Edge>(ew) {
        Some((3u8, ew, 0u8, 0u8, 2usize))
    } else {
        None
    };
    first_of(corners, first_of(odd_part, first_of(words_fault(c, 1), sums)))
}

/// Pieces `i ..` of an orbit without failure have indices below `max`,
/// each different from those of all earlier pieces.
proof fn lemma_orbit_holds(d: u128, count: nat, shift: u128, om: u128, md: nat, max: nat, i: nat)
    requires
        orbit_fault(d, count, shift, om, md, max, i) is None,
    ensures
        forall|j: int| i <= j < count ==> #[trigger] field_perm(d, j, shift) < max,
        forall|a: int, b: int| 0 <= a < b && i <= b < count ==> #[trigger] field_perm(d, a, shift) != #[trigger] field_perm(d, b, shift),
    decreases count - i,
{
    if i < count {
        lemma_orbit_holds(d, count, shift, om, md, max, i + 1);
        assert forall|a: int, b: int| 0 <= a < b && i <= b < count implies #[trigger] field_perm(d, a, shift) != #[trigger] field_perm(d, b, shift) by {
            if b == i && field_perm(d, a, shift) == field_perm(d, b, shift) {
                assert(exists|j: int| 0 <= j < i && #[trigger] field_perm(d, j, shift) == field_perm(d, i as int, shift));
            }
        }
    }
}

/// Every 24-piece word from `k` on of a cube without failure holds each of
/// the 24 pieces once: its permutation fields are below 24 and distinct.
proof fn lemma_words_hold(c: Seq<u128>, k: nat)
    requires
        words_fault(c, k) is None,
    ensures
        forall|m: int, j: int| k <= m < c.len() && 0 <= j < 24 ==> #[trigger] field_perm(c[m], j, 5) < 24,
        forall|m: int, a: int, b: int|
            k <= m < c.len() && 0 <= a < b < 24 ==> #[trigger] field_perm(c[m], a, 5) != #[trigger] field_perm(c[m], b, 5),
    decreases c.len() - k,
{
    if k < c.len() {
        lemma_words_hold(c, k + 1);
        let d = c[k as int];
        assert(orbit_fault(d, 24, 5, 0, 0, 24, 0) is None);
        lemma_orbit_holds(d, 24, 5, 0, 0, 24, 0);
    }
}

/// What a cube that passes the check satisfies: its corner orientations
/// add up to a multiple of 3 and its single-edge orientations to a multiple
/// of 2, and every 24-piece word holds each of its 24 pieces exactly once.
pub proof fn law_check_conditions(n: nat, c: Seq<u128>)
    ensures
        slice_fault(n, c) is None ==> {
            &&& ori_balanced::<Corner>(corner_of(c[0]))
            &&& ori_balanced::<Edge>(edge_of(c[0]))
            &&& forall|m: int, j: int| 1 <= m < c.len() && 0 <= j < 24 ==> #[trigger] field_perm(c[m], j, 5) < 24
            &&& forall|m: int, a: int, b: int|
                1 <= m < c.len() && 0 <= a < b < 24 ==> #[trigger] field_perm(c[m], a, 5) != #[trigger] field_perm(
                    c[m],
                    b,
                    5,
                )
        },
{
    if slice_fault(n, c) is None {
        assert(words_fault(c, 1) is None);
        lemma_words_hold(c, 1);
    }
}

/// The error that reports the failure `f`.
pub open spec fn reports_slice(e: CubeError, f: SliceFault) -> bool {
    if f.0 == 0 {
        e matches CubeError::InvalidPermutation { got } && got@ == unpack_seq::<Piece24>(f.1)
    } else if f.0 == 1 {
        e matches CubeError::InvalidOrientation { got, mod_ } && got@ == seq![(f.2, f.3)] && mod_
            == f.4
    } else if f.0 == 2 {
        e matches CubeError::InvalidOrientation { got, mod_ } && got@ == unpack_seq::<Corner>(f.1)
            && mod_ == 3
    } else {
        e matches CubeError::InvalidOrientation { got, mod_ } && got@ == unpack_seq::<Edge>(f.1)
            && mod_ == 2
    }
}

/// Checks that the `count` pieces of the orbit `data` have indices below
/// `max`, orientations below `ori_mod` (when it is not 0) and no index
/// twice; returns the first failure.
fn check_orbit(data: u128, count: usize, shift: u32, ori_mask: u8, ori_mod: u8, max: u8) -> (r:
    Option<OrbitFault>)
    requires
        count <= 24,
        shift <= 5,
        max <= 24,
    ensures
        r == orbit_fault(data, count as nat, shift as u128, ori_mask as u128, ori_mod as nat, max as nat, 0),
{
    let mut seen: Vec<bool> = Vec::new();
    let mut z: usize = 0;
    while z < 32
        invariant
            z <= 32,
            seen@.len() == z,
            forall|x: int| 0 <= x < z ==> !seen@[x],
        decreases 32 - z,
    {
        seen.push(false);
        z = z + 1;
    }
    assert(1u128 << (shift as u128) >= 1 && (1u128 << (shift as u128)) - 1 <= 31) by (bit_vector)
        requires
            shift <= 5,
    ;
    let pmask: u128 = (1u128 << (shift as u128)) - 1;
    let mut i: usize = 0;
    while i < count
        invariant
            count <= 24,
            shift <= 5,
            max <= 24,
            pmask == ((1u128 << (shift as u128)) - 1) as u128,
            pmask <= 31,
            i <= count,
            seen@.len() == 32,
            forall|x: int|
                0 <= x < 32 ==> (seen@[x] <==> exists|j: int|
                    0 <= j < i && #[trigger] field_perm(data, j, shift as u128) == x),
            orbit_fault(data, count as nat, shift as u128, ori_mask as u128, ori_mod as nat, max as nat, 0)
                == orbit_fault(data, count as nat, shift as u128, ori_mask as u128, ori_mod as nat, max as nat, i as nat),
        decreases count - i,
    {
        let block = (data >> ((i * 5) as u128)) & 31;
        assert(block == blk(data, i as int));
        proof {
            crate::bits::lemma_and_le(block, pmask);
            crate::bits::lemma_and_le(block >> (shift as u128), ori_mask as u128);
            crate::bits::lemma_and_le(data >> ((i * 5) as u128), 31);
        }
        let perm = (block & pmask) as u8;
        let ori = ((block >> (shift as u128)) & (ori_mask as u128)) as u8;
        assert(perm == field_perm(data, i as int, shift as u128));
        assert(ori == field_ori(data, i as int, shift as u128, ori_mask as u128)) by {
            assert(block >> (shift as u128) <= 31) by (bit_vector)
                requires
                    block <= 31,
            ;
        }
        if perm >= max {
            return Some((false, 0u8, 0u8));
        }
        if ori >= ori_mod && ori_mod > 0 {
            return Some((true, perm, ori));
        }
        if seen[perm as usize] {
            return Some((false, 0u8, 0u8));
        }
        seen.set(perm as usize, true);
        proof {
            assert forall|x: int| 0 <= x < 32 implies (seen@[x] <==> exists|j: int|
                0 <= j < i + 1 && #[trigger] field_perm(data, j, shift as u128) == x) by {
                if x == perm {
                    assert(field_perm(data, i as int, shift as u128) == x);
                }
            }
        }
        i = i + 1;
    }
    None
}

/// The error that reports a cube failure.
fn slice_error(f: SliceFault) -> (e: CubeError)
    ensures
        reports_slice(e, f),
{
    if f.0 == 0 {
        CubeError::InvalidPermutation { got: unpack_u128::<Piece24>(f.1) }
    } else if f.0 == 1 {
        let mut got: Vec<(u8, u8)> = Vec::new();
        got.push((f.2, f.3));
        assert(got@ =~= seq![(f.2, f.3)]);
        CubeError::InvalidOrientation { got, mod_: f.4 }
    } else if f.0 == 2 {
        CubeError::InvalidOrientation { got: unpack_u128::<Corner>(f.1), mod_: 3 }
    } else {
        CubeError::InvalidOrientation { got: unpack_u128::<Edge>(f.1), mod_: 2 }
    }
}

impl CubeArena {
    /// Validates the packed cube `cube`: every orbit holds each of its
    /// pieces exactly once with orientations in range, and the corner and
    /// edge orientations add up to multiples of 3 and 2.
    pub fn check_slice(&self, cube: &[u128]) -> (r: Result<(), CubeError>)
        requires
            self.wf(),
            cube@.len() == self.spec_stride(),
        ensures
            r is Ok <==> slice_fault(self.spec_n(), cube@) is None,
            r matches Err(e) ==> slice_fault(self.spec_n(), cube@) matches Some(f) && reports_slice(e, f),
    {
        proof {
            self.lemma_wf();
        }
        let ghost n = self.spec_n();
        let len = self.stride() as usize;
        let w0 = cube[0];
        let cw = get_corner(w0) as u128;
        let ew = get_edge(w0) as u128;
        let zw = get_center(w0);
        let corners = check_orbit(cw, 8, 3, 3, 3, 8);
        if corners.is_some() {
            let g = corners.unwrap();
            return Err(slice_error(if g.0 { (1u8, cw, g.1, g.2, 3usize) } else { (0u8, cw, 0u8, 0u8, 0usize) }));
        }
        if self.n() % 2 == 1 {
            let edges = check_orbit(ew, 12, 4, 1, 2, 12);
            if edges.is_some() {
                let g = edges.unwrap();
                return Err(slice_error(if g.0 { (1u8, ew, g.1, g.2, 2usize) } else { (0u8, ew, 0u8, 0u8, 0usize) }));
            }
            let centers = check_orbit(zw, 6, 5, 0, 0, 6);
            if centers.is_some() {
                let g = centers.unwrap();
                return Err(slice_error(if g.0 { (1u8, zw, g.1, g.2, 0usize) } else { (0u8, zw, 0u8, 0u8, 0usize) }));
            }
        }
        let mut k: usize = 1;
        while k < len
            invariant
                self.wf(),
                n == self.spec_n(),
                len == self.spec_stride(),
                cube@.len() == len,
                1 <= k <= len,
                slice_fault(n, cube@) == first_of(
                    lift(orbit_fault(corner_of(cube@[0]), 8, 3, 3, 3, 8, 0), corner_of(cube@[0]), 3),
                    first_of(
                        if is_odd(n) {
                            first_of(
                                lift(orbit_fault(edge_of(cube@[0]), 12, 4, 1, 2, 12, 0), edge_of(cube@[0]), 2),
                                lift(orbit_fault(center_of(cube@[0]), 6, 5, 0, 0, 6, 0), center_of(cube@[0]), 0),
                            )
                        } else {
                            None
                        },
                        first_of(words_fault(cube@, k as nat), if !ori_balanced::<Corner>(corner_of(cube@[0])) {
                            Some((2u8, corner_of(cube@[0]), 0u8, 0u8, 3usize))
                        } else if !ori_balanced::<Edge>(edge_of(cube@[0])) {
                            Some((3u8, edge_of(cube@[0]), 0u8, 0u8, 2usize))
                        } else {
                            None
                        }),
                    ),
                ),
                lift(orbit_fault(corner_of(cube@[0]), 8, 3, 3, 3, 8, 0), corner_of(cube@[0]), 3) is None,
                is_odd(n) ==> lift(orbit_fault(edge_of(cube@[0]), 12, 4, 1, 2, 12, 0), edge_of(cube@[0]), 2) is None,
                is_odd(n) ==> lift(orbit_fault(center_of(cube@[0]), 6, 5, 0, 0, 6, 0), center_of(cube@[0]), 0) is None,
                forall|q: nat| 1 <= q < k ==> lift(orbit_fault(#[trigger] cube@[q as int], 24, 5, 0, 0, 24, 0), cube@[q as int], 0) is None,
            decreases len - k,
        {
            let w = cube[k];
            let f = check_orbit(w, 24, 5, 0, 0, 24);
            if f.is_some() {
                let g = f.unwrap();
                return Err(slice_error(if g.0 { (1u8, w, g.1, g.2, 0usize) } else { (0u8, w, 0u8, 0u8, 0usize) }));
            }
            k = k + 1;
        }
        assert(words_fault(cube@, k as nat) is None);
        let oc = orientation_check::<Corner>(cw);
        if oc.is_err() {
            return Err(slice_error((2u8, cw, 0u8, 0u8, 3usize)));
        }
        let oe = orientation_check::<Edge>(ew);
        if oe.is_err() {
            return Err(slice_error((3u8, ew, 0u8, 0u8, 2usize)));
        }
        Ok(())
    }
}

} // verus!
