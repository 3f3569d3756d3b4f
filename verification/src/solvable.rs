//! Which packed cubes can be reached from the solved cube by face moves.
//!
//! For even dimensions the conditions are those of Theorem 14, for odd
//! dimensions those of Theorem 20 of Bonzio, Loi and Peruzzi, "The first
//! law of cubology for the Rubik's Revenge" (2017).  With `K` concentric
//! rings, word `1 + (K - k) * (K + 1)` holds the center-corners of ring
//! `k`, words `1 + (K - k) * K + (K - x)` and `1 + (K - x) * K + (K - k)`
//! hold center-edges, words `1 + K * K ..` the coupled edges and, for odd
//! dimensions, words `1 + K * K + K ..` the center-edge wings.
use vstd::prelude::*;

use crate::arena::{center_of, corner_of, edge_of, is_odd, k_max, CubeArena};
use crate::cycles::count_leaders;
use crate::error::CubeError;
use crate::kinds::{Center, Corner, Edge, Piece24};
use crate::laws::{lemma_valid_perms, valid_cube};
use crate::ops::{
    edge_check, get_center, get_corner, get_edge, ori_balanced, orientation_check,
    pairs_assembled, unpack_seq, unpack_u128,
};
use crate::walks::parity;

verus! {

/// The permutation packed in the first `l` fields of `w` (fields masked by
/// `pm`) is odd.
pub open spec fn odd_perm(w: u128, pm: u128, l: nat) -> bool {
    (l - count_leaders(w, pm, l)) % 2 == 1
}

/// The corner permutation of a cube is odd.
pub open spec fn sigma_odd(c: Seq<u128>) -> bool {
    odd_perm(corner_of(c[0]), 7, 8)
}

/// The 24-piece orbit word `w` packs an odd permutation.
pub open spec fn odd24(w: u128) -> bool {
    odd_perm(w, 31, 24)
}

/// The word of the center-corners of ring `kk`.
pub open spec fn cc_index(kk: nat, k: nat) -> int {
    1 + (k - kk) * (k + 1)
}

/// The parity of the center-edge groups of ring `kk` with offsets below `x`.
pub open spec fn rho_upto(c: Seq<u128>, k: nat, kk: nat, x: nat) -> bool
    decreases x,
{
    if x <= 1 {
        false
    } else {
        let y = (x - 1) as nat;
        rho_upto(c, k, kk, y) ^ odd24(c[1 + (k - kk) * k + (k - y)]) ^ odd24(
            c[1 + (k - y) * k + (k - kk)],
        )
    }
}

/// A failed condition: whether it is an orientation failure, the kind of
/// the orbit (0 corners, 1 edges, 2 centers, 3 a 24-piece orbit), the word
/// of the orbit and the modulus reported.
pub type Fault = (bool, u8, u128, usize);

/// The (perm, ori) pairs of a word of the given kind.
pub open spec fn unpack_kind(kind: u8, w: u128) -> Seq<(u8, u8)> {
    if kind == 0 {
        unpack_seq::<Corner>(w)
    } else if kind == 1 {
        unpack_seq::<Edge>(w)
    } else if kind == 2 {
        unpack_seq::<Center>(w)
    } else {
        unpack_seq::<Piece24>(w)
    }
}

/// The error that reports `f`.
pub open spec fn reports(e: CubeError, f: Fault) -> bool {
    if f.0 {
        e matches CubeError::InvalidOrientation { got, mod_ } && got@ == unpack_kind(f.1, f.2)
            && mod_ == f.3
    } else {
        e matches CubeError::InvalidPermutation { got } && got@ == unpack_kind(f.1, f.2)
    }
}

/// The first ring `kk.. ` whose center-corners have a parity other than
/// that of the corners.
pub open spec fn cc_fault(c: Seq<u128>, k: nat, kk: nat) -> Option<Fault>
    decreases k + 1 - kk,
{
    if kk == 0 || kk > k {
        None
    } else if odd24(c[cc_index(kk, k)]) != sigma_odd(c) {
        Some((false, 3u8, c[cc_index(kk, k)], 0usize))
    } else {
        cc_fault(c, k, kk + 1)
    }
}

/// The first coupled-edge word from `e` on whose pairs are not assembled.
pub open spec fn pair_fault(c: Seq<u128>, e: nat, end: nat) -> Option<Fault>
    decreases end - e,
{
    if e >= end {
        None
    } else if !pairs_assembled::<Piece24>(c[e as int]) {
        Some((true, 3u8, c[e as int], 1usize))
    } else {
        pair_fault(c, e + 1, end)
    }
}

/// Even dimensions: the first ring from `kk` on whose center-edges form an
/// odd permutation.
pub open spec fn rho_fault(c: Seq<u128>, k: nat, kk: nat) -> Option<Fault>
    decreases k + 1 - kk,
{
    if kk == 0 || kk > k {
        None
    } else if rho_upto(c, k, kk, kk) {
        Some((false, 3u8, c[1], 0usize))
    } else {
        rho_fault(c, k, kk + 1)
    }
}

/// Odd dimensions: the first ring from `kk` on whose coupled edges do not
/// have the parity of the corners times that of its center-edges.
pub open spec fn tau_fault(c: Seq<u128>, k: nat, kk: nat) -> Option<Fault>
    decreases k + 1 - kk,
{
    if kk == 0 || kk > k {
        None
    } else if odd24(c[1 + k * k + k - kk]) != (sigma_odd(c) ^ (rho_upto(c, k, kk, kk) ^ odd24(
        c[1 + k * k + k + kk - 1],
    ))) {
        Some((false, 3u8, c[1 + k * k + k - kk], 0usize))
    } else {
        tau_fault(c, k, kk + 1)
    }
}

/// The first `Some` of two.
pub open spec fn first(a: Option<Fault>, b: Option<Fault>) -> Option<Fault> {
    if a is Some {
        a
    } else {
        b
    }
}

/// The first condition of solvability that the valid cube `c` of
/// dimension `n` fails, in the order in which they are checked, or `None`
/// when the cube is solvable.
pub open spec fn solvable_fault(n: nat, c: Seq<u128>) -> Option<Fault> {
    let k = k_max(n);
    let cw = corner_of(c[0]);
    let ew = edge_of(c[0]);
    let zw = center_of(c[0]);
    let corner_ori = if ori_balanced::<Corner>(cw) {
        None
    } else {
        Some((true, 0u8, cw, 3usize))
    };
    if !is_odd(n) {
        first(
            cc_fault(c, k, 1),
            first(corner_ori, first(pair_fault(c, 1 + k * k, 1 + k * k + k), rho_fault(c, k, 2))),
        )
    } else {
        let edge_perm = if sigma_odd(c) != odd_perm(ew, 15, 12) {
            Some((false, 1u8, ew, 0usize))
        } else {
            None
        };
        let center_perm = if odd_perm(zw, 31, 6) {
            Some((false, 2u8, zw, 0usize))
        } else {
            None
        };
        let edge_ori = if ori_balanced::<Edge>(ew) {
            None
        } else {
            Some((true, 1u8, ew, 2usize))
        };
        first(
            edge_perm,
            first(
                cc_fault(c, k, 1),
                first(
                    center_perm,
                    first(
                        tau_fault(c, k, 1),
                        first(
                            corner_ori,
                            first(edge_ori, pair_fault(c, 1 + k * k, 1 + k * k + k)),
                        ),
                    ),
                ),
            ),
        )
    }
}

/// No ring from `kk` on has center-corners of another parity than the
/// corners.
proof fn lemma_cc_holds(c: Seq<u128>, k: nat, kk: nat)
    requires
        kk >= 1,
        cc_fault(c, k, kk) is None,
    ensures
        forall|j: nat| kk <= j <= k ==> #[trigger] odd24(c[1 + (k - j) * (k + 1)]) == odd_perm(corner_of(c[0]), 7, 8),
    decreases k + 1 - kk,
{
    if kk <= k {
        lemma_cc_holds(c, k, kk + 1);
    }
}

/// Every coupled-edge word from `e` on has its pairs assembled.
proof fn lemma_pairs_hold(c: Seq<u128>, e: nat, end: nat)
    requires
        pair_fault(c, e, end) is None,
    ensures
        forall|m: int| e <= m < end ==> pairs_assembled::<Piece24>(#[trigger] c[m]),
    decreases end - e,
{
    if e < end {
        lemma_pairs_hold(c, e + 1, end);
    }
}

/// No ring from `kk` on has center-edges forming an odd permutation.
proof fn lemma_rho_holds(c: Seq<u128>, k: nat, kk: nat)
    requires
        kk >= 1,
        rho_fault(c, k, kk) is None,
    ensures
        forall|j: nat| kk <= j <= k ==> !#[trigger] rho_upto(c, k, j, j),
    decreases k + 1 - kk,
{
    if kk <= k {
        lemma_rho_holds(c, k, kk + 1);
    }
}

/// Every ring from `kk` on has coupled edges of the parity of the corners
/// times that of its center-edges and wings.
proof fn lemma_tau_holds(c: Seq<u128>, k: nat, kk: nat)
    requires
        kk >= 1,
        tau_fault(c, k, kk) is None,
    ensures
        forall|j: nat| kk <= j <= k ==> odd24(c[1 + k * k + k - j]) == (odd_perm(corner_of(c[0]), 7, 8) ^ (
            #[trigger] rho_upto(c, k, j, j) ^ odd24(c[1 + k * k + k + j - 1]))),
    decreases k + 1 - kk,
{
    if kk <= k {
        lemma_tau_holds(c, k, kk + 1);
    }
}

/// The ring conditions of a solvable cube: for even dimensions the
/// center-edges of every ring form an even permutation; for odd dimensions
/// the coupled edges of every ring have the parity of the corners times
/// that of the ring's center-edges and wings.
pub proof fn law_solvable_rings(n: nat, c: Seq<u128>)
    ensures
        solvable_fault(n, c) is None ==> {
            let k = k_max(n);
            &&& !is_odd(n) ==> forall|j: nat| 1 <= j <= k ==> !#[trigger] rho_upto(c, k, j, j)
            &&& is_odd(n) ==> forall|j: nat|
                1 <= j <= k ==> odd24(c[1 + k * k + k - j]) == (odd_perm(corner_of(c[0]), 7, 8) ^ (
                    #[trigger] rho_upto(c, k, j, j) ^ odd24(c[1 + k * k + k + j - 1])))
        },
{
    let k = k_max(n);
    if solvable_fault(n, c) is None {
        if is_odd(n) {
            lemma_tau_holds(c, k, 1);
        } else {
            lemma_rho_holds(c, k, 2);
            assert(!rho_upto(c, k, 1, 1));
        }
    }
}

/// What a solvable cube satisfies: its corner orientations add up to a
/// multiple of 3; the center-corners of every ring have the parity of the
/// corners; every coupled-edge word holds its pairs together; and for odd
/// dimensions the single-edge orientations add up to a multiple of 2, the
/// single edges have the parity of the corners and the fixed centers are an
/// even permutation.
pub proof fn law_solvable_conditions(n: nat, c: Seq<u128>)
    ensures
        solvable_fault(n, c) is None ==> {
            let k = k_max(n);
            &&& ori_balanced::<Corner>(corner_of(c[0]))
            &&& forall|j: nat| 1 <= j <= k ==> #[trigger] odd24(c[1 + (k - j) * (k + 1)]) == odd_perm(corner_of(c[0]), 7, 8)
            &&& forall|m: int| 1 + k * k <= m < 1 + k * k + k ==> pairs_assembled::<Piece24>(#[trigger] c[m])
            &&& is_odd(n) ==> ori_balanced::<Edge>(edge_of(c[0]))
            &&& is_odd(n) ==> odd_perm(edge_of(c[0]), 15, 12) == odd_perm(corner_of(c[0]), 7, 8)
            &&& is_odd(n) ==> !odd_perm(center_of(c[0]), 31, 6)
        },
{
    let k = k_max(n);
    if solvable_fault(n, c) is None {
        assert(cc_fault(c, k, 1) is None);
        lemma_cc_holds(c, k, 1);
        assert(pair_fault(c, 1 + k * k, 1 + k * k + k) is None);
        lemma_pairs_hold(c, 1 + k * k, 1 + k * k + k);
    }
}

/// The error that reports a fault on a word of the given kind.
fn fault_error(orientation: bool, kind: u8, w: u128, md: usize) -> (e: CubeError)
    ensures
        reports(e, (orientation, kind, w, md)),
{
    let got = if kind == 0 {
        unpack_u128::<Corner>(w)
    } else if kind == 1 {
        unpack_u128::<Edge>(w)
    } else if kind == 2 {
        unpack_u128::<Center>(w)
    } else {
        unpack_u128::<Piece24>(w)
    };
    if orientation {
        CubeError::InvalidOrientation { got, mod_: md }
    } else {
        CubeError::InvalidPermutation { got }
    }
}


/// The words of a valid cube pack permutations, and its ring words are in range.
proof fn lemma_rings(n: nat, c: Seq<u128>, k: nat)
    requires
        valid_cube(n, c),
        k == k_max(n),
    ensures
        c.len() == k * k + k + k * (n % 2) + 1,
        forall|kk: nat| 1 <= kk <= k ==> 1 <= #[trigger] cc_index(kk, k) < 1 + k * k,
        forall|kk: nat, x: nat|
            1 <= x < kk <= k ==> 1 <= #[trigger] (1 + (k - kk) * k + (k - x)) < 1 + k * k,
        forall|kk: nat, x: nat|
            1 <= x < kk <= k ==> 1 <= #[trigger] (1 + (k - x) * k + (k - kk)) < 1 + k * k,
{
    assert forall|kk: nat| 1 <= kk <= k implies 1 <= #[trigger] cc_index(kk, k) < 1 + k * k by {
        assert((k - kk) * (k + 1) <= (k - 1) * (k + 1)) by (nonlinear_arith)
            requires
                1 <= kk <= k,
        ;
        assert((k - 1) * (k + 1) == k * k - 1) by (nonlinear_arith);
        assert((k - kk) * (k + 1) >= 0) by (nonlinear_arith)
            requires
                kk <= k,
        ;
    }
    assert forall|kk: nat, x: nat| 1 <= x < kk <= k implies 1 <= #[trigger] (1 + (k - kk) * k + (k
        - x)) < 1 + k * k by {
        assert((k - kk) * k <= (k - 2) * k) by (nonlinear_arith)
            requires
                2 <= kk <= k,
        ;
        assert((k - 2) * k + k - 1 < k * k) by (nonlinear_arith)
            requires
                k >= 2,
        ;
        assert((k - kk) * k >= 0) by (nonlinear_arith)
            requires
                kk <= k,
        ;
    }
    assert forall|kk: nat, x: nat| 1 <= x < kk <= k implies 1 <= #[trigger] (1 + (k - x) * k + (k
        - kk)) < 1 + k * k by {
        assert((k - x) * k <= (k - 1) * k) by (nonlinear_arith)
            requires
                1 <= x <= k,
        ;
        assert((k - 1) * k + k - 2 < k * k) by (nonlinear_arith)
            requires
                k >= 2,
        ;
        assert((k - x) * k >= 0) by (nonlinear_arith)
            requires
                x <= k,
        ;
    }
}

/// The first ring whose center-corners have a parity other than that of the corners.
fn cc_check(c: &[u128], n: Ghost<nat>, k: usize, sigma: bool) -> (r: Option<Fault>)
    requires
        k <= 127,
        valid_cube(n@, c@),
        k == k_max(n@),
        sigma == sigma_odd(c@),
    ensures
        r == cc_fault(c@, k as nat, 1),
{
    proof {
        lemma_rings(n@, c@, k as nat);
        lemma_valid_perms(n@, c@);
    }
    let mut kk: usize = 1;
    while kk <= k
        invariant
            valid_cube(n@, c@),
            k == k_max(n@),
            sigma == sigma_odd(c@),
            k <= 127,
            1 <= kk <= k + 1,
            c@.len() == k * k + k + k * (n@ % 2) + 1,
            forall|q: nat| 1 <= q <= k ==> 1 <= #[trigger] cc_index(q, k as nat) < 1 + k * k,
            cc_fault(c@, k as nat, 1) == cc_fault(c@, k as nat, kk as nat),
        decreases k + 1 - kk,
    {
        assert(1 <= cc_index(kk as nat, k as nat) < 1 + k * k);
        assert((k - kk) * (k + 1) <= 127 * 128) by (nonlinear_arith)
            requires
                kk <= k <= 127,
        ;
        let idx = 1 + (k - kk) * (k + 1);
        assert(idx == cc_index(kk as nat, k as nat));
        proof {
            lemma_valid_perms(n@, c@);
        }
        if parity::<Piece24>(c[idx]) != sigma {
            return Some((false, 3u8, c[idx], 0usize));
        }
        kk = kk + 1;
    }
    None
}

/// The first coupled-edge word in `start .. end` whose pairs are not assembled.
fn pair_check(c: &[u128], start: usize, end: usize) -> (r: Option<Fault>)
    requires
        start <= end <= c@.len(),
    ensures
        r == pair_fault(c@, start as nat, end as nat),
{
    let mut e = start;
    while e < end
        invariant
            start <= e <= end <= c@.len(),
            pair_fault(c@, start as nat, end as nat) == pair_fault(c@, e as nat, end as nat),
        decreases end - e,
    {
        if !edge_check::<Piece24>(c[e]) {
            return Some((true, 3u8, c[e], 1usize));
        }
        e = e + 1;
    }
    None
}

/// The parity of the center-edge groups of ring `kk`.
fn rho(c: &[u128], n: Ghost<nat>, k: usize, kk: usize) -> (r: bool)
    requires
        k <= 127,
        valid_cube(n@, c@),
        k == k_max(n@),
        1 <= kk <= k,
    ensures
        r == rho_upto(c@, k as nat, kk as nat, kk as nat),
{
    proof {
        lemma_rings(n@, c@, k as nat);
    }
    let mut acc = false;
    let mut x: usize = 1;
    while x < kk
        invariant
            valid_cube(n@, c@),
            k == k_max(n@),
            1 <= kk <= k,
            k <= 127,
            1 <= x <= kk,
            c@.len() == k * k + k + k * (n@ % 2) + 1,
            forall|q: nat, y: nat|
                1 <= y < q <= k ==> 1 <= #[trigger] (1 + (k - q) * k + (k - y)) < 1 + k * k,
            forall|q: nat, y: nat|
                1 <= y < q <= k ==> 1 <= #[trigger] (1 + (k - y) * k + (k - q)) < 1 + k * k,
            acc == rho_upto(c@, k as nat, kk as nat, x as nat),
        decreases kk - x,
    {
        assert(1 <= (1 + (k - kk) * k + (k - x)) < 1 + k * k);
        assert(1 <= (1 + (k - x) * k + (k - kk)) < 1 + k * k);
        assert((k - kk) * k <= 127 * 127 && (k - x) * k <= 127 * 127) by (nonlinear_arith)
            requires
                x <= k,
                kk <= k <= 127,
        ;
        let ia = 1 + (k - kk) * k + (k - x);
        let ib = 1 + (k - x) * k + (k - kk);
        proof {
            lemma_valid_perms(n@, c@);
        }
        let pa = parity::<Piece24>(c[ia]);
        let pb = parity::<Piece24>(c[ib]);
        acc = acc ^ pa ^ pb;
        x = x + 1;
    }
    acc
}

/// Even dimensions: the first ring from 2 on whose center-edges form an odd permutation.
fn rho_check(c: &[u128], n: Ghost<nat>, k: usize) -> (r: Option<Fault>)
    requires
        k <= 127,
        valid_cube(n@, c@),
        k == k_max(n@),
    ensures
        r == rho_fault(c@, k as nat, 2),
{
    let mut kk: usize = 2;
    while kk <= k
        invariant
            valid_cube(n@, c@),
            k == k_max(n@),
            k <= 127,
            2 <= kk <= k + 2,
            kk > k + 1 ==> k == 0,
            rho_fault(c@, k as nat, 2) == rho_fault(c@, k as nat, kk as nat),
        decreases k + 2 - kk,
    {
        if rho(c, n, k, kk) {
            proof {
                lemma_rings(n@, c@, k as nat);
            }
            return Some((false, 3u8, c[1], 0usize));
        }
        kk = kk + 1;
    }
    None
}

/// Odd dimensions: the first ring whose coupled edges do not have the
/// parity of the corners times that of its center-edges and wings.
fn tau_check(c: &[u128], n: Ghost<nat>, k: usize, sigma: bool) -> (r: Option<Fault>)
    requires
        k <= 127,
        valid_cube(n@, c@),
        is_odd(n@),
        k == k_max(n@),
        sigma == sigma_odd(c@),
    ensures
        r == tau_fault(c@, k as nat, 1),
{
    proof {
        lemma_rings(n@, c@, k as nat);
    }
    let mut kk: usize = 1;
    while kk <= k
        invariant
            valid_cube(n@, c@),
            is_odd(n@),
            k == k_max(n@),
            sigma == sigma_odd(c@),
            k <= 127,
            1 <= kk <= k + 1,
            c@.len() == k * k + k + k + 1,
            tau_fault(c@, k as nat, 1) == tau_fault(c@, k as nat, kk as nat),
        decreases k + 1 - kk,
    {
        let r = rho(c, n, k, kk);
        assert(k * k <= 127 * 127) by (nonlinear_arith)
            requires
                k <= 127,
        ;
        let it = 1 + k * k + k - kk;
        let iw = 1 + k * k + k + kk - 1;
        proof {
            lemma_valid_perms(n@, c@);
        }
        let pt = parity::<Piece24>(c[it]);
        let pw = parity::<Piece24>(c[iw]);
        if pt != (sigma ^ (r ^ pw)) {
            return Some((false, 3u8, c[it], 0usize));
        }
        kk = kk + 1;
    }
    None
}

impl CubeArena {
    /// Whether the packed valid cube `cube` can be reached from the solved
    /// cube by face moves (Theorem 14 for even, Theorem 20 for odd
    /// dimensions); otherwise the first condition it fails, reported as
    /// `InvalidPermutation` or `InvalidOrientation` with the offending orbit.
    pub fn is_solvable_slice(&self, cube: &[u128]) -> (r: Result<(), CubeError>)
        requires
            self.wf(),
            valid_cube(self.spec_n(), cube@),
        ensures
            r is Ok <==> solvable_fault(self.spec_n(), cube@) is None,
            r matches Err(e) ==> solvable_fault(self.spec_n(), cube@) matches Some(f) && reports(e, f),
    {
        proof {
            self.lemma_wf();
        }
        let ghost gn = self.spec_n();
        let n = self.n() as usize;
        let k = (n - 2 - n % 2) / 2;
        assert(k == k_max(gn));
        assert(k * k <= 127 * 127) by (nonlinear_arith)
            requires
                k <= 127,
        ;
        proof {
            lemma_rings(gn, cube@, k as nat);
            lemma_valid_perms(gn, cube@);
        }
        let w0 = cube[0];
        let cw = get_corner(w0) as u128;
        let sigma = parity::<Corner>(cw);
        let corner_ori: Option<Fault> = if orientation_check::<Corner>(cw).is_ok() {
            None
        } else {
            Some((true, 0u8, cw, 3usize))
        };
        let fault: Option<Fault> = if n % 2 == 0 {
            let f = cc_check(cube, Ghost(gn), k, sigma);
            if f.is_some() {
                f
            } else if corner_ori.is_some() {
                corner_ori
            } else {
                let g = pair_check(cube, 1 + k * k, 1 + k * k + k);
                if g.is_some() {
                    g
                } else {
                    rho_check(cube, Ghost(gn), k)
                }
            }
        } else {
            let ew = get_edge(w0) as u128;
            let zw = get_center(w0);
            if sigma != parity::<Edge>(ew) {
                Some((false, 1u8, ew, 0usize))
            } else {
                let f = cc_check(cube, Ghost(gn), k, sigma);
                if f.is_some() {
                    f
                } else if parity::<Center>(zw) {
                    Some((false, 2u8, zw, 0usize))
                } else {
                    let t = tau_check(cube, Ghost(gn), k, sigma);
                    if t.is_some() {
                        t
                    } else if corner_ori.is_some() {
                        corner_ori
                    } else if orientation_check::<Edge>(ew).is_err() {
                        Some((true, 1u8, ew, 2usize))
                    } else {
                        pair_check(cube, 1 + k * k, 1 + k * k + k)
                    }
                }
            }
        };
        assert(fault == solvable_fault(gn, cube@));
        match fault {
            None => Ok(()),
            Some(f) => Err(fault_error(f.0, f.1, f.2, f.3)),
        }
    }

    /// Whether the cube at `index` can be reached from the solved cube; see
    /// [`CubeArena::is_solvable_slice`].
    pub fn is_solvable(&self, index: usize) -> (r: Result<(), CubeError>)
        requires
            self.wf(),
            index < self.spec_len(),
            valid_cube(self.spec_n(), self.cube(index as int)),
        ensures
            r is Ok <==> solvable_fault(self.spec_n(), self.cube(index as int)) is None,
            r matches Err(e) ==> solvable_fault(self.spec_n(), self.cube(index as int)) matches Some(
                f,
            ) && reports(e, f),
    {
        self.is_solvable_slice(self.get_cube(index))
    }
}

} // verus!
