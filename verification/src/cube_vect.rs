//! The geometric model of the cube: every cubie as a point in space.
use vstd::prelude::*;

use crate::cube_moves::{trunc_rem, Axis, Face, LayerSpec, Move, MoveKind};
use crate::error::CubeError;

verus! {

/// A point with small integer coordinates, centred on the cube's centre.
#[derive(Debug, Clone, Copy, PartialEq, Eq, Structural)]
pub struct Point3 {
    pub x: i8,
    pub y: i8,
    pub z: i8,
}


impl Point3 {
    /// The point `(x, y, z)`.
    pub fn new(x: i8, y: i8, z: i8) -> (r: Self)
        ensures
            r == (Point3 { x, y, z }),
    {
        Point3 { x, y, z }
    }

    /// A key of the point for a cube of dimension `n`: the coordinates
    /// shifted by `n`, one byte each.
    pub fn hash(&self, n: u8) -> (r: usize)
        requires
            self.x + n >= 0,
            self.y + n >= 0,
            self.z + n >= 0,
        ensures
            r == (self.x + n) + 256 * (self.y + n) + 65536 * (self.z + n),
    {
        let x = (self.x as i16 + n as i16) as usize;
        let y = (self.y as i16 + n as i16) as usize;
        let z = (self.z as i16 + n as i16) as usize;
        assert(y << 8usize == y * 256 && z << 16usize == z * 65536) by (bit_vector)
            requires
                y < 512,
                z < 512,
        ;
        x + (y << 8usize) + (z << 16usize)
    }

    /// Coordinate `index`: 0 is `x`, 1 is `y`, 2 is `z`.
    pub fn get(&self, index: usize) -> (r: i8)
        requires
            index < 3,
        ensures
            r == coord(*self, index as int),
    {
        if index == 0 {
            self.x
        } else if index == 1 {
            self.y
        } else {
            self.z
        }
    }

    /// Sets coordinate `index` (0 is `x`, 1 is `y`, 2 is `z`) to `value`.
    pub fn set(&mut self, index: usize, value: i8)
        requires
            index < 3,
        ensures
            *final(self) == with_coord(*old(self), index as int, value),
    {
        if index == 0 {
            self.x = value;
        } else if index == 1 {
            self.y = value;
        } else {
            self.z = value;
        }
    }
}

/// Coordinate `i` of `p`: 0 is `x`, 1 is `y`, 2 is `z`.
pub open spec fn coord(p: Point3, i: int) -> i8 {
    if i == 0 {
        p.x
    } else if i == 1 {
        p.y
    } else {
        p.z
    }
}

/// `p` with coordinate `i` replaced by `v`.
pub open spec fn with_coord(p: Point3, i: int, v: i8) -> Point3 {
    if i == 0 {
        Point3 { x: v, ..p }
    } else if i == 1 {
        Point3 { y: v, ..p }
    } else {
        Point3 { z: v, ..p }
    }
}

/// The point with integer coordinates `(x, y, z)`.
pub open spec fn pt(x: int, y: int, z: int) -> Point3 {
    Point3 { x: x as i8, y: y as i8, z: z as i8 }
}

/// Four points of an orbit, turned a quarter about the `y` axis each.
pub open spec fn pattern4(a: int, b: int, c: int) -> Seq<Point3> {
    seq![pt(-a, b, -c), pt(-c, b, a), pt(a, b, c), pt(c, b, -a)]
}

/// Eight points of an orbit: four quarter turns about the `y` axis of two
/// mirrored points.
pub open spec fn pattern8(a: int, b: int, c: int) -> Seq<Point3> {
    seq![
        pt(-a, b, -c),
        pt(-c, b, -a),
        pt(-c, b, a),
        pt(-a, b, c),
        pt(a, b, c),
        pt(c, b, a),
        pt(c, b, -a),
        pt(a, b, -c),
    ]
}

/// The home points of group `idx` of orbit kind `kind` for a cube of
/// dimension `n` with half width `h = n / 2`: corners (0), single edges (1),
/// fixed centers (2), center pieces (3), coupled edges (4) and
/// center-edge wings (5).
pub open spec fn orbit_points(kind: nat, n: nat, idx: nat) -> Seq<Point3> {
    let h = (n / 2) as int;
    if kind == 0 {
        pattern4(h, -h, h) + pattern4(h, h, h)
    } else if kind == 1 {
        pattern4(0, -h, h) + pattern4(h, 0, h) + pattern4(0, h, h)
    } else if kind == 2 {
        seq![pt(0, -h, 0), pt(0, 0, -h), pt(-h, 0, 0), pt(0, 0, h), pt(h, 0, 0), pt(0, h, 0)]
    } else if kind == 3 {
        let t = h - 1;
        let x = h - (idx as int) % t - 1;
        let z = h - 1 - (idx as int) / t;
        pattern4(x, -h, z) + (if z == x {
            pattern8(z, -z, h) + pattern8(z, z, h)
        } else if z > x {
            pattern4(h, -z, x) + pattern4(z, -x, h) + pattern4(h, x, z) + pattern4(x, z, h)
        } else {
            pattern4(z, -x, h) + pattern4(h, -z, x) + pattern4(x, z, h) + pattern4(h, x, z)
        }) + pattern4(x, h, z)
    } else if kind == 4 {
        let ni = h - 1 - idx as int;
        pattern8(ni, -h, h) + pattern4(h, -ni, h) + pattern4(h, ni, h) + pattern8(ni, h, h)
    } else {
        let a = idx as int + 1;
        pattern4(0, h, a) + pattern4(0, -h, a) + pattern4(h, a, 0) + pattern4(h, -a, 0) + pattern4(
            h,
            0,
            a,
        ) + pattern4(h, 0, -a)
    }
}

fn push4(v: &mut Vec<Point3>, a: i8, b: i8, c: i8)
    requires
        -127 <= a <= 127,
        -127 <= b <= 127,
        -127 <= c <= 127,
    ensures
        final(v)@ == old(v)@ + pattern4(a as int, b as int, c as int),
        coords_ok(old(v)@) ==> coords_ok(final(v)@),
{
    v.push(Point3 { x: -a, y: b, z: -c });
    v.push(Point3 { x: -c, y: b, z: a });
    v.push(Point3 { x: a, y: b, z: c });
    v.push(Point3 { x: c, y: b, z: -a });
    assert(v@ =~= old(v)@ + pattern4(a as int, b as int, c as int));
}

fn push8(v: &mut Vec<Point3>, a: i8, b: i8, c: i8)
    requires
        -127 <= a <= 127,
        -127 <= b <= 127,
        -127 <= c <= 127,
    ensures
        final(v)@ == old(v)@ + pattern8(a as int, b as int, c as int),
        coords_ok(old(v)@) ==> coords_ok(final(v)@),
{
    v.push(Point3 { x: -a, y: b, z: -c });
    v.push(Point3 { x: -c, y: b, z: -a });
    v.push(Point3 { x: -c, y: b, z: a });
    v.push(Point3 { x: -a, y: b, z: c });
    v.push(Point3 { x: a, y: b, z: c });
    v.push(Point3 { x: c, y: b, z: a });
    v.push(Point3 { x: c, y: b, z: -a });
    v.push(Point3 { x: a, y: b, z: -c });
    assert(v@ =~= old(v)@ + pattern8(a as int, b as int, c as int));
}

/// The number of groups of orbit kind `kind` for dimension `n`.
pub open spec fn kind_groups(kind: nat, n: nat) -> nat {
    let odd = n % 2;
    let k = ((n - 2 - odd) / 2) as nat;
    if kind == 0 {
        1
    } else if kind == 1 || kind == 2 {
        odd
    } else if kind == 3 {
        k * k
    } else if kind == 4 {
        k
    } else {
        k * odd
    }
}

/// The number of pieces in a group of orbit kind `kind`.
pub open spec fn kind_len(kind: nat) -> nat {
    if kind == 0 {
        8
    } else if kind == 1 {
        12
    } else if kind == 2 {
        6
    } else {
        24
    }
}

/// Appends the home points of a center-piece group (orbit kind 3).
#[verifier::spinoff_prover]
#[verifier::rlimit(40)]
fn push_ring(v: &mut Vec<Point3>, n: usize, idx: usize)
    requires
        2 <= n < 128,
        idx < kind_groups(3, n as nat),
    ensures
        final(v)@ == old(v)@ + orbit_points(3, n as nat, idx as nat),
        coords_ok(old(v)@) ==> coords_ok(final(v)@),
{
    let h: i8 = (n / 2) as i8;
    let ghost start = v@;
    let ghost k = ((n - 2 - n % 2) / 2) as nat;
    assert(k == (h - 1) as nat);
    assert(idx < k * k);
    assert(k >= 1) by (nonlinear_arith)
        requires
            idx < k * k,
    ;
    let t = (h - 1) as usize;
    assert(t as int == k);
    assert(idx / t < t) by {
        vstd::arithmetic::div_mod::lemma_multiply_divide_lt(idx as int, t as int, t as int);
    }
    let x: i8 = h - (idx % t) as i8 - 1;
    let z: i8 = h - 1 - (idx / t) as i8;
    push4(v, x, -h, z);
    if z == x {
        push8(v, z, -z, h);
        push8(v, z, z, h);
    } else if z > x {
        push4(v, h, -z, x);
        push4(v, z, -x, h);
        push4(v, h, x, z);
        push4(v, x, z, h);
    } else {
        push4(v, z, -x, h);
        push4(v, h, -z, x);
        push4(v, x, z, h);
        push4(v, h, x, z);
    }
    push4(v, x, h, z);
    assert(v@ =~= start + orbit_points(3, n as nat, idx as nat));
}

/// Appends the home points of a coupled-edge group (orbit kind 4).
fn push_coupled(v: &mut Vec<Point3>, n: usize, idx: usize)
    requires
        2 <= n < 128,
        idx < kind_groups(4, n as nat),
    ensures
        final(v)@ == old(v)@ + orbit_points(4, n as nat, idx as nat),
        coords_ok(old(v)@) ==> coords_ok(final(v)@),
{
    let h: i8 = (n / 2) as i8;
    let ghost start = v@;
    let ni: i8 = h - 1 - idx as i8;
    push8(v, ni, -h, h);
    push4(v, h, -ni, h);
    push4(v, h, ni, h);
    push8(v, ni, h, h);
    assert(v@ =~= start + orbit_points(4, n as nat, idx as nat));
}

/// Appends the home points of a center-edge wing group (orbit kind 5).
fn push_wing(v: &mut Vec<Point3>, n: usize, idx: usize)
    requires
        2 <= n < 128,
        idx < kind_groups(5, n as nat),
    ensures
        final(v)@ == old(v)@ + orbit_points(5, n as nat, idx as nat),
        coords_ok(old(v)@) ==> coords_ok(final(v)@),
{
    let h: i8 = (n / 2) as i8;
    let ghost start = v@;
    let ghost k = ((n - 2 - n % 2) / 2) as nat;
    assert(idx < k) by (nonlinear_arith)
        requires
            idx < k * ((n as nat) % 2),
            (n as nat) % 2 <= 1,
    ;
    let a: i8 = idx as i8 + 1;
    push4(v, 0, h, a);
    push4(v, 0, -h, a);
    push4(v, h, a, 0);
    push4(v, h, -a, 0);
    push4(v, h, 0, a);
    push4(v, h, 0, -a);
    assert(v@ =~= start + orbit_points(5, n as nat, idx as nat));
}

/// Appends the home points of the corners, single edges or fixed centers.
fn push_small(v: &mut Vec<Point3>, kind: usize, n: usize)
    requires
        kind < 3,
        2 <= n < 128,
    ensures
        final(v)@ == old(v)@ + orbit_points(kind as nat, n as nat, 0),
        coords_ok(old(v)@) ==> coords_ok(final(v)@),
{
    let h: i8 = (n / 2) as i8;
    let ghost start = v@;
    if kind == 0 {
        push4(v, h, -h, h);
        push4(v, h, h, h);
        assert(v@ =~= start + orbit_points(0, n as nat, 0));
    } else if kind == 1 {
        push4(v, 0, -h, h);
        push4(v, h, 0, h);
        push4(v, 0, h, h);
        assert(v@ =~= start + orbit_points(1, n as nat, 0));
    } else {
        v.push(Point3 { x: 0, y: -h, z: 0 });
        v.push(Point3 { x: 0, y: 0, z: -h });
        v.push(Point3 { x: -h, y: 0, z: 0 });
        v.push(Point3 { x: 0, y: 0, z: h });
        v.push(Point3 { x: h, y: 0, z: 0 });
        v.push(Point3 { x: 0, y: h, z: 0 });
        assert(v@ =~= start + orbit_points(2, n as nat, 0));
        assert(coords_ok(start) ==> coords_ok(v@)) by {
            if coords_ok(start) {
                assert forall|i: int| 0 <= i < v@.len() implies -127 <= (#[trigger] v@[i]).x <= 127 && -127 <= v@[i].y <= 127 && -127 <= v@[i].z <= 127 by {
                    if i < start.len() {
                        assert(v@[i] == start[i]);
                    }
                }
            }
        }
    }
}

/// Appends the home points of group `idx` of orbit kind `kind`.
pub(crate) fn push_orbit(v: &mut Vec<Point3>, kind: usize, n: usize, idx: usize)
    requires
        kind < 6,
        2 <= n < 128,
        idx < kind_groups(kind as nat, n as nat),
    ensures
        final(v)@ == old(v)@ + orbit_points(kind as nat, n as nat, idx as nat),
        coords_ok(old(v)@) ==> coords_ok(final(v)@),
{
    if kind < 3 {
        push_small(v, kind, n);
    } else if kind == 3 {
        push_ring(v, n, idx);
    } else if kind == 4 {
        push_coupled(v, n, idx);
    } else {
        push_wing(v, n, idx);
    }
}

/// The home points of groups `0 .. g` of orbit kind `kind`.
pub open spec fn kind_points(kind: nat, n: nat, g: nat) -> Seq<Point3>
    decreases g,
{
    if g == 0 {
        Seq::empty()
    } else {
        kind_points(kind, n, (g - 1) as nat) + orbit_points(kind, n, (g - 1) as nat)
    }
}

/// The home points of the orbit kinds `0 .. m`, kind after kind.
pub open spec fn home_points_upto(n: nat, m: nat) -> Seq<Point3>
    decreases m,
{
    if m == 0 {
        Seq::empty()
    } else {
        home_points_upto(n, (m - 1) as nat) + kind_points((m - 1) as nat, n, kind_groups((m - 1) as nat, n))
    }
}

/// The home points of every cubie of the solved cube of dimension `n`.
pub open spec fn home_points(n: nat) -> Seq<Point3> {
    home_points_upto(n, 6)
}

/// The home orientation vectors of the corners and, for odd dimensions,
/// the single edges: the sticker that faces down or up in the solved cube.
pub open spec fn home_ori(n: nat) -> Seq<Point3> {
    let d = pt(0, -1, 0);
    let u = pt(0, 1, 0);
    let corners = seq![d, d, d, d, u, u, u, u];
    if n % 2 == 1 {
        corners + seq![d, d, d, d, pt(-1, 0, 0), pt(-1, 0, 0), pt(1, 0, 0), pt(1, 0, 0), u, u, u, u]
    } else {
        corners
    }
}

/// The first piece of each orbit kind, the length of its groups and the
/// number of its groups.
pub open spec fn orbit_table(n: nat) -> Seq<(usize, usize, usize)> {
    let g = |i: nat| kind_groups(i, n);
    let s1: nat = 8;
    let s2 = s1 + 12 * g(1);
    let s3 = s2 + 6 * g(2);
    let s4 = s3 + 24 * g(3);
    let s5 = s4 + 24 * g(4);
    seq![
        (0usize, 8usize, g(0) as usize),
        (s1 as usize, 12usize, g(1) as usize),
        (s2 as usize, 6usize, g(2) as usize),
        (s3 as usize, 24usize, g(3) as usize),
        (s4 as usize, 24usize, g(4) as usize),
        (s5 as usize, 24usize, g(5) as usize),
    ]
}

/// Every coordinate of the points is in `-127 ..= 127`.
pub open spec fn coords_ok(s: Seq<Point3>) -> bool {
    forall|i: int|
        0 <= i < s.len() ==> -127 <= (#[trigger] s[i]).x <= 127 && -127 <= s[i].y <= 127 && -127
            <= s[i].z <= 127
}

/// The geometric model of a cube: the position of every cubie and the
/// orientation vector of every corner and single edge.
#[derive(Debug, Clone, PartialEq, Eq)]
pub struct CubeVect {
    /// Position of each cubie.
    data: Vec<Point3>,
    /// Orientation vector of each corner and single edge.
    ori: Vec<Point3>,
    /// (first piece, group length, number of groups) of each orbit kind.
    orbit: [(usize, usize, usize); 6],
    /// Dimension of the cube.
    n: u8,
}

/// The number of groups of orbit kind `kind` for dimension `n`.
pub(crate) fn kind_groups_of(kind: usize, n: usize) -> (r: usize)
    requires
        kind < 6,
        2 <= n < 128,
    ensures
        r == kind_groups(kind as nat, n as nat),
        r <= 63 * 63,
{
    let odd = n % 2;
    let k = (n - 2 - odd) / 2;
    assert(k * k <= 63 * 63) by (nonlinear_arith)
        requires
            k <= 63,
    ;
    assert(k * odd <= k) by (nonlinear_arith)
        requires
            odd <= 1,
    ;
    if kind == 0 {
        1
    } else if kind == 1 || kind == 2 {
        odd
    } else if kind == 3 {
        k * k
    } else if kind == 4 {
        k
    } else {
        k * odd
    }
}

impl CubeVect {
    /// The model is consistent: dimension, orbit table and lengths agree, and
    /// every coordinate can be negated.
    pub closed spec fn wf(&self) -> bool {
        &&& 2 <= self.n < 128
        &&& self.data@.len() == home_points(self.n as nat).len()
        &&& self.ori@.len() == home_ori(self.n as nat).len()
        &&& self.orbit@ == orbit_table(self.n as nat)
        &&& coords_ok(self.data@)
        &&& coords_ok(self.ori@)
    }

    /// The position of each cubie.
    pub closed spec fn spec_data(&self) -> Seq<Point3> {
        self.data@
    }

    /// The orientation vector of each corner and single edge.
    pub closed spec fn spec_ori(&self) -> Seq<Point3> {
        self.ori@
    }

    /// The dimension.
    pub closed spec fn spec_n(&self) -> nat {
        self.n as nat
    }

    /// The positions of the cubies.
    pub fn data(&self) -> (r: &[Point3])
        ensures
            r@ == self.spec_data(),
    {
        self.data.as_slice()
    }

    /// The orientation vectors of the corners and single edges.
    pub fn ori(&self) -> (r: &[Point3])
        ensures
            r@ == self.spec_ori(),
    {
        self.ori.as_slice()
    }

    /// The dimension.
    pub(crate) fn dim(&self) -> (r: u8)
        ensures
            r == self.spec_n(),
    {
        self.n
    }

    /// What a consistent model guarantees about its views.
    pub proof fn lemma_wf(&self)
        requires
            self.wf(),
        ensures
            2 <= self.spec_n() < 128,
            self.spec_data().len() == home_points(self.spec_n()).len(),
            self.spec_ori().len() == home_ori(self.spec_n()).len(),
            coords_ok(self.spec_data()),
            coords_ok(self.spec_ori()),
    {
    }

    /// Moves cubie `i` to the point `p`.
    pub(crate) fn set_piece(&mut self, i: usize, p: Point3)
        requires
            old(self).wf(),
            i < old(self).spec_data().len(),
            -127 <= p.x <= 127,
            -127 <= p.y <= 127,
            -127 <= p.z <= 127,
        ensures
            final(self).wf(),
            final(self).spec_n() == old(self).spec_n(),
            final(self).spec_data() == old(self).spec_data().update(i as int, p),
            final(self).spec_ori() == old(self).spec_ori(),
    {
        self.data.set(i, p);
    }

    /// Sets the orientation vector of corner or single edge `i` to `o`.
    pub(crate) fn set_ori(&mut self, i: usize, o: Point3)
        requires
            old(self).wf(),
            i < old(self).spec_ori().len(),
            -127 <= o.x <= 127,
            -127 <= o.y <= 127,
            -127 <= o.z <= 127,
        ensures
            final(self).wf(),
            final(self).spec_n() == old(self).spec_n(),
            final(self).spec_data() == old(self).spec_data(),
            final(self).spec_ori() == old(self).spec_ori().update(i as int, o),
    {
        self.ori.set(i, o);
    }
}

impl CubeVect {
    /// The solved cube of dimension `n`: every cubie at its home point,
    /// every orientation vector pointing down or up as at home.
    pub fn new(n: usize) -> (r: Self)
        requires
            2 <= n < 128,
        ensures
            r.wf(),
            r.spec_n() == n,
            r.spec_data() == home_points(n as nat),
            r.spec_ori() == home_ori(n as nat),
    {
        let mut data: Vec<Point3> = Vec::new();
        let mut kind: usize = 0;
        while kind < 6
            invariant
                2 <= n < 128,
                kind <= 6,
                data@ == home_points_upto(n as nat, kind as nat),
                coords_ok(data@),
            decreases 6 - kind,
        {
            let groups = kind_groups_of(kind, n);
            let mut idx: usize = 0;
            while idx < groups
                invariant
                    2 <= n < 128,
                    kind < 6,
                    groups == kind_groups(kind as nat, n as nat),
                    idx <= groups,
                    data@ == home_points_upto(n as nat, kind as nat) + kind_points(kind as nat, n as nat, idx as nat),
                    coords_ok(data@),
                decreases groups - idx,
            {
                push_orbit(&mut data, kind, n, idx);
                idx = idx + 1;
                proof {
                    assert(data@ =~= home_points_upto(n as nat, kind as nat) + kind_points(kind as nat, n as nat, idx as nat));
                }
            }
            kind = kind + 1;
        }
        let d = Point3 { x: 0, y: -1, z: 0 };
        let u = Point3 { x: 0, y: 1, z: 0 };
        let mut ori: Vec<Point3> = Vec::new();
        ori.push(d);
        ori.push(d);
        ori.push(d);
        ori.push(d);
        ori.push(u);
        ori.push(u);
        ori.push(u);
        ori.push(u);
        if n % 2 == 1 {
            ori.push(d);
            ori.push(d);
            ori.push(d);
            ori.push(d);
            ori.push(Point3 { x: -1, y: 0, z: 0 });
            ori.push(Point3 { x: -1, y: 0, z: 0 });
            ori.push(Point3 { x: 1, y: 0, z: 0 });
            ori.push(Point3 { x: 1, y: 0, z: 0 });
            ori.push(u);
            ori.push(u);
            ori.push(u);
            ori.push(u);
        }
        assert(ori@ =~= home_ori(n as nat));
        let g1 = kind_groups_of(1, n);
        let g2 = kind_groups_of(2, n);
        let g3 = kind_groups_of(3, n);
        let g4 = kind_groups_of(4, n);
        let g5 = kind_groups_of(5, n);
        let s1: usize = 8;
        let s2 = s1 + 12 * g1;
        let s3 = s2 + 6 * g2;
        let s4 = s3 + 24 * g3;
        let s5 = s4 + 24 * g4;
        let orbit = [(0usize, 8usize, 1usize), (s1, 12usize, g1), (s2, 6usize, g2), (s3, 24usize, g3), (s4, 24usize, g4), (s5, 24usize, g5)];
        assert(orbit@ =~= orbit_table(n as nat));
        CubeVect { data, ori, orbit, n: n as u8 }
    }
}


/// Position `i` is among the first `upto` entries of `s`.
pub open spec fn listed(s: Seq<usize>, upto: int, i: int) -> bool {
    exists|q: int| 0 <= q < upto && #[trigger] s[q] as int == i
}

/// The point `p` turned a quarter by the rotation of face `m`
/// (U, F, R, D, B, L).
pub open spec fn rotate(m: int, p: Point3) -> Point3 {
    let (x, y, z) = (p.x as int, p.y as int, p.z as int);
    if m == 0 {
        pt(-z, y, x)
    } else if m == 1 {
        pt(y, -x, z)
    } else if m == 2 {
        pt(x, z, -y)
    } else if m == 3 {
        pt(z, y, -x)
    } else if m == 4 {
        pt(-y, x, z)
    } else {
        pt(x, -z, y)
    }
}

/// The outward unit normal of face `m` (U, F, R, D, B, L): up is `+y`,
/// front `+z`, right `+x`, and the opposite faces the other way.
pub open spec fn face_normal(m: int) -> (int, int, int) {
    if m == 0 {
        (0, 1, 0)
    } else if m == 1 {
        (0, 0, 1)
    } else if m == 2 {
        (1, 0, 0)
    } else if m == 3 {
        (0, -1, 0)
    } else if m == 4 {
        (0, 0, -1)
    } else {
        (-1, 0, 0)
    }
}

/// A quarter turn of a face is clockwise seen from outside the cube: it
/// turns every point by a quarter against the sense of the face's outward
/// normal `u`, sending `p` to `(p . u) u - u x p`; and the normal points
/// to the side where the face's outer layer lies.
pub proof fn law_quarter_turn_clockwise(m: int, p: Point3, n: nat)
    requires
        0 <= m < 6,
        -127 <= p.x <= 127,
        -127 <= p.y <= 127,
        -127 <= p.z <= 127,
    ensures
        ({
            let (a, b, c) = face_normal(m);
            let (x, y, z) = (p.x as int, p.y as int, p.z as int);
            let d = a * x + b * y + c * z;
            &&& rotate(m, p).x == d * a - (b * z - c * y)
            &&& rotate(m, p).y == d * b - (c * x - a * z)
            &&& rotate(m, p).z == d * c - (a * y - b * x)
        }),
        n >= 2 ==> ({
            let (a, b, c) = face_normal(m);
            let h = layer_height(n, m, 0, false);
            &&& face_coord(m) == 0 ==> b == 0 && c == 0 && a * h > 0
            &&& face_coord(m) == 1 ==> a == 0 && c == 0 && b * h > 0
            &&& face_coord(m) == 2 ==> a == 0 && b == 0 && c * h > 0
        }),
{
    let (a, b, c) = face_normal(m);
    let (x, y, z) = (p.x as int, p.y as int, p.z as int);
    lemma_unit_mul(a, x);
    lemma_unit_mul(b, y);
    lemma_unit_mul(c, z);
    lemma_unit_mul(a, y);
    lemma_unit_mul(a, z);
    lemma_unit_mul(b, x);
    lemma_unit_mul(b, z);
    lemma_unit_mul(c, x);
    lemma_unit_mul(c, y);
    let d = a * x + b * y + c * z;
    lemma_unit_mul(a, d);
    lemma_unit_mul(b, d);
    lemma_unit_mul(c, d);
    let h = layer_height(n, m, 0, false);
    lemma_unit_mul(a, h);
    lemma_unit_mul(b, h);
    lemma_unit_mul(c, h);
}

/// A product by 0, 1 or -1.
proof fn lemma_unit_mul(a: int, x: int)
    requires
        a == 0 || a == 1 || a == -1,
    ensures
        a * x == (if a == 0 {
            0
        } else if a == 1 {
            x
        } else {
            -x
        }),
{
    if a == -1 {
        assert(-1 * x == -x) by (nonlinear_arith);
    }
}

/// The coordinate that tells the layers of face `m` apart.
pub open spec fn face_coord(m: int) -> int {
    if m == 0 || m == 3 {
        1
    } else if m == 1 || m == 4 {
        2
    } else {
        0
    }
}

/// The coordinate that layer `layer` of face `m` has, counted from the
/// face inwards; for odd dimensions, face turns skip the middle layer.
pub open spec fn layer_height(n: nat, m: int, layer: int, rotation: bool) -> int {
    let a = (n / 2) as int - layer;
    let b = if !rotation && a <= 0 && n % 2 == 1 {
        a - 1
    } else {
        a
    };
    if m < 3 {
        b
    } else {
        -b
    }
}

/// The point is in the layer of face `m` at coordinate `h`.
pub open spec fn in_layer(p: Point3, m: int, h: int) -> bool {
    coord(p, face_coord(m)) as int == h
}

/// The pieces of `d` turned by a quarter turn of the layer of face `m` at
/// coordinate `h`.
pub open spec fn turned_data(d: Seq<Point3>, m: int, h: int) -> Seq<Point3> {
    Seq::new(d.len(), |i: int| if in_layer(d[i], m, h) { rotate(m, d[i]) } else { d[i] })
}

/// The orientation vectors `o` of the pieces `d` after that quarter turn.
pub open spec fn turned_ori(d: Seq<Point3>, o: Seq<Point3>, m: int, h: int) -> Seq<Point3> {
    Seq::new(o.len(), |i: int| if i < d.len() && in_layer(d[i], m, h) { rotate(m, o[i]) } else { o[i] })
}

/// Turning keeps every coordinate in range.
proof fn lemma_turn_coords(d: Seq<Point3>, o: Seq<Point3>, m: int, h: int)
    requires
        coords_ok(d),
        coords_ok(o),
    ensures
        coords_ok(turned_data(d, m, h)),
        coords_ok(turned_ori(d, o, m, h)),
{
}

/// The rotated point, computed coordinate by coordinate.
fn rotate_point(m: usize, p: Point3) -> (r: Point3)
    requires
        m < 6,
        -127 <= p.x <= 127,
        -127 <= p.y <= 127,
        -127 <= p.z <= 127,
    ensures
        r == rotate(m as int, p),
{
    if m == 0 {
        Point3 { x: -p.z, y: p.y, z: p.x }
    } else if m == 1 {
        Point3 { x: p.y, y: -p.x, z: p.z }
    } else if m == 2 {
        Point3 { x: p.x, y: p.z, z: -p.y }
    } else if m == 3 {
        Point3 { x: p.z, y: p.y, z: -p.x }
    } else if m == 4 {
        Point3 { x: -p.y, y: p.x, z: p.z }
    } else {
        Point3 { x: p.x, y: -p.z, z: p.y }
    }
}

impl CubeVect {
    /// The pieces in the layer of face `m` numbered `layer` from the face,
    /// in increasing order.
    fn _slice(&self, m: usize, layer: i32, rotation: bool) -> (r: Vec<usize>)
        requires
            self.wf(),
            m < 6,
            (self.n / 2) as int - layer <= i32::MAX,
            (self.n / 2) as int - layer - 1 > i32::MIN,
        ensures
            forall|k: int| 0 <= k < r@.len() ==> #[trigger] r@[k] < self.data@.len() && in_layer(
                self.data@[r@[k] as int],
                m as int,
                layer_height(self.n as nat, m as int, layer as int, rotation),
            ),
            forall|a: int, b: int| 0 <= a < b < r@.len() ==> #[trigger] r@[a] < #[trigger] r@[b],
            forall|i: int|
                0 <= i < self.data@.len() && in_layer(
                    #[trigger] self.data@[i],
                    m as int,
                    layer_height(self.n as nat, m as int, layer as int, rotation),
                ) ==> listed(r@, r@.len() as int, i),
    {
        let mut slice: Vec<usize> = Vec::new();
        let half = (self.n / 2) as i32;
        let mut altura: i32 = half - layer;
        if !rotation && altura <= 0 && self.n % 2 == 1 {
            altura = altura - 1;
        }
        if m >= 3 {
            altura = -altura;
        }
        let ghost h = layer_height(self.n as nat, m as int, layer as int, rotation);
        assert(altura == h);
        let c: usize = if m == 0 || m == 3 {
            1
        } else if m == 1 || m == 4 {
            2
        } else {
            0
        };
        let mut i: usize = 0;
        while i < self.data.len()
            invariant
                self.wf(),
                m < 6,
                c == face_coord(m as int),
                altura == h,
                i <= self.data@.len(),
                forall|k: int| 0 <= k < slice@.len() ==> #[trigger] slice@[k] < i && in_layer(self.data@[slice@[k] as int], m as int, h),
                forall|a: int, b: int| 0 <= a < b < slice@.len() ==> #[trigger] slice@[a] < #[trigger] slice@[b],
                forall|j: int| 0 <= j < i && in_layer(#[trigger] self.data@[j], m as int, h) ==> listed(slice@, slice@.len() as int, j),
            decreases self.data@.len() - i,
        {
            let ghost before = slice@;
            if self.data[i].get(c) as i32 == altura {
                slice.push(i);
                proof {
                    assert(slice@[slice@.len() - 1] == i);
                }
            }
            proof {
                assert forall|j: int| 0 <= j < i + 1 && in_layer(#[trigger] self.data@[j], m as int, h) implies listed(slice@, slice@.len() as int, j) by {
                    if j == i {
                        assert(slice@[slice@.len() - 1] == i);
                    } else {
                        assert(listed(before, before.len() as int, j));
                        let q = choose|q: int| 0 <= q < before.len() && #[trigger] before[q] as int == j;
                        assert(slice@[q] == before[q]);
                    }
                }
            }
            i = i + 1;
        }
        slice
    }
}


/// The position of a face in the order U, F, R, D, B, L.
pub open spec fn face_index(f: Face) -> int {
    match f {
        Face::U => 0,
        Face::F => 1,
        Face::R => 2,
        Face::D => 3,
        Face::B => 4,
        Face::L => 5,
    }
}

/// The face whose rotation turns the whole cube about an axis.
pub open spec fn axis_index(a: Axis) -> int {
    match a {
        Axis::Y => 0,
        Axis::Z => 1,
        Axis::X => 2,
    }
}

/// The pieces and orientation vectors after quarter turns of the layers
/// `lo ..= hi` of face `m`, one layer after the other.
pub open spec fn after_layers(d: Seq<Point3>, o: Seq<Point3>, n: nat, m: int, lo: int, hi: int, rotation: bool) -> (Seq<Point3>, Seq<Point3>)
    decreases hi - lo + 1,
{
    if lo > hi {
        (d, o)
    } else {
        let h = layer_height(n, m, lo, rotation);
        after_layers(turned_data(d, m, h), turned_ori(d, o, m, h), n, m, lo + 1, hi, rotation)
    }
}

/// The pieces and orientation vectors after `t` quarter turns of the
/// layers `lo ..= hi` of face `m`.
pub open spec fn after_turns(d: Seq<Point3>, o: Seq<Point3>, n: nat, m: int, lo: int, hi: int, rotation: bool, t: nat) -> (Seq<Point3>, Seq<Point3>)
    decreases t,
{
    if t == 0 {
        (d, o)
    } else {
        let prev = after_turns(d, o, n, m, lo, hi, rotation, (t - 1) as nat);
        after_layers(prev.0, prev.1, n, m, lo, hi, rotation)
    }
}

/// The pieces and orientation vectors after the move `mv`: its quarter
/// turns, each turning its layers; a rotation turns every layer.
pub open spec fn apply_move(d: Seq<Point3>, o: Seq<Point3>, n: nat, mv: Move) -> (Seq<Point3>, Seq<Point3>) {
    let q = trunc_rem(mv.qturns + 4, 4);
    let t = if q > 0 { q as nat } else { 0 };
    match mv.kind {
        MoveKind::FaceTurn { face, layer } => {
            let (lo, hi) = match layer {
                LayerSpec::Outer => (0int, 0int),
                LayerSpec::Inner { depth } => (depth as int, depth as int),
                LayerSpec::Wide { width } => (0int, width as int),
            };
            after_turns(d, o, n, face_index(face), lo, hi, false, t)
        },
        MoveKind::Rotation { axis } => after_turns(d, o, n, axis_index(axis), 0, (n - n % 2) as int, true, t),
    }
}

/// Every layer the move turns can be counted in an `i32`.
pub open spec fn move_layers_ok(mv: Move) -> bool {
    &&& mv.qturns <= 123
    &&& mv.kind matches MoveKind::FaceTurn { layer: LayerSpec::Inner { depth }, .. } ==> depth > i32::MIN + 64
}

impl CubeVect {
    /// A quarter turn of the layer of face `m` numbered `layer` from the face.
    fn _mv(&mut self, m: usize, layer: i32, rotation: bool)
        requires
            old(self).wf(),
            m < 6,
            (old(self).n / 2) as int - layer <= i32::MAX,
            (old(self).n / 2) as int - layer - 1 > i32::MIN,
        ensures
            final(self).wf(),
            final(self).n == old(self).n,
            final(self).data@ == turned_data(old(self).data@, m as int, layer_height(old(self).n as nat, m as int, layer as int, rotation)),
            final(self).ori@ == turned_ori(old(self).data@, old(self).ori@, m as int, layer_height(old(self).n as nat, m as int, layer as int, rotation)),
    {
        let ghost d0 = self.data@;
        let ghost o0 = self.ori@;
        let ghost h = layer_height(self.n as nat, m as int, layer as int, rotation);
        let slice = self._slice(m, layer, rotation);
        let mut k: usize = 0;
        while k < slice.len()
            invariant
                self.n == old(self).n,
                self.orbit == old(self).orbit,
                2 <= self.n < 128,
                m < 6,
                d0 == old(self).data@,
                o0 == old(self).ori@,
                coords_ok(d0),
                coords_ok(o0),
                self.data@.len() == d0.len(),
                self.ori@.len() == o0.len(),
                k <= slice@.len(),
                forall|q: int| 0 <= q < slice@.len() ==> #[trigger] slice@[q] < d0.len() && in_layer(d0[slice@[q] as int], m as int, h),
                forall|a: int, b: int| 0 <= a < b < slice@.len() ==> #[trigger] slice@[a] < #[trigger] slice@[b],
                forall|i: int| 0 <= i < d0.len() && in_layer(#[trigger] d0[i], m as int, h) ==> listed(slice@, slice@.len() as int, i),
                forall|i: int| 0 <= i < d0.len() ==> #[trigger] self.data@[i] == (if listed(slice@, k as int, i) { rotate(m as int, d0[i]) } else { d0[i] }),
                forall|i: int| 0 <= i < o0.len() ==> #[trigger] self.ori@[i] == (if listed(slice@, k as int, i) && i < d0.len() { rotate(m as int, o0[i]) } else { o0[i] }),
            decreases slice@.len() - k,
        {
            let piece = slice[k];
            let ghost before_d = self.data@;
            let ghost before_o = self.ori@;
            proof {
                assert(!listed(slice@, k as int, piece as int)) by {
                    if listed(slice@, k as int, piece as int) {
                        let q = choose|q: int| 0 <= q < k && #[trigger] slice@[q] as int == piece as int;
                        assert(slice@[q] < slice@[k as int]);
                    }
                }
                assert(self.data@[piece as int] == d0[piece as int]);
            }
            let tmp = self.data[piece];
            let rotated = rotate_point(m, tmp);
            self.data.set(piece, rotated);
            if piece < self.ori.len() {
                assert(self.ori@[piece as int] == o0[piece as int]);
                let o = self.ori[piece];
                let ro = rotate_point(m, o);
                self.ori.set(piece, ro);
            }
            proof {
                assert(slice@[k as int] as int == piece as int);
                assert forall|i: int| 0 <= i < d0.len() implies #[trigger] self.data@[i] == (if listed(slice@, k + 1, i) { rotate(m as int, d0[i]) } else { d0[i] }) by {
                    if i == piece {
                        assert(listed(slice@, k + 1, i));
                    } else {
                        assert(self.data@[i] == before_d[i]);
                        if listed(slice@, k + 1, i) {
                            let q = choose|q: int| 0 <= q < k + 1 && #[trigger] slice@[q] as int == i;
                            assert(listed(slice@, k as int, i));
                        }
                        if listed(slice@, k as int, i) {
                            let q = choose|q: int| 0 <= q < k && #[trigger] slice@[q] as int == i;
                            assert(listed(slice@, k + 1, i));
                        }
                    }
                }
                assert forall|i: int| 0 <= i < o0.len() implies #[trigger] self.ori@[i] == (if listed(slice@, k + 1, i) && i < d0.len() { rotate(m as int, o0[i]) } else { o0[i] }) by {
                    if i == piece {
                        assert(listed(slice@, k + 1, i));
                    } else {
                        assert(self.ori@[i] == before_o[i]);
                        if listed(slice@, k + 1, i) {
                            let q = choose|q: int| 0 <= q < k + 1 && #[trigger] slice@[q] as int == i;
                            assert(listed(slice@, k as int, i));
                        }
                        if listed(slice@, k as int, i) {
                            let q = choose|q: int| 0 <= q < k && #[trigger] slice@[q] as int == i;
                            assert(listed(slice@, k + 1, i));
                        }
                    }
                }
            }
            k = k + 1;
        }
        proof {
            assert forall|i: int| 0 <= i < d0.len() implies (listed(slice@, k as int, i) <==> in_layer(d0[i], m as int, h)) by {
                if listed(slice@, k as int, i) {
                    let q = choose|q: int| 0 <= q < k && #[trigger] slice@[q] as int == i;
                    assert(slice@[q] < d0.len() && in_layer(d0[slice@[q] as int], m as int, h));
                }
            }
            assert(self.data@ =~= turned_data(d0, m as int, h));
            assert(self.ori@ =~= turned_ori(d0, o0, m as int, h));
            lemma_turn_coords(d0, o0, m as int, h);
        }
    }
}


fn face_position(f: Face) -> (r: usize)
    ensures
        r == face_index(f),
{
    match f {
        Face::U => 0,
        Face::F => 1,
        Face::R => 2,
        Face::D => 3,
        Face::B => 4,
        Face::L => 5,
    }
}

fn axis_position(a: Axis) -> (r: usize)
    ensures
        r == axis_index(a),
{
    match a {
        Axis::Y => 0,
        Axis::Z => 1,
        Axis::X => 2,
    }
}

impl CubeVect {
    /// Quarter turns of the layers `lo ..= hi` of face `m`, one after the other.
    fn turn_layers(&mut self, m: usize, lo: i32, hi: i32, rotation: bool)
        requires
            old(self).wf(),
            m < 6,
            lo > i32::MIN + 64,
        ensures
            final(self).wf(),
            final(self).n == old(self).n,
            (final(self).data@, final(self).ori@) == after_layers(
                old(self).data@,
                old(self).ori@,
                old(self).n as nat,
                m as int,
                lo as int,
                hi as int,
                rotation,
            ),
    {
        let ghost target = after_layers(self.data@, self.ori@, self.n as nat, m as int, lo as int, hi as int, rotation);
        let mut layer: i64 = lo as i64;
        while layer <= hi as i64
            invariant
                self.wf(),
                self.n == old(self).n,
                m < 6,
                lo as int <= layer,
                layer <= hi as int + 1 || layer == lo as int,
                lo > i32::MIN + 64,
                after_layers(self.data@, self.ori@, self.n as nat, m as int, layer as int, hi as int, rotation) == target,
            decreases hi as int + 1 - layer,
        {
            self._mv(m, layer as i32, rotation);
            layer = layer + 1;
        }
    }

    /// Applies the move: its quarter turns (the quarter turns modulo 4),
    /// each turning its layers from the face inwards; a rotation turns every
    /// layer.
    pub fn mv(&mut self, mv: Move)
        requires
            old(self).wf(),
            move_layers_ok(mv),
        ensures
            final(self).wf(),
            final(self).spec_n() == old(self).spec_n(),
            (final(self).spec_data(), final(self).spec_ori()) == apply_move(
                old(self).spec_data(),
                old(self).spec_ori(),
                old(self).spec_n(),
                mv,
            ),
    {
        let turns: i8 = (mv.qturns + 4) % 4;
        let ghost d0 = self.data@;
        let ghost o0 = self.ori@;
        let ghost n = self.n as nat;
        let (m, lo, hi, rotation) = match mv.kind {
            MoveKind::FaceTurn { face, layer } => {
                let (start, finish) = match layer {
                    LayerSpec::Outer => (0i32, 0i32),
                    LayerSpec::Inner { depth } => (depth, depth),
                    LayerSpec::Wide { width } => (0i32, width),
                };
                (face_position(face), start, finish, false)
            },
            MoveKind::Rotation { axis } => {
                let finish = (self.n - self.n % 2) as i32;
                (axis_position(axis), 0i32, finish, true)
            },
        };
        let ghost q = trunc_rem(mv.qturns + 4, 4);
        assert(turns == q);
        let ghost total: nat = if q > 0 { q as nat } else { 0 };
        assert(apply_move(d0, o0, n, mv) == after_turns(d0, o0, n, m as int, lo as int, hi as int, rotation, total));
        let mut t: i8 = 0;
        while t < turns
            invariant
                self.wf(),
                self.n as nat == n,
                m < 6,
                lo > i32::MIN + 64,
                0 <= t,
                t <= turns || turns <= 0,
                turns <= 0 ==> t == 0,
                total == (if turns > 0 { turns as nat } else { 0 }),
                (self.data@, self.ori@) == after_turns(d0, o0, n, m as int, lo as int, hi as int, rotation, t as nat),
            decreases turns - t,
        {
            self.turn_layers(m, lo, hi, rotation);
            t = t + 1;
        }
        assert(t as nat == total);
    }
}


/// The key of a point with coordinates shifted by `n`, one byte each.
pub open spec fn point_key(p: Point3, n: nat) -> int {
    (p.x + n) + 256 * (p.y + n) + 65536 * (p.z + n)
}

/// Some coordinate of the point is farther than `half` from the centre.
pub open spec fn out_of_bounds(p: Point3, half: int) -> bool {
    p.x > half || p.x < -half || p.y > half || p.y < -half || p.z > half || p.z < -half
}

/// The first failure of the pieces `i ..` of `d`: a piece out of bounds
/// (0, its index), or a piece at the position of an earlier one (1, its
/// index, the earlier index).
pub open spec fn vect_fault_from(d: Seq<Point3>, n: nat, i: nat) -> Option<(u8, usize, usize)>
    decreases d.len() - i,
{
    if i >= d.len() {
        None
    } else if out_of_bounds(d[i as int], (n / 2) as int) {
        Some((0u8, i as usize, 0usize))
    } else if exists|j: int| 0 <= j < i && #[trigger] point_key(d[j], n) == point_key(d[i as int], n) {
        let j = choose|j: int| 0 <= j < i && #[trigger] point_key(d[j], n) == point_key(d[i as int], n);
        Some((1u8, i as usize, j as usize))
    } else {
        vect_fault_from(d, n, i + 1)
    }
}

/// The number of cubies of a cube of dimension `n`.
pub open spec fn cubie_count(n: nat) -> int {
    n * n * n - (n - 2) * (n - 2) * (n - 2)
}

/// The error that `check` reports for the model with positions `d`.
pub open spec fn reports_vect(e: CubeError, d: Seq<Point3>, n: nat) -> bool {
    if d.len() != cubie_count(n) {
        e == CubeError::InvalidLength { got: d.len() as usize, expected: cubie_count(n) as usize }
    } else {
        match vect_fault_from(d, n, 0) {
            None => false,
            Some(f) => if f.0 == 0 {
                e == CubeError::InvalidVectorDimension { i: f.1, p: d[f.1 as int], half: (n / 2) as i8 }
            } else {
                e == CubeError::DuplicateVector {
                    i: f.1,
                    p: d[f.1 as int],
                    hash: point_key(d[f.1 as int], n) as usize,
                    other: f.2,
                    other_p: d[f.2 as int],
                }
            },
        }
    }
}

impl CubeVect {
    /// Validates the model: it has the number of cubies of its dimension,
    /// every coordinate is within half the dimension of the centre, and no
    /// two cubies share a position.
    pub fn check(&self) -> (r: Result<(), CubeError>)
        requires
            self.wf(),
        ensures
            r is Ok <==> (self.spec_data().len() == cubie_count(self.spec_n()) && vect_fault_from(self.spec_data(), self.spec_n(), 0) is None),
            r matches Err(e) ==> reports_vect(e, self.spec_data(), self.spec_n()),
    {
        broadcast use vstd::std_specs::hash::group_hash_axioms;
        let half: i8 = (self.n / 2) as i8;
        let n = self.n;
        let nn = n as usize;
        assert(nn * nn * nn <= 128 * 128 * 128 && (nn - 2) * (nn - 2) * (nn - 2) <= nn * nn * nn && nn * nn <= 128 * 128 && (nn - 2) * (nn - 2) <= 128 * 128)
            by (nonlinear_arith)
            requires
                2 <= nn < 128,
        ;
        let expected = nn * nn * nn - (nn - 2) * (nn - 2) * (nn - 2);
        assert(expected == cubie_count(n as nat)) by (nonlinear_arith)
            requires
                expected == nn * nn * nn - (nn - 2) * (nn - 2) * (nn - 2),
                nn == n,
                2 <= nn < 128,
        ;
        if self.data.len() != expected {
            return Err(CubeError::InvalidLength { expected, got: self.data.len() });
        }
        let ghost d = self.data@;
        let mut seen: std::collections::HashMap<usize, usize> = std::collections::HashMap::new();
        let mut i: usize = 0;
        while i < self.data.len()
            invariant
                self.wf(),
                d == self.data@,
                d.len() == cubie_count(n as nat),
                half == (self.n / 2) as int,
                n == self.n,
                i <= d.len(),
                vect_fault_from(d, n as nat, 0) == vect_fault_from(d, n as nat, i as nat),
                forall|j: int| 0 <= j < i ==> !out_of_bounds(#[trigger] d[j], half as int),
                forall|a: int, b: int| 0 <= a < b < i ==> point_key(#[trigger] d[a], n as nat) != point_key(#[trigger] d[b], n as nat),
                forall|h: usize| seen@.contains_key(h) <==> exists|j: int| 0 <= j < i && #[trigger] point_key(d[j], n as nat) == h,
                forall|j: int| 0 <= j < i ==> #[trigger] seen@.contains_key(point_key(d[j], n as nat) as usize) && seen@[point_key(d[j], n as nat) as usize] == j,
            decreases d.len() - i,
        {
            let p = self.data[i];
            if p.x > half || p.x < -half || p.y > half || p.y < -half || p.z > half || p.z < -half {
                assert(vect_fault_from(d, n as nat, i as nat) == Some((0u8, i, 0usize)));
                assert(half == ((n as nat) / 2) as i8);
                return Err(CubeError::InvalidVectorDimension { i, p, half });
            }
            let hash = p.hash(n);
            match seen.get(&hash) {
                Some(other) => {
                    let o = *other;
                    proof {
                        assert(exists|j: int| 0 <= j < i && #[trigger] point_key(d[j], n as nat) == point_key(d[i as int], n as nat));
                        let j = choose|j: int| 0 <= j < i && #[trigger] point_key(d[j], n as nat) == point_key(d[i as int], n as nat);
                        assert(seen@[point_key(d[j], n as nat) as usize] == j);
                        assert(o == j);
                        assert(vect_fault_from(d, n as nat, i as nat) == Some((1u8, i, j as usize)));
                        assert(hash == point_key(d[i as int], n as nat) as usize);
                    }
                    return Err(CubeError::DuplicateVector { i, p, hash, other: o, other_p: self.data[o] });
                },
                None => {},
            }
            proof {
                if exists|j: int| 0 <= j < i && #[trigger] point_key(d[j], n as nat) == point_key(d[i as int], n as nat) {
                    let j = choose|j: int| 0 <= j < i && #[trigger] point_key(d[j], n as nat) == point_key(d[i as int], n as nat);
                    assert(seen@.contains_key(point_key(d[j], n as nat) as usize));
                }
            }
            let ghost old_seen = seen@;
            assert(!old_seen.contains_key(hash));
            seen.insert(hash, i);
            proof {
                assert forall|j: int| 0 <= j < i + 1 implies #[trigger] seen@.contains_key(point_key(d[j], n as nat) as usize) && seen@[point_key(d[j], n as nat) as usize] == j by {
                    if j < i {
                        assert(old_seen.contains_key(point_key(d[j], n as nat) as usize));
                        assert(point_key(d[j], n as nat) as usize != hash);
                    } else {
                        assert(hash == point_key(d[i as int], n as nat) as usize);
                    }
                }
                assert forall|h: usize| seen@.contains_key(h) <==> exists|j: int| 0 <= j < i + 1 && #[trigger] point_key(d[j], n as nat) == h by {
                    if h == hash {
                        assert(point_key(d[i as int], n as nat) == h);
                    }
                }
            }
            i = i + 1;
        }
        Ok(())
    }
}

} // verus!
