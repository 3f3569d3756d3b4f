//! Between the geometric model and the packed words: a cubie's place in
//! its group is the index of the home point it sits on.
use vstd::prelude::*;

use crate::arena::{arena_stride, corner_of, edge_of, group_len, group_pairs, is_odd, CubeArena};
use crate::bits::{blk, lemma_and_le, scatter};
use crate::cube_vect::{
    coords_ok, home_ori, home_points, home_points_upto, kind_groups, kind_groups_of, kind_len, kind_points,
    orbit_points, orbit_table, push_orbit, CubeVect, Point3,
};

verus! {

/// The index of the first point of `s`, from `i` on, that equals `p`, or 0
/// when there is none.
pub open spec fn locate_from(s: Seq<Point3>, p: Point3, i: nat) -> nat
    decreases s.len() - i,
{
    if i >= s.len() {
        0
    } else if s[i as int] == p {
        i
    } else {
        locate_from(s, p, i + 1)
    }
}

/// The index of the first point of `s` equal to `p`, or 0 when there is none.
pub open spec fn locate(s: Seq<Point3>, p: Point3) -> nat {
    locate_from(s, p, 0)
}

/// The outward direction of face `f` (U, F, R, D, B, L).
pub open spec fn face_dir(f: int) -> Point3 {
    if f == 0 {
        Point3 { x: 0, y: 1, z: 0 }
    } else if f == 1 {
        Point3 { x: 0, y: 0, z: 1 }
    } else if f == 2 {
        Point3 { x: 1, y: 0, z: 0 }
    } else if f == 3 {
        Point3 { x: 0, y: -1i8, z: 0 }
    } else if f == 4 {
        Point3 { x: 0, y: 0, z: -1i8 }
    } else {
        Point3 { x: -1i8, y: 0, z: 0 }
    }
}

/// The faces that the corner position `q` touches: the down or up face,
/// then the two faces that a twist of one and of two turns it towards.
pub open spec fn corner_faces(q: nat) -> (int, int, int) {
    if q < 4 {
        if q % 2 == 1 {
            (3, 5, 2)
        } else {
            (3, 1, 4)
        }
    } else {
        if q % 2 == 1 {
            (0, 1, 4)
        } else {
            (0, 5, 2)
        }
    }
}

/// The twist of a corner at position `q` whose marked sticker faces `o`:
/// 0 on the down or up face, 1 on one of the two side faces, 2 otherwise.
pub open spec fn corner_twist(q: nat, o: Point3) -> u128 {
    let (a, b, c) = corner_faces(q);
    if o == face_dir(a) {
        0
    } else if o == face_dir(b) || o == face_dir(c) {
        1
    } else {
        2
    }
}

/// The home direction of the marked sticker of the single edge at position `q`.
pub open spec fn edge_dir(q: nat) -> Point3 {
    if q < 4 {
        Point3 { x: 0, y: -1i8, z: 0 }
    } else if q < 6 {
        Point3 { x: -1i8, y: 0, z: 0 }
    } else if q < 8 {
        Point3 { x: 1, y: 0, z: 0 }
    } else {
        Point3 { x: 0, y: 1, z: 0 }
    }
}

/// 1 when an edge at position `q` whose marked sticker faces `o` is flipped.
pub open spec fn edge_flip(q: nat, o: Point3) -> u128 {
    if edge_dir(q) == o {
        0
    } else {
        1
    }
}

/// The index of cubie `first + j` of `d` among the home points `home`.
pub open spec fn pos_in(home: Seq<Point3>, d: Seq<Point3>, first: int) -> spec_fn(int) -> u128 {
    |j: int| locate(home, d[first + j]) as u128
}

/// Piece `j` is named by the number `j`.
pub open spec fn ident() -> spec_fn(int) -> u128 {
    |j: int| j as u128
}

/// The block of corner `j`: its number and its twist.
pub open spec fn corner_val(d: Seq<Point3>, o: Seq<Point3>, n: nat) -> spec_fn(int) -> u128 {
    |j: int| (j as u128) | (corner_twist(locate(orbit_points(0, n, 0), d[j]), o[j]) << 3u128)
}

/// The block of single edge `j`: its number and its flip.
pub open spec fn edge_val(d: Seq<Point3>, o: Seq<Point3>, n: nat) -> spec_fn(int) -> u128 {
    |j: int|
        (j as u128) | (edge_flip(locate(orbit_points(1, n, 0), d[8 + j]), o[8 + j]) << 4u128)
}

/// The packed corners of the model.
pub open spec fn corner_word(n: nat, d: Seq<Point3>, o: Seq<Point3>) -> u128 {
    scatter(corner_val(d, o, n), pos_in(orbit_points(0, n, 0), d, 0), 8)
}

/// The packed single edges of the model.
pub open spec fn edge_word(n: nat, d: Seq<Point3>, o: Seq<Point3>) -> u128 {
    scatter(edge_val(d, o, n), pos_in(orbit_points(1, n, 0), d, 8), 12)
}

/// The packed fixed centers of the model.
pub open spec fn center_word(n: nat, d: Seq<Point3>) -> u128 {
    scatter(ident(), pos_in(orbit_points(2, n, 0), d, 20), 6)
}

/// The first packed word of the model.
pub open spec fn packed_word0(n: nat, d: Seq<Point3>, o: Seq<Point3>) -> u128 {
    if is_odd(n) {
        corner_word(n, d, o) | (edge_word(n, d, o) << 40u128) | (center_word(n, d) << 100u128)
    } else {
        corner_word(n, d, o)
    }
}

/// The first cubie of group `idx` of orbit kind `kind`.
pub open spec fn group_first(n: nat, kind: nat, idx: nat) -> int {
    orbit_table(n)[kind as int].0 + idx * 24
}

/// The packed word of group `idx` of a 24-piece orbit kind.
pub open spec fn group_word(n: nat, d: Seq<Point3>, kind: nat, idx: nat) -> u128 {
    scatter(ident(), pos_in(orbit_points(kind, n, idx), d, group_first(n, kind, idx)), 24)
}

/// The packed words of all groups of a 24-piece orbit kind.
pub open spec fn kind_words(n: nat, d: Seq<Point3>, kind: nat) -> Seq<u128> {
    Seq::new(kind_groups(kind, n), |i: int| group_word(n, d, kind, i as nat))
}

/// The packed cube of the model with positions `d` and orientations `o`.
pub open spec fn packed_vect(n: nat, d: Seq<Point3>, o: Seq<Point3>) -> Seq<u128> {
    seq![packed_word0(n, d, o)] + kind_words(n, d, 3) + kind_words(n, d, 4) + kind_words(n, d, 5)
}

proof fn lemma_locate_from_bound(s: Seq<Point3>, p: Point3, i: nat)
    requires
        s.len() > 0,
    ensures
        locate_from(s, p, i) < s.len(),
    decreases s.len() - i,
{
    if i < s.len() && s[i as int] != p {
        lemma_locate_from_bound(s, p, i + 1);
    }
}

/// The numbers of points of groups, of orbit kinds and of the whole cube.
pub proof fn lemma_points_len(n: nat)
    requires
        2 <= n < 128,
    ensures
        forall|kind: nat, idx: nat| kind < 6 ==> (#[trigger] orbit_points(kind, n, idx)).len() == kind_len(kind),
        home_points(n).len() == orbit_table(n)[5].0 + 24 * kind_groups(5, n),
        orbit_table(n)[3].0 == 8 + 12 * kind_groups(1, n) + 6 * kind_groups(2, n),
        orbit_table(n)[4].0 == orbit_table(n)[3].0 + 24 * kind_groups(3, n),
        orbit_table(n)[5].0 == orbit_table(n)[4].0 + 24 * kind_groups(4, n),
        kind_groups(1, n) == n % 2,
        kind_groups(2, n) == n % 2,
        orbit_table(n)[0].0 == 0,
        orbit_table(n)[1].0 == 8,
        orbit_table(n)[2].0 == 8 + 12 * kind_groups(1, n),
        kind_groups(3, n) <= 63 * 63,
        kind_groups(4, n) <= 63,
        kind_groups(5, n) <= 63,
        kind_groups(0, n) == 1,
{
    let k = ((n - 2 - n % 2) / 2) as nat;
    assert(k * k <= 63 * 63 && k * (n % 2) <= k) by (nonlinear_arith)
        requires
            k <= 63,
            n % 2 <= 1,
    ;
    assert forall|kind: nat, idx: nat| kind < 6 implies (#[trigger] orbit_points(kind, n, idx)).len() == kind_len(kind) by {
    }
    assert forall|kind: nat, g: nat| kind < 6 implies (#[trigger] kind_points(kind, n, g)).len() == g * kind_len(kind) by {
        lemma_kind_points_len(kind, n, g);
    }
    reveal_with_fuel(home_points_upto, 7);
    assert(home_points(n).len() == kind_points(0, n, kind_groups(0, n)).len() + kind_points(1, n, kind_groups(1, n)).len() + kind_points(2, n, kind_groups(2, n)).len() + kind_points(3, n, kind_groups(3, n)).len() + kind_points(4, n, kind_groups(4, n)).len() + kind_points(5, n, kind_groups(5, n)).len());
}

proof fn lemma_kind_points_len(kind: nat, n: nat, g: nat)
    requires
        kind < 6,
        2 <= n < 128,
    ensures
        kind_points(kind, n, g).len() == g * kind_len(kind),
    decreases g,
{
    if g > 0 {
        lemma_kind_points_len(kind, n, (g - 1) as nat);
        assert(orbit_points(kind, n, (g - 1) as nat).len() == kind_len(kind));
        assert((g - 1) * kind_len(kind) + kind_len(kind) == g * kind_len(kind)) by (nonlinear_arith);
    }
}

/// The index of the first point of `s` equal to `p`, or 0 when there is none.
fn locate_point(s: &Vec<Point3>, p: Point3) -> (r: usize)
    ensures
        r == locate(s@, p),
        s@.len() > 0 ==> r < s@.len(),
{
    proof {
        if s@.len() > 0 {
            lemma_locate_from_bound(s@, p, 0);
        }
    }
    let mut i: usize = 0;
    while i < s.len()
        invariant
            i <= s@.len(),
            locate(s@, p) == locate_from(s@, p, i as nat),
        decreases s@.len() - i,
    {
        if s[i] == p {
            return i;
        }
        i = i + 1;
    }
    0
}

/// The direction of face `f`.
fn face_point(f: usize) -> (r: Point3)
    requires
        f < 6,
    ensures
        r == face_dir(f as int),
{
    if f == 0 {
        Point3 { x: 0, y: 1, z: 0 }
    } else if f == 1 {
        Point3 { x: 0, y: 0, z: 1 }
    } else if f == 2 {
        Point3 { x: 1, y: 0, z: 0 }
    } else if f == 3 {
        Point3 { x: 0, y: -1i8, z: 0 }
    } else if f == 4 {
        Point3 { x: 0, y: 0, z: -1i8 }
    } else {
        Point3 { x: -1i8, y: 0, z: 0 }
    }
}

fn twist_of(q: usize, o: Point3) -> (r: u128)
    ensures
        r == corner_twist(q as nat, o),
{
    let (a, b, c): (usize, usize, usize) = if q < 4 {
        if q % 2 == 1 {
            (3, 5, 2)
        } else {
            (3, 1, 4)
        }
    } else {
        if q % 2 == 1 {
            (0, 1, 4)
        } else {
            (0, 5, 2)
        }
    };
    if o == face_point(a) {
        0
    } else if o == face_point(b) || o == face_point(c) {
        1
    } else {
        2
    }
}

fn flip_of(q: usize, o: Point3) -> (r: u128)
    ensures
        r == edge_flip(q as nat, o),
{
    let e = if q < 4 {
        Point3 { x: 0, y: -1i8, z: 0 }
    } else if q < 6 {
        Point3 { x: -1i8, y: 0, z: 0 }
    } else if q < 8 {
        Point3 { x: 1, y: 0, z: 0 }
    } else {
        Point3 { x: 0, y: 1, z: 0 }
    };
    if e == o {
        0
    } else {
        1
    }
}

/// Packs the pieces `first .. first + len` of `d` against the home points `home`.
fn scatter_group(d: &[Point3], home: &Vec<Point3>, first: usize, len: usize) -> (w: u128)
    requires
        home@.len() == len,
        0 < len <= 24,
        first + len <= d.len(),
    ensures
        w == scatter(ident(), pos_in(home@, d@, first as int), len as nat),
{
    let mut w: u128 = 0;
    let mut j: usize = 0;
    while j < len
        invariant
            j <= len,
            home@.len() == len,
            0 < len <= 24,
            first + len <= d.len(),
            w == scatter(ident(), pos_in(home@, d@, first as int), j as nat),
        decreases len - j,
    {
        let q = locate_point(home, d[first + j]);
        w = w | ((j as u128) << ((5 * q) as u128));
        j = j + 1;
    }
    w
}

/// Packs the corners of the model.
fn corners_of(d: &[Point3], o: &[Point3], n: usize) -> (w: u128)
    requires
        2 <= n < 128,
        d@.len() >= 8,
        o@.len() >= 8,
    ensures
        w == corner_word(n as nat, d@, o@),
{
    proof {
        lemma_points_len(n as nat);
    }
    let mut home: Vec<Point3> = Vec::new();
    push_orbit(&mut home, 0, n, 0);
    assert(home@ =~= orbit_points(0, n as nat, 0));
    let mut w: u128 = 0;
    let mut j: usize = 0;
    while j < 8
        invariant
            j <= 8,
            d@.len() >= 8,
            o@.len() >= 8,
            home@ == orbit_points(0, n as nat, 0),
            home@.len() == 8,
            w == scatter(corner_val(d@, o@, n as nat), pos_in(home@, d@, 0), j as nat),
        decreases 8 - j,
    {
        let q = locate_point(&home, d[j]);
        let t = twist_of(q, o[j]);
        w = w | (((j as u128) | (t << 3u128)) << ((5 * q) as u128));
        j = j + 1;
    }
    w
}

/// Packs the single edges of the model.
fn edges_of(d: &[Point3], o: &[Point3], n: usize) -> (w: u128)
    requires
        2 <= n < 128,
        n % 2 == 1,
        d@.len() >= 20,
        o@.len() >= 20,
    ensures
        w == edge_word(n as nat, d@, o@),
{
    proof {
        lemma_points_len(n as nat);
    }
    let mut home: Vec<Point3> = Vec::new();
    push_orbit(&mut home, 1, n, 0);
    assert(home@ =~= orbit_points(1, n as nat, 0));
    let mut w: u128 = 0;
    let mut j: usize = 0;
    while j < 12
        invariant
            j <= 12,
            d@.len() >= 20,
            o@.len() >= 20,
            home@ == orbit_points(1, n as nat, 0),
            home@.len() == 12,
            w == scatter(edge_val(d@, o@, n as nat), pos_in(home@, d@, 8), j as nat),
        decreases 12 - j,
    {
        let q = locate_point(&home, d[8 + j]);
        let f = flip_of(q, o[8 + j]);
        w = w | (((j as u128) | (f << 4u128)) << ((5 * q) as u128));
        j = j + 1;
    }
    w
}

/// The first cubie of each orbit kind, as in [`orbit_table`].
fn kind_first(kind: usize, n: usize) -> (r: usize)
    requires
        kind < 6,
        2 <= n < 128,
    ensures
        r == orbit_table(n as nat)[kind as int].0,
        r <= 8 + 12 + 6 + 24 * 63 * 63 * 3,
{
    let g1 = kind_groups_of(1, n);
    let g2 = kind_groups_of(2, n);
    let g3 = kind_groups_of(3, n);
    let g4 = kind_groups_of(4, n);
    assert(g1 <= 1 && g2 <= 1) by {
        assert(kind_groups(1, n as nat) == (n as nat) % 2);
    }
    let s1: usize = 8;
    let s2 = s1 + 12 * g1;
    let s3 = s2 + 6 * g2;
    let s4 = s3 + 24 * g3;
    let s5 = s4 + 24 * g4;
    if kind == 0 {
        0
    } else if kind == 1 {
        s1
    } else if kind == 2 {
        s2
    } else if kind == 3 {
        s3
    } else if kind == 4 {
        s4
    } else {
        s5
    }
}

/// Appends the packed words of the groups of a 24-piece orbit kind.
fn push_kind_words(out: &mut Vec<u128>, d: &[Point3], n: usize, kind: usize)
    requires
        3 <= kind < 6,
        2 <= n < 128,
        d.len() == home_points(n as nat).len(),
    ensures
        final(out)@ == old(out)@ + kind_words(n as nat, d@, kind as nat),
{
    proof {
        lemma_points_len(n as nat);
    }
    let groups = kind_groups_of(kind, n);
    let first = kind_first(kind, n);
    let ghost start = out@;
    let mut idx: usize = 0;
    while idx < groups
        invariant
            3 <= kind < 6,
            2 <= n < 128,
            d.len() == home_points(n as nat).len(),
            groups == kind_groups(kind as nat, n as nat),
            first == orbit_table(n as nat)[kind as int].0,
            idx <= groups,
            out@ == start + Seq::new(idx as nat, |i: int| group_word(n as nat, d@, kind as nat, i as nat)),
        decreases groups - idx,
    {
        let mut home: Vec<Point3> = Vec::new();
        push_orbit(&mut home, kind, n, idx);
        assert(home@ =~= orbit_points(kind as nat, n as nat, idx as nat));
        proof {
            lemma_points_len(n as nat);
        }
        assert(first + idx * 24 + 24 <= d.len()) by (nonlinear_arith)
            requires
                idx < groups,
                kind == 3 ==> first + 24 * groups <= orbit_table(n as nat)[4].0,
                kind == 4 ==> first + 24 * groups <= orbit_table(n as nat)[5].0,
                kind == 5 ==> first + 24 * groups == d.len(),
                orbit_table(n as nat)[4].0 <= orbit_table(n as nat)[5].0,
                orbit_table(n as nat)[5].0 <= d.len(),
                3 <= kind < 6,
        ;
        let w = scatter_group(d, &home, first + idx * 24, 24);
        out.push(w);
        idx = idx + 1;
        proof {
            assert(out@ =~= start + Seq::new(idx as nat, |i: int| group_word(n as nat, d@, kind as nat, i as nat)));
        }
    }
    assert(Seq::new(idx as nat, |i: int| group_word(n as nat, d@, kind as nat, i as nat)) =~= kind_words(n as nat, d@, kind as nat));
}

impl CubeVect {
    /// The packed form of the model: each cubie's number written at the
    /// block of the home point it sits on, with the twist of each corner and
    /// the flip of each single edge beside it.
    pub fn into_packed(&self) -> (r: Vec<u128>)
        requires
            self.wf(),
        ensures
            r@ == packed_vect(self.spec_n(), self.spec_data(), self.spec_ori()),
            r@.len() == arena_stride(self.spec_n()),
    {
        proof {
            self.lemma_wf();
            lemma_points_len(self.spec_n());
        }
        let n = self.dim() as usize;
        let d = self.data();
        let o = self.ori();
        let cw = corners_of(d, o, n);
        let w0 = if n % 2 == 1 {
            let ew = edges_of(d, o, n);
            let mut home: Vec<Point3> = Vec::new();
            push_orbit(&mut home, 2, n, 0);
            assert(home@ =~= orbit_points(2, n as nat, 0));
            let zw = scatter_group(d, &home, 20, 6);
            cw | (ew << 40u128) | (zw << 100u128)
        } else {
            cw
        };
        let mut out: Vec<u128> = Vec::new();
        out.push(w0);
        push_kind_words(&mut out, d, n, 3);
        push_kind_words(&mut out, d, n, 4);
        push_kind_words(&mut out, d, n, 5);
        out
    }
}

/// The number of orbit groups of a cube of dimension `n`.
pub open spec fn group_count(n: nat) -> nat {
    arena_stride(n) + 2 * (n % 2)
}

/// The first cubie of orbit group `g`: the corners, the single edges and
/// the fixed centers of odd dimensions, then the 24-piece groups.
pub open spec fn group_base(n: nat, g: int) -> int {
    if g == 0 {
        0
    } else if is_odd(n) && g == 1 {
        8
    } else if is_odd(n) && g == 2 {
        20
    } else if is_odd(n) {
        26 + 24 * (g - 3)
    } else {
        8 + 24 * (g - 1)
    }
}

/// The faces touched by the corner at home block `i`, in the order of its
/// twists.
pub open spec fn corner_table(i: int) -> (int, int, int) {
    if i == 0 {
        (3, 4, 5)
    } else if i == 1 {
        (3, 5, 1)
    } else if i == 2 {
        (3, 1, 2)
    } else if i == 3 {
        (3, 2, 4)
    } else if i == 4 {
        (0, 5, 4)
    } else if i == 5 {
        (0, 1, 5)
    } else if i == 6 {
        (0, 2, 1)
    } else {
        (0, 4, 2)
    }
}

/// The face that the marked sticker of a corner at block `i` with twist
/// `o` faces.
pub open spec fn corner_face(i: int, o: int) -> int {
    let t = corner_table(i);
    if o == 0 {
        t.0
    } else if o == 1 {
        t.1
    } else {
        t.2
    }
}

/// The faces touched by the single edge at home block `i`, in the order of
/// its flips.
pub open spec fn edge_table(i: int) -> (int, int) {
    if i < 4 {
        (3, if i == 0 { 4 } else if i == 1 { 5 } else if i == 2 { 1 } else { 2 })
    } else if i == 4 {
        (5, 4)
    } else if i == 5 {
        (5, 1)
    } else if i == 6 {
        (2, 1)
    } else if i == 7 {
        (2, 4)
    } else {
        (0, if i == 8 { 4 } else if i == 9 { 5 } else if i == 10 { 1 } else { 2 })
    }
}

/// The face that the marked sticker of a single edge at block `i` with flip
/// `o` faces.
pub open spec fn edge_face(i: int, o: int) -> int {
    if o == 0 {
        edge_table(i).0
    } else {
        edge_table(i).1
    }
}

/// The model after placing piece `i` of group `g` of the packed cube `c`:
/// the cubie it names moves to the home point of block `i`, and a corner or
/// single edge takes the orientation its twist or flip describes.
pub open spec fn place_piece(
    n: nat,
    c: Seq<u128>,
    s: (Seq<Point3>, Seq<Point3>),
    g: int,
    i: int,
) -> (Seq<Point3>, Seq<Point3>) {
    let pair = group_pairs(n, c, g)[i];
    let b = group_base(n, g);
    let d = s.0.update(b + pair.0, home_points(n)[b + i]);
    let o = if g == 0 {
        s.1.update(pair.0 as int, face_dir(corner_face(i, pair.1 as int)))
    } else if is_odd(n) && g == 1 {
        s.1.update(8 + pair.0, face_dir(edge_face(i, pair.1 as int)))
    } else {
        s.1
    };
    (d, o)
}

/// The model after placing pieces `0 .. i` of group `g`.
pub open spec fn place_group(
    n: nat,
    c: Seq<u128>,
    s: (Seq<Point3>, Seq<Point3>),
    g: int,
    i: nat,
) -> (Seq<Point3>, Seq<Point3>)
    decreases i,
{
    if i == 0 {
        s
    } else {
        place_piece(n, c, place_group(n, c, s, g, (i - 1) as nat), g, i - 1)
    }
}

/// The solved model after placing every piece of groups `0 .. g`.
pub open spec fn place_upto(n: nat, c: Seq<u128>, g: nat) -> (Seq<Point3>, Seq<Point3>)
    decreases g,
{
    if g == 0 {
        (home_points(n), home_ori(n))
    } else {
        place_group(n, c, place_upto(n, c, (g - 1) as nat), g - 1, group_len(n, g - 1))
    }
}

/// The positions and orientations of the model of the packed cube `c`.
pub open spec fn unpacked(n: nat, c: Seq<u128>) -> (Seq<Point3>, Seq<Point3>) {
    place_upto(n, c, group_count(n))
}

/// Every piece that the packed cube `c` names lands inside the model: its
/// cubie exists, each corner twist names a sticker, each single edge names
/// an edge.
pub open spec fn unpackable(n: nat, c: Seq<u128>) -> bool {
    &&& forall|g: int, i: int|
        0 <= g < group_count(n) && 0 <= i < group_len(n, g) ==> group_base(n, g) + (
        #[trigger] group_pairs(n, c, g)[i]).0 < home_points(n).len()
    &&& forall|i: int| 0 <= i < 8 ==> (#[trigger] group_pairs(n, c, 0)[i]).1 < 3
    &&& is_odd(n) ==> forall|i: int| 0 <= i < 12 ==> (#[trigger] group_pairs(n, c, 1)[i]).0 < 12
}

proof fn lemma_group_bounds(n: nat, g: int)
    requires
        2 <= n < 128,
        0 <= g < group_count(n),
    ensures
        0 <= group_base(n, g),
        group_base(n, g) + group_len(n, g) <= home_points(n).len(),
        group_len(n, g) <= 24,
        group_count(n) <= 5000,
{
    lemma_points_len(n);
    let k = ((n - 2 - n % 2) / 2) as nat;
    assert(k * k <= 63 * 63 && k * (n % 2) <= k) by (nonlinear_arith)
        requires
            k <= 63,
            n % 2 <= 1,
    ;
}

fn group_base_of(n: usize, g: usize) -> (r: usize)
    requires
        2 <= n < 128,
        g < group_count(n as nat),
    ensures
        r == group_base(n as nat, g as int),
{
    proof {
        lemma_group_bounds(n as nat, g as int);
        lemma_points_len(n as nat);
    }
    if g == 0 {
        0
    } else if n % 2 == 1 && g == 1 {
        8
    } else if n % 2 == 1 && g == 2 {
        20
    } else if n % 2 == 1 {
        26 + 24 * (g - 3)
    } else {
        8 + 24 * (g - 1)
    }
}

fn corner_face_of(i: usize, o: u8) -> (r: usize)
    requires
        i < 8,
        o < 3,
    ensures
        r == corner_face(i as int, o as int),
        r < 6,
{
    let (a, b, c): (usize, usize, usize) = if i == 0 {
        (3, 4, 5)
    } else if i == 1 {
        (3, 5, 1)
    } else if i == 2 {
        (3, 1, 2)
    } else if i == 3 {
        (3, 2, 4)
    } else if i == 4 {
        (0, 5, 4)
    } else if i == 5 {
        (0, 1, 5)
    } else if i == 6 {
        (0, 2, 1)
    } else {
        (0, 4, 2)
    };
    if o == 0 {
        a
    } else if o == 1 {
        b
    } else {
        c
    }
}

fn edge_face_of(i: usize, o: u8) -> (r: usize)
    requires
        i < 12,
        o < 2,
    ensures
        r == edge_face(i as int, o as int),
        r < 6,
{
    let (a, b): (usize, usize) = if i < 4 {
        (3, if i == 0 { 4 } else if i == 1 { 5 } else if i == 2 { 1 } else { 2 })
    } else if i == 4 {
        (5, 4)
    } else if i == 5 {
        (5, 1)
    } else if i == 6 {
        (2, 1)
    } else if i == 7 {
        (2, 4)
    } else {
        (0, if i == 8 { 4 } else if i == 9 { 5 } else if i == 10 { 1 } else { 2 })
    };
    if o == 0 {
        a
    } else {
        b
    }
}

impl CubeArena {
    /// The geometric model of the cube at `index`: each piece that a block
    /// names moves to the home point of that block, each corner and single
    /// edge turned as its twist or flip says.
    pub fn into_cubevect(&self, index: usize) -> (r: CubeVect)
        requires
            self.wf(),
            index < self.slots(),
            self.spec_n() < 128,
            unpackable(self.spec_n(), self.cube(index as int)),
        ensures
            r.wf(),
            r.spec_n() == self.spec_n(),
            (r.spec_data(), r.spec_ori()) == unpacked(self.spec_n(), self.cube(index as int)),
    {
        proof {
            self.lemma_wf();
        }
        let n = self.n() as usize;
        let ghost nn = n as nat;
        let ghost c = self.cube(index as int);
        let vect = self.cube_to_vec(index);
        let solved = CubeVect::new(n);
        proof {
            solved.lemma_wf();
        }
        let home = solved.data();
        let mut cv = CubeVect::new(n);
        let count = vect.len();
        assert(count == group_count(nn));
        assert(c.len() > 0);
        let mut g: usize = 0;
        while g < count
            invariant
                2 <= n < 128,
                nn == n,
                count == group_count(nn),
                vect@.len() == count,
                forall|h: int| 0 <= h < count ==> (#[trigger] vect@[h])@ == group_pairs(nn, c, h),
                home@ == home_points(nn),
                coords_ok(home@),
                c.len() > 0,
                unpackable(nn, c),
                g <= count,
                cv.wf(),
                cv.spec_n() == nn,
                (cv.spec_data(), cv.spec_ori()) == place_upto(nn, c, g as nat),
            decreases count - g,
        {
            proof {
                lemma_group_bounds(nn, g as int);
                cv.lemma_wf();
            }
            let base = group_base_of(n, g);
            let group = &vect[g];
            let len = group.len();
            assert(len == group_len(nn, g as int));
            let ghost before = place_upto(nn, c, g as nat);
            let mut i: usize = 0;
            while i < len
                invariant
                    2 <= n < 128,
                    nn == n,
                    count == group_count(nn),
                    g < count,
                    base == group_base(nn, g as int),
                    base + len <= home.len(),
                    home.len() == home_points(nn).len(),
                    group@ == group_pairs(nn, c, g as int),
                    len == group_len(nn, g as int),
                    home@ == home_points(nn),
                    coords_ok(home@),
                    c.len() > 0,
                    unpackable(nn, c),
                    i <= len,
                    cv.wf(),
                    cv.spec_n() == nn,
                    (cv.spec_data(), cv.spec_ori()) == place_group(nn, c, before, g as int, i as nat),
                decreases len - i,
            {
                proof {
                    cv.lemma_wf();
                }
                let (p, o) = group[i];
                assert(group_pairs(nn, c, g as int)[i as int] == (p, o));
                cv.set_piece(base + p as usize, home[base + i]);
                if g == 0 {
                    proof {
                        lemma_and_le(blk(corner_of(c[0]), i as int), 7u128);
                    }
                    let f = corner_face_of(i, o);
                    cv.set_ori(p as usize, face_point(f));
                } else if n % 2 == 1 && g == 1 {
                    proof {
                        lemma_and_le(blk(edge_of(c[0]), i as int) >> 4u128, 1u128);
                    }
                    let f = edge_face_of(i, o);
                    cv.set_ori(8 + p as usize, face_point(f));
                }
                i = i + 1;
            }
            g = g + 1;
        }
        cv
    }
}

} // verus!
