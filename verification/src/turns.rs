//! What repeated quarter turns of a set of layers do to the geometric
//! model, and why a move followed by its inverse changes nothing.
use vstd::prelude::*;

use crate::cube_moves::{trunc_rem, LayerSpec, Move, MoveKind};
use crate::cube_vect::{
    after_layers, after_turns, apply_move, axis_index, coord, coords_ok, face_coord, face_index,
    in_layer, layer_height, out_of_bounds, point_key, rotate, turned_data, turned_ori, vect_fault_from,
    Point3,
};
use crate::table::inverse_move;

verus! {

/// Every coordinate of `p` is in `-127 ..= 127`.
pub open spec fn small(p: Point3) -> bool {
    -127 <= p.x <= 127 && -127 <= p.y <= 127 && -127 <= p.z <= 127
}

/// `p` turned `t` times by the quarter turn of face `m`.
pub open spec fn rot_pow(m: int, p: Point3, t: nat) -> Point3
    decreases t,
{
    if t == 0 {
        p
    } else {
        rotate(m, rot_pow(m, p, (t - 1) as nat))
    }
}

/// `p` lies in one of the layers `lo ..= hi` of face `m`.
pub open spec fn in_layers(p: Point3, n: nat, m: int, lo: int, hi: int, rotation: bool) -> bool {
    exists|l: int| lo <= l <= hi && #[trigger] layer_height(n, m, l, rotation) == coord(p, face_coord(m)) as int
}

/// The pieces `d` after `t` quarter turns of the layers `lo ..= hi` of
/// face `m`: each piece in those layers turned `t` times, the others kept.
pub open spec fn turned_pow_data(d: Seq<Point3>, n: nat, m: int, lo: int, hi: int, rotation: bool, t: nat) -> Seq<Point3> {
    Seq::new(d.len(), |i: int| if in_layers(d[i], n, m, lo, hi, rotation) { rot_pow(m, d[i], t) } else { d[i] })
}

/// The orientation vectors `o` of the pieces `d` after those turns.
pub open spec fn turned_pow_ori(
    d: Seq<Point3>,
    o: Seq<Point3>,
    n: nat,
    m: int,
    lo: int,
    hi: int,
    rotation: bool,
    t: nat,
) -> Seq<Point3> {
    Seq::new(
        o.len(),
        |i: int| if i < d.len() && in_layers(d[i], n, m, lo, hi, rotation) { rot_pow(m, o[i], t) } else { o[i] },
    )
}

/// A quarter turn of face `m` keeps the coordinate that tells its layers
/// apart, keeps coordinates in range, and four of them change nothing.
proof fn lemma_rotate(m: int, p: Point3)
    requires
        0 <= m < 6,
        small(p),
    ensures
        small(rotate(m, p)),
        coord(rotate(m, p), face_coord(m)) == coord(p, face_coord(m)),
        rotate(m, rotate(m, rotate(m, rotate(m, p)))) == p,
{
}

/// Repeated turns keep the coordinate of the layer and keep coordinates
/// in range.
proof fn lemma_rot_pow(m: int, p: Point3, t: nat)
    requires
        0 <= m < 6,
        small(p),
    ensures
        small(rot_pow(m, p, t)),
        coord(rot_pow(m, p, t), face_coord(m)) == coord(p, face_coord(m)),
    decreases t,
{
    if t > 0 {
        lemma_rot_pow(m, p, (t - 1) as nat);
        lemma_rotate(m, rot_pow(m, p, (t - 1) as nat));
    }
}

/// `a` turns and then `b` turns are `a + b` turns.
proof fn lemma_rot_pow_add(m: int, p: Point3, a: nat, b: nat)
    ensures
        rot_pow(m, rot_pow(m, p, a), b) == rot_pow(m, p, a + b),
    decreases b,
{
    if b > 0 {
        lemma_rot_pow_add(m, p, a, (b - 1) as nat);
    }
}

/// Four turns change nothing.
proof fn lemma_rot_pow_four(m: int, p: Point3)
    requires
        0 <= m < 6,
        small(p),
    ensures
        rot_pow(m, p, 4) == p,
{
    reveal_with_fuel(rot_pow, 5);
    lemma_rotate(m, p);
}

/// Different layers of a face lie at different coordinates.
proof fn lemma_heights_differ(n: nat, m: int, l1: int, l2: int, rotation: bool)
    requires
        l1 != l2,
    ensures
        layer_height(n, m, l1, rotation) != layer_height(n, m, l2, rotation),
{
}

/// One pass over the layers `lo ..= hi` turns each piece in them once.
proof fn lemma_after_layers(d: Seq<Point3>, o: Seq<Point3>, n: nat, m: int, lo: int, hi: int, rotation: bool)
    requires
        0 <= m < 6,
        coords_ok(d),
        coords_ok(o),
    ensures
        after_layers(d, o, n, m, lo, hi, rotation) == (
            turned_pow_data(d, n, m, lo, hi, rotation, 1),
            turned_pow_ori(d, o, n, m, lo, hi, rotation, 1),
        ),
    decreases hi - lo + 1,
{
    reveal_with_fuel(rot_pow, 2);
    if lo > hi {
        assert forall|i: int| 0 <= i < d.len() implies !in_layers(d[i], n, m, lo, hi, rotation) by {
        }
        assert(turned_pow_data(d, n, m, lo, hi, rotation, 1) =~= d);
        assert(turned_pow_ori(d, o, n, m, lo, hi, rotation, 1) =~= o);
    } else {
        let h = layer_height(n, m, lo, rotation);
        let d1 = turned_data(d, m, h);
        let o1 = turned_ori(d, o, m, h);
        assert(coords_ok(d1) && coords_ok(o1)) by {
            assert forall|i: int| 0 <= i < d1.len() implies #[trigger] small(d1[i]) by {
                assert(small(d[i]));
                lemma_rotate(m, d[i]);
            }
            assert forall|i: int| 0 <= i < o1.len() implies #[trigger] small(o1[i]) by {
                assert(small(o[i]));
                lemma_rotate(m, o[i]);
            }
        }
        lemma_after_layers(d1, o1, n, m, lo + 1, hi, rotation);
        let fc = face_coord(m);
        assert forall|i: int| 0 <= i < d.len() implies (in_layer(d[i], m, h) ==> !in_layers(
            d1[i],
            n,
            m,
            lo + 1,
            hi,
            rotation,
        )) && (!in_layer(d[i], m, h) ==> (in_layers(d1[i], n, m, lo + 1, hi, rotation) <==> in_layers(
            d[i],
            n,
            m,
            lo,
            hi,
            rotation,
        ))) && (in_layer(d[i], m, h) ==> in_layers(d[i], n, m, lo, hi, rotation)) by {
            assert(small(d[i]));
            lemma_rotate(m, d[i]);
            if in_layer(d[i], m, h) {
                assert(coord(d1[i], fc) == coord(d[i], fc));
                if in_layers(d1[i], n, m, lo + 1, hi, rotation) {
                    let l = choose|l: int|
                        lo + 1 <= l <= hi && #[trigger] layer_height(n, m, l, rotation) == coord(d1[i], fc) as int;
                    lemma_heights_differ(n, m, lo, l, rotation);
                }
                assert(layer_height(n, m, lo, rotation) == coord(d[i], fc) as int);
            } else {
                assert(d1[i] == d[i]);
                if in_layers(d[i], n, m, lo, hi, rotation) {
                    let l = choose|l: int|
                        lo <= l <= hi && #[trigger] layer_height(n, m, l, rotation) == coord(d[i], fc) as int;
                    assert(l != lo);
                }
            }
        }
        assert(turned_pow_data(d1, n, m, lo + 1, hi, rotation, 1) =~= turned_pow_data(d, n, m, lo, hi, rotation, 1));
        assert(turned_pow_ori(d1, o1, n, m, lo + 1, hi, rotation, 1) =~= turned_pow_ori(
            d,
            o,
            n,
            m,
            lo,
            hi,
            rotation,
            1,
        ));
    }
}

/// A piece turned with the layers keeps its layer and its range.
proof fn lemma_point_turns(p: Point3, n: nat, m: int, lo: int, hi: int, rotation: bool, a: nat)
    requires
        0 <= m < 6,
        small(p),
    ensures
        ({
            let q = if in_layers(p, n, m, lo, hi, rotation) { rot_pow(m, p, a) } else { p };
            small(q) && (in_layers(q, n, m, lo, hi, rotation) == in_layers(p, n, m, lo, hi, rotation))
        }),
{
    let fc = face_coord(m);
    lemma_rot_pow(m, p, a);
    let q = if in_layers(p, n, m, lo, hi, rotation) { rot_pow(m, p, a) } else { p };
    assert(coord(q, fc) == coord(p, fc));
    if in_layers(q, n, m, lo, hi, rotation) {
        let l = choose|l: int| lo <= l <= hi && #[trigger] layer_height(n, m, l, rotation) == coord(q, fc) as int;
        assert(layer_height(n, m, l, rotation) == coord(p, fc) as int);
    }
    if in_layers(p, n, m, lo, hi, rotation) {
        let l = choose|l: int| lo <= l <= hi && #[trigger] layer_height(n, m, l, rotation) == coord(p, fc) as int;
        assert(layer_height(n, m, l, rotation) == coord(q, fc) as int);
    }
}

/// `t` passes over the layers `lo ..= hi` turn each piece in them `t` times.
proof fn lemma_after_turns(
    d: Seq<Point3>,
    o: Seq<Point3>,
    n: nat,
    m: int,
    lo: int,
    hi: int,
    rotation: bool,
    t: nat,
)
    requires
        0 <= m < 6,
        coords_ok(d),
        coords_ok(o),
    ensures
        after_turns(d, o, n, m, lo, hi, rotation, t) == (
            turned_pow_data(d, n, m, lo, hi, rotation, t),
            turned_pow_ori(d, o, n, m, lo, hi, rotation, t),
        ),
    decreases t,
{
    if t == 0 {
        assert(turned_pow_data(d, n, m, lo, hi, rotation, 0) =~= d);
        assert(turned_pow_ori(d, o, n, m, lo, hi, rotation, 0) =~= o);
    } else {
        let tp = (t - 1) as nat;
        lemma_after_turns(d, o, n, m, lo, hi, rotation, tp);
        let d1 = turned_pow_data(d, n, m, lo, hi, rotation, tp);
        let o1 = turned_pow_ori(d, o, n, m, lo, hi, rotation, tp);
        let fc = face_coord(m);
        assert forall|i: int| 0 <= i < d.len() implies #[trigger] small(d1[i]) && (in_layers(
            d1[i],
            n,
            m,
            lo,
            hi,
            rotation,
        ) <==> in_layers(d[i], n, m, lo, hi, rotation)) by {
            assert(small(d[i]));
            lemma_rot_pow(m, d[i], tp);
            assert(coord(d1[i], fc) == coord(d[i], fc));
            if in_layers(d1[i], n, m, lo, hi, rotation) {
                let l = choose|l: int|
                    lo <= l <= hi && #[trigger] layer_height(n, m, l, rotation) == coord(d1[i], fc) as int;
                assert(layer_height(n, m, l, rotation) == coord(d[i], fc) as int);
            }
            if in_layers(d[i], n, m, lo, hi, rotation) {
                let l = choose|l: int|
                    lo <= l <= hi && #[trigger] layer_height(n, m, l, rotation) == coord(d[i], fc) as int;
                assert(layer_height(n, m, l, rotation) == coord(d1[i], fc) as int);
            }
        }
        assert forall|i: int| 0 <= i < o.len() implies #[trigger] small(o1[i]) by {
            assert(small(o[i]));
            lemma_rot_pow(m, o[i], tp);
        }
        assert(coords_ok(d1)) by {
            assert forall|i: int| 0 <= i < d1.len() implies -127 <= (#[trigger] d1[i]).x <= 127 && -127 <= d1[i].y <= 127 && -127 <= d1[i].z <= 127 by {
                assert(small(d1[i]));
            }
        }
        assert(coords_ok(o1)) by {
            assert forall|i: int| 0 <= i < o1.len() implies -127 <= (#[trigger] o1[i]).x <= 127 && -127 <= o1[i].y <= 127 && -127 <= o1[i].z <= 127 by {
                assert(small(o1[i]));
            }
        }
        lemma_after_layers(d1, o1, n, m, lo, hi, rotation);
        reveal_with_fuel(rot_pow, 2);
        assert forall|i: int| 0 <= i < d.len() implies #[trigger] rot_pow(m, rot_pow(m, d[i], tp), 1) == rot_pow(m, d[i], t) by {
            lemma_rot_pow_add(m, d[i], tp, 1);
        }
        assert forall|i: int| 0 <= i < o.len() implies #[trigger] rot_pow(m, rot_pow(m, o[i], tp), 1) == rot_pow(m, o[i], t) by {
            lemma_rot_pow_add(m, o[i], tp, 1);
        }
        assert forall|i: int| 0 <= i < d.len() implies turned_pow_data(d1, n, m, lo, hi, rotation, 1)[i]
            == turned_pow_data(d, n, m, lo, hi, rotation, t)[i] by {
            assert(small(d[i]));
            lemma_point_turns(d[i], n, m, lo, hi, rotation, tp);
            lemma_rot_pow_add(m, d[i], tp, 1);
        }
        assert forall|i: int| 0 <= i < o.len() implies turned_pow_ori(d1, o1, n, m, lo, hi, rotation, 1)[i]
            == turned_pow_ori(d, o, n, m, lo, hi, rotation, t)[i] by {
            if i < d.len() {
                assert(small(d[i]));
                lemma_point_turns(d[i], n, m, lo, hi, rotation, tp);
            }
            lemma_rot_pow_add(m, o[i], tp, 1);
        }
        assert(turned_pow_data(d1, n, m, lo, hi, rotation, 1) =~= turned_pow_data(d, n, m, lo, hi, rotation, t));
        assert(turned_pow_ori(d1, o1, n, m, lo, hi, rotation, 1) =~= turned_pow_ori(d, o, n, m, lo, hi, rotation, t));
    }
}

/// `a` and then `b` passes over the same layers are `a + b` passes.
proof fn lemma_turns_add(
    d: Seq<Point3>,
    o: Seq<Point3>,
    n: nat,
    m: int,
    lo: int,
    hi: int,
    rotation: bool,
    a: nat,
    b: nat,
)
    requires
        0 <= m < 6,
        coords_ok(d),
        coords_ok(o),
    ensures
        ({
            let s = after_turns(d, o, n, m, lo, hi, rotation, a);
            after_turns(s.0, s.1, n, m, lo, hi, rotation, b)
        }) == after_turns(d, o, n, m, lo, hi, rotation, a + b),
{
    lemma_after_turns(d, o, n, m, lo, hi, rotation, a);
    lemma_after_turns(d, o, n, m, lo, hi, rotation, a + b);
    let d1 = turned_pow_data(d, n, m, lo, hi, rotation, a);
    let o1 = turned_pow_ori(d, o, n, m, lo, hi, rotation, a);
    let fc = face_coord(m);
    assert forall|i: int| 0 <= i < d.len() implies #[trigger] small(d1[i]) && (in_layers(
        d1[i],
        n,
        m,
        lo,
        hi,
        rotation,
    ) <==> in_layers(d[i], n, m, lo, hi, rotation)) && rot_pow(m, d1[i], b) == (if in_layers(
        d[i],
        n,
        m,
        lo,
        hi,
        rotation,
    ) {
        rot_pow(m, d[i], a + b)
    } else {
        rot_pow(m, d[i], b)
    }) by {
        assert(small(d[i]));
        lemma_rot_pow(m, d[i], a);
        lemma_rot_pow_add(m, d[i], a, b);
        assert(coord(d1[i], fc) == coord(d[i], fc));
        if in_layers(d1[i], n, m, lo, hi, rotation) {
            let l = choose|l: int|
                lo <= l <= hi && #[trigger] layer_height(n, m, l, rotation) == coord(d1[i], fc) as int;
            assert(layer_height(n, m, l, rotation) == coord(d[i], fc) as int);
        }
        if in_layers(d[i], n, m, lo, hi, rotation) {
            let l = choose|l: int|
                lo <= l <= hi && #[trigger] layer_height(n, m, l, rotation) == coord(d[i], fc) as int;
            assert(layer_height(n, m, l, rotation) == coord(d1[i], fc) as int);
        }
    }
    assert forall|i: int| 0 <= i < o.len() implies #[trigger] small(o1[i]) by {
        assert(small(o[i]));
        lemma_rot_pow(m, o[i], a);
    }
    assert forall|i: int| 0 <= i < o.len() && i < d.len() && in_layers(d[i], n, m, lo, hi, rotation)
        implies #[trigger] rot_pow(m, o1[i], b) == rot_pow(m, o[i], a + b) by {
        lemma_rot_pow_add(m, o[i], a, b);
    }
    assert(coords_ok(d1)) by {
        assert forall|i: int| 0 <= i < d1.len() implies -127 <= (#[trigger] d1[i]).x <= 127 && -127 <= d1[i].y <= 127 && -127 <= d1[i].z <= 127 by {
            assert(small(d1[i]));
        }
    }
    assert(coords_ok(o1)) by {
        assert forall|i: int| 0 <= i < o1.len() implies -127 <= (#[trigger] o1[i]).x <= 127 && -127 <= o1[i].y <= 127 && -127 <= o1[i].z <= 127 by {
            assert(small(o1[i]));
        }
    }
    lemma_after_turns(d1, o1, n, m, lo, hi, rotation, b);
    assert forall|i: int| 0 <= i < d.len() implies turned_pow_data(d1, n, m, lo, hi, rotation, b)[i]
        == turned_pow_data(d, n, m, lo, hi, rotation, a + b)[i] by {
        assert(small(d[i]));
        lemma_point_turns(d[i], n, m, lo, hi, rotation, a);
        lemma_rot_pow_add(m, d[i], a, b);
    }
    assert forall|i: int| 0 <= i < o.len() implies turned_pow_ori(d1, o1, n, m, lo, hi, rotation, b)[i]
        == turned_pow_ori(d, o, n, m, lo, hi, rotation, a + b)[i] by {
        if i < d.len() {
            assert(small(d[i]));
            lemma_point_turns(d[i], n, m, lo, hi, rotation, a);
        }
        lemma_rot_pow_add(m, o[i], a, b);
    }
    assert(turned_pow_data(d1, n, m, lo, hi, rotation, b) =~= turned_pow_data(d, n, m, lo, hi, rotation, a + b));
    assert(turned_pow_ori(d1, o1, n, m, lo, hi, rotation, b) =~= turned_pow_ori(d, o, n, m, lo, hi, rotation, a + b));
}

/// Four passes over the same layers change nothing.
proof fn lemma_turns_four(d: Seq<Point3>, o: Seq<Point3>, n: nat, m: int, lo: int, hi: int, rotation: bool)
    requires
        0 <= m < 6,
        coords_ok(d),
        coords_ok(o),
    ensures
        after_turns(d, o, n, m, lo, hi, rotation, 4) == (d, o),
{
    lemma_after_turns(d, o, n, m, lo, hi, rotation, 4);
    assert forall|i: int| 0 <= i < d.len() implies #[trigger] rot_pow(m, d[i], 4) == d[i] by {
        assert(small(d[i]));
        lemma_rot_pow_four(m, d[i]);
    }
    assert forall|i: int| 0 <= i < o.len() implies #[trigger] rot_pow(m, o[i], 4) == o[i] by {
        assert(small(o[i]));
        lemma_rot_pow_four(m, o[i]);
    }
    assert(turned_pow_data(d, n, m, lo, hi, rotation, 4) =~= d);
    assert(turned_pow_ori(d, o, n, m, lo, hi, rotation, 4) =~= o);
}

/// A move of one, two or three quarter turns followed by its inverse
/// leaves every piece where it was, turned as it was.
pub proof fn law_move_undo(d: Seq<Point3>, o: Seq<Point3>, n: nat, mv: Move)
    requires
        coords_ok(d),
        coords_ok(o),
        1 <= mv.qturns <= 3,
    ensures
        ({
            let a = apply_move(d, o, n, mv);
            apply_move(a.0, a.1, n, inverse_move(mv))
        }) == (d, o),
{
    let inv = inverse_move(mv);
    let t = trunc_rem(mv.qturns + 4, 4);
    let ti = trunc_rem(inv.qturns + 4, 4);
    assert(t == mv.qturns);
    assert(t + ti == 4);
    match mv.kind {
        MoveKind::FaceTurn { face, layer } => {
            let (lo, hi) = match layer {
                LayerSpec::Outer => (0int, 0int),
                LayerSpec::Inner { depth } => (depth as int, depth as int),
                LayerSpec::Wide { width } => (0int, width as int),
            };
            let m = face_index(face);
            lemma_turns_add(d, o, n, m, lo, hi, false, t as nat, ti as nat);
            lemma_turns_four(d, o, n, m, lo, hi, false);
        },
        MoveKind::Rotation { axis } => {
            let m = axis_index(axis);
            let hi = (n - n % 2) as int;
            lemma_turns_add(d, o, n, m, 0, hi, true, t as nat, ti as nat);
            lemma_turns_four(d, o, n, m, 0, hi, true);
        },
    }
}

/// Every piece of `d` lies within `half` of the centre, and no two pieces
/// share a position.
pub open spec fn vect_valid(d: Seq<Point3>, half: int) -> bool {
    &&& forall|i: int| 0 <= i < d.len() ==> !out_of_bounds(#[trigger] d[i], half)
    &&& forall|i: int, j: int| 0 <= i < d.len() && 0 <= j < d.len() && i != j ==> #[trigger] d[i] != #[trigger] d[j]
}

/// Points within the cube have the same key only when they are equal.
proof fn lemma_key_injective(p: Point3, q: Point3, n: nat)
    requires
        n < 128,
        !out_of_bounds(p, (n / 2) as int),
        !out_of_bounds(q, (n / 2) as int),
        point_key(p, n) == point_key(q, n),
    ensures
        p == q,
{
}

/// The pieces of `d` from `i` on are within `half` of the centre and meet
/// no piece before them.
pub open spec fn tail_valid(d: Seq<Point3>, half: int, i: int) -> bool {
    &&& forall|k: int| i <= k < d.len() ==> !out_of_bounds(#[trigger] d[k], half)
    &&& forall|j: int, k: int| 0 <= j < k && i <= k < d.len() ==> #[trigger] d[j] != #[trigger] d[k]
}

/// `check` finds no fault from piece `i` on exactly when the pieces from
/// `i` on are within the cube and meet no piece before them.
proof fn lemma_fault_from(d: Seq<Point3>, n: nat, i: nat)
    requires
        n < 128,
        i <= d.len(),
        forall|k: int| 0 <= k < i ==> !out_of_bounds(#[trigger] d[k], (n / 2) as int),
    ensures
        vect_fault_from(d, n, i) is None <==> tail_valid(d, (n / 2) as int, i as int),
    decreases d.len() - i,
{
    let half = (n / 2) as int;
    if i < d.len() {
        let di = d[i as int];
        if !out_of_bounds(di, half) {
            lemma_fault_from(d, n, i + 1);
            if exists|j: int| 0 <= j < i && #[trigger] point_key(d[j], n) == point_key(di, n) {
                let j = choose|j: int| 0 <= j < i && #[trigger] point_key(d[j], n) == point_key(di, n);
                lemma_key_injective(d[j], di, n);
                assert(!tail_valid(d, half, i as int)) by {
                    assert(d[j] == d[i as int]);
                }
            } else {
                assert forall|j: int| 0 <= j < i implies d[j] != di by {
                    if d[j] == di {
                        assert(point_key(d[j], n) == point_key(di, n));
                    }
                }
                if tail_valid(d, half, (i + 1) as int) {
                    assert forall|j: int, k: int| 0 <= j < k && i <= k < d.len() implies #[trigger] d[j] != #[trigger] d[k] by {
                        if k == i {
                            assert(d[j] != di);
                        }
                    }
                }
            }
        } else {
            assert(!tail_valid(d, half, i as int)) by {
                assert(out_of_bounds(d[i as int], half));
            }
        }
    }
}

/// `check` finds no fault exactly when the model is valid.
proof fn lemma_fault_valid(d: Seq<Point3>, n: nat)
    requires
        n < 128,
    ensures
        vect_fault_from(d, n, 0) is None <==> vect_valid(d, (n / 2) as int),
{
    lemma_fault_from(d, n, 0);
    if vect_valid(d, (n / 2) as int) {
        assert forall|j: int, k: int| 0 <= j < k && 0 <= k < d.len() implies #[trigger] d[j] != #[trigger] d[k] by {}
    }
    if vect_fault_from(d, n, 0) is None {
        assert forall|i: int, j: int| 0 <= i < d.len() && 0 <= j < d.len() && i != j implies #[trigger] d[i] != #[trigger] d[j] by {
            if i < j {
                assert(d[i] != d[j]);
            } else {
                assert(d[j] != d[i]);
            }
        }
    }
}

/// Different points stay different when turned.
proof fn lemma_rotate_injective(m: int, a: Point3, b: Point3)
    requires
        0 <= m < 6,
        small(a),
        small(b),
        rotate(m, a) == rotate(m, b),
    ensures
        a == b,
{
    let ra = rotate(m, a);
    let rb = rotate(m, b);
    assert(ra.x == rb.x && ra.y == rb.y && ra.z == rb.z);
    if m == 0 {
        assert(ra.x == -a.z && ra.y == a.y && ra.z == a.x);
        assert(rb.x == -b.z && rb.y == b.y && rb.z == b.x);
    } else if m == 1 {
        assert(ra.x == a.y && ra.y == -a.x && ra.z == a.z);
        assert(rb.x == b.y && rb.y == -b.x && rb.z == b.z);
    } else if m == 2 {
        assert(ra.x == a.x && ra.y == a.z && ra.z == -a.y);
        assert(rb.x == b.x && rb.y == b.z && rb.z == -b.y);
    } else if m == 3 {
        assert(ra.x == a.z && ra.y == a.y && ra.z == -a.x);
        assert(rb.x == b.z && rb.y == b.y && rb.z == -b.x);
    } else if m == 4 {
        assert(ra.x == -a.y && ra.y == a.x && ra.z == a.z);
        assert(rb.x == -b.y && rb.y == b.x && rb.z == b.z);
    } else {
        assert(ra.x == a.x && ra.y == -a.z && ra.z == a.y);
        assert(rb.x == b.x && rb.y == -b.z && rb.z == b.y);
    }
}

/// Turns keep a point within `half` of the centre, and tell different
/// points apart.
proof fn lemma_rot_pow_within(m: int, p: Point3, q: Point3, half: int, t: nat)
    requires
        0 <= m < 6,
        0 <= half <= 63,
        !out_of_bounds(p, half),
        !out_of_bounds(q, half),
    ensures
        !out_of_bounds(rot_pow(m, p, t), half),
        !out_of_bounds(rot_pow(m, q, t), half),
        rot_pow(m, p, t) == rot_pow(m, q, t) ==> p == q,
    decreases t,
{
    if t > 0 {
        let t1 = (t - 1) as nat;
        lemma_rot_pow_within(m, p, q, half, t1);
        let a = rot_pow(m, p, t1);
        let b = rot_pow(m, q, t1);
        assert(!out_of_bounds(rotate(m, a), half));
        assert(!out_of_bounds(rotate(m, b), half));
        if rotate(m, a) == rotate(m, b) {
            lemma_rotate_injective(m, a, b);
        }
    }
}

/// A move keeps a valid model valid: every piece stays within the cube and
/// no two pieces come to share a position.
pub proof fn law_move_keeps_valid(d: Seq<Point3>, o: Seq<Point3>, n: nat, mv: Move)
    requires
        n < 128,
        coords_ok(d),
        coords_ok(o),
        vect_fault_from(d, n, 0) is None,
    ensures
        apply_move(d, o, n, mv).0.len() == d.len(),
        apply_move(d, o, n, mv).1.len() == o.len(),
        vect_fault_from(apply_move(d, o, n, mv).0, n, 0) is None,
{
    let half = (n / 2) as int;
    lemma_fault_valid(d, n);
    let q = trunc_rem(mv.qturns + 4, 4);
    let t: nat = if q > 0 { q as nat } else { 0 };
    let (m, lo, hi, rotation) = match mv.kind {
        MoveKind::FaceTurn { face, layer } => {
            let (lo, hi) = match layer {
                LayerSpec::Outer => (0int, 0int),
                LayerSpec::Inner { depth } => (depth as int, depth as int),
                LayerSpec::Wide { width } => (0int, width as int),
            };
            (face_index(face), lo, hi, false)
        },
        MoveKind::Rotation { axis } => (axis_index(axis), 0int, (n - n % 2) as int, true),
    };
    lemma_after_turns(d, o, n, m, lo, hi, rotation, t);
    let e = turned_pow_data(d, n, m, lo, hi, rotation, t);
    assert(apply_move(d, o, n, mv).0 == e);
    assert forall|i: int| 0 <= i < e.len() implies !out_of_bounds(#[trigger] e[i], half) by {
        lemma_rot_pow_within(m, d[i], d[i], half, t);
    }
    assert forall|i: int, j: int| 0 <= i < e.len() && 0 <= j < e.len() && i != j implies #[trigger] e[i] != #[trigger] e[j] by {
        assert(small(d[i]) && small(d[j]));
        lemma_point_turns(d[i], n, m, lo, hi, rotation, t);
        lemma_point_turns(d[j], n, m, lo, hi, rotation, t);
        lemma_rot_pow_within(m, d[i], d[j], half, t);
    }
    lemma_fault_valid(e, n);
}

} // verus!
