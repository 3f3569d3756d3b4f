//! The table of the moves of a move set: the packed cube of every move,
//! found by the move or by its name.
use vstd::prelude::*;

use crate::arena::{arena_stride, identity_cube, CubeArena};
use crate::cube_moves::{
    has_bit, inverse_qturns, move_name, moves_count, trailing_ones, Axis, Face, LayerSpec, Move,
    MoveFamily, MoveKind, MoveSet,
};
use crate::cube_vect::{apply_move, coords_ok, home_ori, home_points, move_layers_ok, CubeVect};
use crate::error::CubeError;
use crate::packing::packed_vect;
use crate::turns::law_move_undo;

verus! {

/// The quarter turns of the `i`-th turn amount of a move set: 3, 1, 2.
pub open spec fn turn_at(i: int) -> i8 {
    if i == 0 {
        3
    } else if i == 1 {
        1
    } else {
        2
    }
}

/// The quarter turns of the turn amounts of `rule`, in order.
pub open spec fn rule_turns(rule: MoveSet) -> Seq<i8> {
    Seq::new(trailing_ones(rule.turns as nat), |i: int| turn_at(i))
}

/// The axes in the order the table lists rotations: x, y, z.
pub open spec fn axis_at(i: int) -> Axis {
    if i == 0 {
        Axis::X
    } else if i == 1 {
        Axis::Y
    } else {
        Axis::Z
    }
}

/// The faces in the order the table lists face turns: U, F, R, D, B, L.
pub open spec fn face_at(i: int) -> Face {
    if i == 0 {
        Face::U
    } else if i == 1 {
        Face::F
    } else if i == 2 {
        Face::R
    } else if i == 3 {
        Face::D
    } else if i == 4 {
        Face::B
    } else {
        Face::L
    }
}

/// The number of inner depths, and of wide widths, that the table turns:
/// `2 ..= n / 2`.
pub open spec fn layer_count(n: nat) -> nat {
    if n / 2 >= 2 {
        (n / 2 - 1) as nat
    } else {
        0
    }
}

/// The three rotations.
pub open spec fn rotation_kinds() -> Seq<MoveKind> {
    Seq::new(3, |i: int| MoveKind::Rotation { axis: axis_at(i) })
}

/// The six outer face turns.
pub open spec fn outer_kinds() -> Seq<MoveKind> {
    Seq::new(6, |i: int| MoveKind::FaceTurn { face: face_at(i), layer: LayerSpec::Outer })
}

/// The inner-layer turns of each face, at depths `2 ..= n / 2`, face after face.
pub open spec fn inner_kinds(n: nat) -> Seq<MoveKind> {
    let l = layer_count(n);
    Seq::new(
        6 * l,
        |i: int|
            MoveKind::FaceTurn {
                face: face_at(i / l as int),
                layer: LayerSpec::Inner { depth: (2 + i % l as int) as i32 },
            },
    )
}

/// The wide turns of each face, of widths `2 ..= n / 2`, face after face.
pub open spec fn wide_kinds(n: nat) -> Seq<MoveKind> {
    let l = layer_count(n);
    Seq::new(
        6 * l,
        |i: int|
            MoveKind::FaceTurn {
                face: face_at(i / l as int),
                layer: LayerSpec::Wide { width: (2 + i % l as int) as i32 },
            },
    )
}

/// The kinds of move of the families in `moves`: rotations, outer, inner
/// and wide turns, in this order.
pub open spec fn table_kinds(n: nat, moves: usize) -> Seq<MoveKind> {
    (if has_bit(moves, 0) {
        rotation_kinds()
    } else {
        Seq::empty()
    }) + (if has_bit(moves, 1) {
        outer_kinds()
    } else {
        Seq::empty()
    }) + (if has_bit(moves, 2) {
        inner_kinds(n)
    } else {
        Seq::empty()
    }) + (if has_bit(moves, 3) {
        wide_kinds(n)
    } else {
        Seq::empty()
    })
}

/// Each kind of `ks` with each turn amount of `qs`, kind after kind.
pub open spec fn with_turns(ks: Seq<MoveKind>, qs: Seq<i8>) -> Seq<Move> {
    Seq::new(
        ks.len() * qs.len(),
        |i: int| Move { kind: ks[i / qs.len() as int], qturns: qs[i % qs.len() as int] },
    )
}

/// The moves of the table of `rule` for dimension `n`, in table order.
pub open spec fn table_moves(n: nat, rule: MoveSet) -> Seq<Move> {
    with_turns(table_kinds(n, rule.moves), rule_turns(rule))
}

/// The inverse of a move, as [`Move::invert`] computes it.
pub open spec fn inverse_move(m: Move) -> Move {
    Move { kind: m.kind, qturns: inverse_qturns(m.qturns as int) as i8 }
}

/// Inverting a move of one, two or three quarter turns twice gives the move
/// back, and a move and its inverse add up to whole turns.
pub proof fn law_invert_twice(m: Move)
    requires
        1 <= m.qturns <= 3,
    ensures
        inverse_move(inverse_move(m)) == m,
        1 <= inverse_move(m).qturns <= 3,
        (m.qturns + inverse_move(m).qturns) % 4 == 0,
{
}

/// The packed cube of the move `m` turned on the solved cube.
pub open spec fn move_cube(n: nat, m: Move) -> Seq<u128> {
    let a = apply_move(home_points(n), home_ori(n), n, m);
    packed_vect(n, a.0, a.1)
}

/// The index of the first element of `s`, from `i` on, equal to `x`
/// (`s.len()` when there is none).
pub open spec fn first_match<A>(s: Seq<A>, x: A, i: nat) -> nat
    decreases s.len() - i,
{
    if i >= s.len() {
        i
    } else if s[i as int] == x {
        i
    } else {
        first_match(s, x, i + 1)
    }
}

proof fn lemma_first_match<A>(s: Seq<A>, x: A, i: nat)
    requires
        i <= s.len(),
    ensures
        i <= first_match(s, x, i) <= s.len(),
        first_match(s, x, i) < s.len() ==> s[first_match(s, x, i) as int] == x,
        (exists|k: int| i <= k < s.len() && s[k] == x) ==> first_match(s, x, i) < s.len(),
    decreases s.len() - i,
{
    if i < s.len() && s[i as int] != x {
        lemma_first_match(s, x, i + 1);
        if exists|k: int| i <= k < s.len() && s[k] == x {
            let k = choose|k: int| i <= k < s.len() && s[k] == x;
            assert(k != i);
        }
    }
}

/// The packed cube of each move of a move set, with the name of each move.
#[derive(Debug, Clone)]
pub struct MoveTable {
    /// The packed cube of move `i` is in slot `i`.
    arena: CubeArena,
    /// The moves, in table order.
    moves: Vec<Move>,
    /// The name of each move.
    moves_s: Vec<String>,
}

impl MoveTable {
    /// The arena holds a slot for every move, and every name is the name of
    /// its move.
    pub closed spec fn wf(&self) -> bool {
        &&& self.arena.wf()
        &&& self.moves@.len() <= self.arena.spec_len()
        &&& self.moves_s@.len() == self.moves@.len()
        &&& forall|i: int| 0 <= i < self.moves@.len() ==> (#[trigger] self.moves_s@[i])@ == move_name(self.moves@[i])
    }

    /// The arena of packed cubes.
    pub closed spec fn spec_arena(&self) -> CubeArena {
        self.arena
    }

    /// The moves, in table order.
    pub closed spec fn spec_moves(&self) -> Seq<Move> {
        self.moves@
    }

    /// The names of the moves, in table order.
    pub closed spec fn spec_names(&self) -> Seq<Seq<char>> {
        self.moves_s@.map_values(|s: String| s@)
    }
}

/// Turns `cube` by `mv`, stores its packed form in slot `moves.len()`,
/// records the move and its name, and turns `cube` back.
fn record(arena: &mut CubeArena, cube: &mut CubeVect, moves: &mut Vec<Move>, names: &mut Vec<String>, mv: Move)
    requires
        old(arena).wf(),
        old(cube).wf(),
        old(cube).spec_n() == old(arena).spec_n(),
        old(moves)@.len() < old(arena).spec_len(),
        old(names)@.len() == old(moves)@.len(),
        1 <= mv.qturns <= 3,
        move_layers_ok(mv),
    ensures
        final(arena).wf(),
        final(arena).spec_n() == old(arena).spec_n(),
        final(arena).spec_len() == old(arena).spec_len(),
        final(moves)@ == old(moves)@.push(mv),
        final(names)@.len() == final(moves)@.len(),
        final(names)@.subrange(0, old(names)@.len() as int) == old(names)@,
        final(names)@[old(names)@.len() as int]@ == move_name(mv),
        final(arena).cube(old(moves)@.len() as int) == ({
            let a = apply_move(old(cube).spec_data(), old(cube).spec_ori(), old(cube).spec_n(), mv);
            packed_vect(old(cube).spec_n(), a.0, a.1)
        }),
        forall|i: int|
            0 <= i < old(arena).slots() && i != old(moves)@.len() ==> #[trigger] final(arena).cube(i) == old(
                arena,
            ).cube(i),
        final(cube).wf(),
        final(cube).spec_n() == old(cube).spec_n(),
        (final(cube).spec_data(), final(cube).spec_ori()) == ({
            let a = apply_move(old(cube).spec_data(), old(cube).spec_ori(), old(cube).spec_n(), mv);
            apply_move(a.0, a.1, old(cube).spec_n(), inverse_move(mv))
        }),
{
    cube.mv(mv);
    let packed = cube.into_packed();
    proof {
        arena.lemma_wf();
    }
    let idx = moves.len();
    arena.cube_from_slice(idx, packed.as_slice());
    moves.push(mv);
    let name = mv.to_string();
    names.push(name);
    let inv = mv.invert();
    cube.mv(inv);
    assert(names@.subrange(0, old(names)@.len() as int) =~= old(names)@);
}

/// The quarter turns of the turn amounts of `rule`.
fn turns_of(rule: &MoveSet) -> (r: Vec<i8>)
    requires
        trailing_ones(rule.turns as nat) <= 3,
    ensures
        r@ == rule_turns(*rule),
{
    let ts = rule.create_turns();
    let mut out: Vec<i8> = Vec::new();
    let mut i: usize = 0;
    while i < ts.len()
        invariant
            ts@.len() == trailing_ones(rule.turns as nat),
            ts@.len() <= 3,
            forall|j: int| 0 <= j < ts@.len() ==> crate::cube_moves::turn_index(#[trigger] ts@[j]) == j,
            i <= ts@.len(),
            out@ =~= rule_turns(*rule).take(i as int),
        decreases ts@.len() - i,
    {
        let q = ts[i].qturns();
        assert(crate::cube_moves::turn_index(ts@[i as int]) == i);
        out.push(q);
        i = i + 1;
    }
    out
}

fn axis_value(i: usize) -> (r: Axis)
    ensures
        r == axis_at(i as int),
{
    if i == 0 {
        Axis::X
    } else if i == 1 {
        Axis::Y
    } else {
        Axis::Z
    }
}

fn face_value(i: usize) -> (r: Face)
    ensures
        r == face_at(i as int),
{
    if i == 0 {
        Face::U
    } else if i == 1 {
        Face::F
    } else if i == 2 {
        Face::R
    } else if i == 3 {
        Face::D
    } else if i == 4 {
        Face::B
    } else {
        Face::L
    }
}

/// Appends the inner turns (`wide == false`) or the wide turns of every
/// face at layers `2 ..= n / 2`.
fn push_layer_kinds(ks: &mut Vec<MoveKind>, n: usize, wide: bool)
    requires
        2 <= n < 128,
    ensures
        final(ks)@ == old(ks)@ + (if wide {
            wide_kinds(n as nat)
        } else {
            inner_kinds(n as nat)
        }),
{
    let ghost l = layer_count(n as nat);
    let ghost target = if wide {
        wide_kinds(n as nat)
    } else {
        inner_kinds(n as nat)
    };
    let ghost start = ks@;
    let half = n / 2;
    assert(l == if half >= 2 { half - 1 } else { 0 });
    let mut f: usize = 0;
    while f < 6
        invariant
            2 <= n < 128,
            half == n / 2,
            l == layer_count(n as nat),
            l == if half >= 2 { half - 1 } else { 0 },
            target == (if wide { wide_kinds(n as nat) } else { inner_kinds(n as nat) }),
            f <= 6,
            ks@ == start + target.take(f * l),
        decreases 6 - f,
    {
        let mut d: usize = 2;
        while d <= half
            invariant
                2 <= n < 128,
                half == n / 2,
                half < 64,
                l == layer_count(n as nat),
                l == if half >= 2 { half - 1 } else { 0 },
                target == (if wide { wide_kinds(n as nat) } else { inner_kinds(n as nat) }),
                f < 6,
                2 <= d,
                d <= half + 1 || half < 2,
                half < 2 ==> d == 2,
                ks@ == start + target.take(f * l + (d - 2)),
            decreases half + 1 - d,
        {
            let face = face_value(f);
            let kind = if wide {
                MoveKind::FaceTurn { face, layer: LayerSpec::Wide { width: d as i32 } }
            } else {
                MoveKind::FaceTurn { face, layer: LayerSpec::Inner { depth: d as i32 } }
            };
            proof {
                let x = f * l + (d - 2);
                vstd::arithmetic::div_mod::lemma_fundamental_div_mod_converse(x as int, l as int, f as int, (d - 2) as int);
                assert(x < 6 * l) by (nonlinear_arith)
                    requires
                        x == f * l + (d - 2),
                        d - 2 < l,
                        f < 6,
                ;
                assert(target[x as int] == kind);
            }
            let ghost before = ks@;
            ks.push(kind);
            proof {
                assert(ks@ =~= start + target.take(f * l + (d + 1 - 2)));
            }
            d = d + 1;
        }
        proof {
            if half >= 2 {
                assert(f * l + (d - 2) == (f + 1) * l) by (nonlinear_arith)
                    requires
                        d == half + 1,
                        l == half - 1,
                ;
            } else {
                assert(l == 0);
                assert(f * l == 0 && (f + 1) * l == 0) by (nonlinear_arith)
                    requires
                        l == 0,
                ;
            }
        }
        f = f + 1;
    }
    assert(6 * l == target.len());
    assert(ks@ =~= start + target);
}

/// The kinds of move of the families in `rule`, in table order.
fn table_kinds_of(n: usize, rule: &MoveSet) -> (r: Vec<MoveKind>)
    requires
        2 <= n < 128,
    ensures
        r@ == table_kinds(n as nat, rule.moves),
{
    let mut ks: Vec<MoveKind> = Vec::new();
    if rule.contains_move(MoveFamily::Rotation) {
        ks.push(MoveKind::Rotation { axis: axis_value(0) });
        ks.push(MoveKind::Rotation { axis: axis_value(1) });
        ks.push(MoveKind::Rotation { axis: axis_value(2) });
        assert(ks@ =~= rotation_kinds());
    }
    let ghost after_rot = ks@;
    if rule.contains_move(MoveFamily::Outer) {
        let mut f: usize = 0;
        while f < 6
            invariant
                f <= 6,
                ks@ == after_rot + outer_kinds().take(f as int),
            decreases 6 - f,
        {
            ks.push(MoveKind::FaceTurn { face: face_value(f), layer: LayerSpec::Outer });
            f = f + 1;
            assert(ks@ =~= after_rot + outer_kinds().take(f as int));
        }
        assert(outer_kinds().take(6) =~= outer_kinds());
    }
    let ghost after_outer = ks@;
    if rule.contains_move(MoveFamily::Inner) {
        push_layer_kinds(&mut ks, n, false);
    }
    let ghost after_inner = ks@;
    if rule.contains_move(MoveFamily::Wide) {
        push_layer_kinds(&mut ks, n, true);
    }
    proof {
        let e: Seq<MoveKind> = Seq::empty();
        assert(after_rot =~= (if has_bit(rule.moves, 0) { rotation_kinds() } else { e }));
        assert(after_outer =~= after_rot + (if has_bit(rule.moves, 1) { outer_kinds() } else { e }));
        assert(after_inner =~= after_outer + (if has_bit(rule.moves, 2) { inner_kinds(n as nat) } else { e }));
        assert(ks@ =~= after_inner + (if has_bit(rule.moves, 3) { wide_kinds(n as nat) } else { e }));
    }
    ks
}

proof fn lemma_stride_small(n: nat)
    requires
        2 <= n < 128,
    ensures
        arena_stride(n) <= 5000,
{
    let k = ((n - 2 - n % 2) / 2) as nat;
    assert(k * k <= 63 * 63 && k * (n % 2) <= k) by (nonlinear_arith)
        requires
            k <= 63,
            n % 2 <= 1,
    ;
}

proof fn lemma_kinds_fit(n: nat, moves: usize)
    requires
        2 <= n < 128,
    ensures
        table_kinds(n, moves).len() <= moves_count(moves, n),
        moves_count(moves, n) <= 3 + 6 + 6 * 126 + 6 * 127,
{
    let l = layer_count(n);
    assert(l <= n - 2);
    let b0 = (moves >> 0usize) & 1;
    let b1 = (moves >> 1usize) & 1;
    let b2 = (moves >> 2usize) & 1;
    let b3 = (moves >> 3usize) & 1;
    assert(b0 <= 1 && b1 <= 1 && b2 <= 1 && b3 <= 1) by (bit_vector)
        requires
            b0 == (moves >> 0usize) & 1,
            b1 == (moves >> 1usize) & 1,
            b2 == (moves >> 2usize) & 1,
            b3 == (moves >> 3usize) & 1,
    ;
    assert(6 * l * b2 <= 6 * (n - 2) * b2 && 6 * l * b3 <= 6 * (n - 1) * b3 && 6 * (n - 2) * b2 <= 6 * 126 && 6 * (n - 1) * b3 <= 6 * 127) by (nonlinear_arith)
        requires
            l <= n - 2,
            b2 <= 1,
            b3 <= 1,
            n < 128,
            n >= 2,
    ;
}

impl MoveTable {
    /// The table of the moves of `rule` for dimension `n`: for every kind of
    /// move of its families (rotations about x, y, z; outer turns of U, F,
    /// R, D, B, L; inner turns at depths `2 ..= n / 2` and wide turns of
    /// widths `2 ..= n / 2`, face after face) and every turn amount, the
    /// packed cube of the move, named as [`Move::to_string`] names it.
    pub fn new(n: usize, rule: &MoveSet) -> (r: Result<Self, CubeError>)
        requires
            2 <= n < 128,
            trailing_ones(rule.turns as nat) <= 3,
            trailing_ones(rule.turns as nat) * moves_count(rule.moves, n as nat) > 0,
        ensures
            r matches Ok(t) && {
                &&& t.wf()
                &&& t.spec_arena().spec_n() == n
                &&& t.spec_arena().spec_len() == trailing_ones(rule.turns as nat) * moves_count(
                    rule.moves,
                    n as nat,
                )
                &&& t.spec_moves() == table_moves(n as nat, *rule)
                &&& forall|i: int|
                    0 <= i < t.spec_moves().len() ==> #[trigger] t.spec_arena().cube(i) == move_cube(
                        n as nat,
                        t.spec_moves()[i],
                    )
                &&& forall|i: int|
                    t.spec_moves().len() <= i < t.spec_arena().slots() ==> #[trigger] t.spec_arena().cube(i)
                        == identity_cube(n as nat)
            },
    {
        proof {
            lemma_kinds_fit(n as nat, rule.moves);
        }
        let ghost tn = trailing_ones(rule.turns as nat);
        let ghost mc = moves_count(rule.moves, n as nat);
        assert(tn * mc <= 3 * (3 + 6 + 6 * 126 + 6 * 127)) by (nonlinear_arith)
            requires
                tn <= 3,
                0 <= mc <= 3 + 6 + 6 * 126 + 6 * 127,
        ;
        let total = rule.total_moves(n);
        assert((total + 2) * arena_stride(n as u8 as nat) <= usize::MAX) by {
            lemma_stride_small(n as nat);
            assert((total + 2) * arena_stride(n as nat) <= 5000 * 5000) by (nonlinear_arith)
                requires
                    total + 2 <= 5000,
                    arena_stride(n as nat) <= 5000,
            ;
        }
        let mut arena = CubeArena::new_arena(n as u8, total);
        let mut cube = CubeVect::new(n);
        proof {
            cube.lemma_wf();
        }
        let qs = turns_of(rule);
        let kinds = table_kinds_of(n, rule);
        let ghost ms = with_turns(kinds@, qs@);
        assert(ms == table_moves(n as nat, *rule));
        let t_len = qs.len();
        let k_len = kinds.len();
        assert forall|j: int| 0 <= j < k_len implies move_layers_ok(Move { kind: #[trigger] kinds@[j], qturns: 1 }) by {
            let kd = kinds@[j];
            if kd matches MoveKind::FaceTurn { layer: LayerSpec::Inner { depth }, .. } {
                let e: Seq<MoveKind> = Seq::empty();
                let a = if has_bit(rule.moves, 0) { rotation_kinds() } else { e };
                let b = if has_bit(rule.moves, 1) { outer_kinds() } else { e };
                let c = if has_bit(rule.moves, 2) { inner_kinds(n as nat) } else { e };
                let w = if has_bit(rule.moves, 3) { wide_kinds(n as nat) } else { e };
                assert(kinds@ == a + b + c + w);
                if j >= a.len() + b.len() && j < a.len() + b.len() + c.len() {
                    let i = j - a.len() - b.len();
                    let l = layer_count(n as nat);
                    assert(kinds@[j] == c[i]);
                    assert(i % (l as int) >= 0);
                } else if j < a.len() {
                    assert(kinds@[j] == a[j]);
                } else if j < a.len() + b.len() {
                    assert(kinds@[j] == b[j - a.len()]);
                } else {
                    assert(kinds@[j] == w[j - a.len() - b.len() - c.len()]);
                }
            }
        }
        assert(k_len * t_len <= total) by (nonlinear_arith)
            requires
                k_len <= mc,
                t_len == tn,
                total == tn * mc,
        ;
        let mut moves: Vec<Move> = Vec::new();
        let mut names: Vec<String> = Vec::new();
        let mut k: usize = 0;
        assert(k * t_len == 0) by (nonlinear_arith)
            requires
                k == 0,
        ;
        assert(moves@ =~= ms.take(k * t_len));
        while k < k_len
            invariant
                2 <= n < 128,
                k <= k_len,
                k_len == kinds@.len(),
                t_len == qs@.len(),
                t_len <= 3,
                k_len * t_len <= total,
                forall|j: int| 0 <= j < t_len ==> 1 <= #[trigger] qs@[j] <= 3,
                ms == with_turns(kinds@, qs@),
                arena.wf(),
                arena.spec_n() == n,
                arena.spec_len() == total,
                cube.wf(),
                cube.spec_n() == n,
                moves@ == ms.take(k * t_len),
                names@.len() == moves@.len(),
                forall|i: int| 0 <= i < moves@.len() ==> (#[trigger] names@[i])@ == move_name(moves@[i]),
                (cube.spec_data(), cube.spec_ori()) == (home_points(n as nat), home_ori(n as nat)),
                coords_ok(home_points(n as nat)),
                coords_ok(home_ori(n as nat)),
                forall|i: int| 0 <= i < moves@.len() ==> #[trigger] arena.cube(i) == move_cube(n as nat, ms[i]),
                forall|i: int| moves@.len() <= i < arena.slots() ==> #[trigger] arena.cube(i) == identity_cube(n as nat),
                forall|j: int| 0 <= j < k_len ==> move_layers_ok(Move { kind: #[trigger] kinds@[j], qturns: 1 }),
            decreases k_len - k,
        {
            let mut t: usize = 0;
            while t < t_len
                invariant
                    2 <= n < 128,
                    k < k_len,
                    t <= t_len,
                    k_len == kinds@.len(),
                    t_len == qs@.len(),
                    t_len <= 3,
                    k_len * t_len <= total,
                    forall|j: int| 0 <= j < t_len ==> 1 <= #[trigger] qs@[j] <= 3,
                    ms == with_turns(kinds@, qs@),
                    arena.wf(),
                    arena.spec_n() == n,
                    arena.spec_len() == total,
                    cube.wf(),
                    cube.spec_n() == n,
                    moves@ == ms.take(k * t_len + t),
                    names@.len() == moves@.len(),
                    forall|i: int| 0 <= i < moves@.len() ==> (#[trigger] names@[i])@ == move_name(moves@[i]),
                    (cube.spec_data(), cube.spec_ori()) == (home_points(n as nat), home_ori(n as nat)),
                coords_ok(home_points(n as nat)),
                coords_ok(home_ori(n as nat)),
                    forall|i: int| 0 <= i < moves@.len() ==> #[trigger] arena.cube(i) == move_cube(n as nat, ms[i]),
                    forall|i: int| moves@.len() <= i < arena.slots() ==> #[trigger] arena.cube(i) == identity_cube(n as nat),
                    forall|j: int| 0 <= j < k_len ==> move_layers_ok(Move { kind: #[trigger] kinds@[j], qturns: 1 }),
                decreases t_len - t,
            {
                assert(k * t_len + t < k_len * t_len) by (nonlinear_arith)
                    requires
                        t < t_len,
                        k < k_len,
                ;
                let x = k * t_len + t;
                proof {
                    vstd::arithmetic::div_mod::lemma_fundamental_div_mod_converse(x as int, t_len as int, k as int, t as int);
                    assert(x < k_len * t_len) by (nonlinear_arith)
                        requires
                            x == k * t_len + t,
                            t < t_len,
                            k < k_len,
                    ;
                }
                let mv = Move { kind: kinds[k], qturns: qs[t] };
                assert(ms[x as int] == mv);
                assert(move_layers_ok(Move { kind: kinds@[k as int], qturns: 1 }));
                let ghost old_names = names@;
                let ghost old_moves = moves@;
                let ghost old_arena = arena;
                let ghost old_state = (cube.spec_data(), cube.spec_ori());
                record(&mut arena, &mut cube, &mut moves, &mut names, mv);
                proof {
                    law_move_undo(home_points(n as nat), home_ori(n as nat), n as nat, mv);
                    assert(moves@ =~= ms.take(x + 1));
                    assert forall|i: int| 0 <= i < moves@.len() implies (#[trigger] names@[i])@ == move_name(moves@[i]) by {
                        if i < old_moves.len() {
                            assert(names@[i] == names@.subrange(0, old_names.len() as int)[i]);
                        }
                    }
                    assert forall|i: int| 0 <= i < moves@.len() implies #[trigger] arena.cube(i) == move_cube(n as nat, ms[i]) by {
                        if i < old_moves.len() {
                            assert(old_arena.cube(i) == move_cube(n as nat, ms[i]));
                        }
                    }
                    assert forall|i: int| moves@.len() <= i < arena.slots() implies #[trigger] arena.cube(i) == identity_cube(n as nat) by {
                        assert(old_arena.cube(i) == identity_cube(n as nat));
                    }
                }
                t = t + 1;
            }
            proof {
                assert(k * t_len + t == (k + 1) * t_len) by (nonlinear_arith)
                    requires
                        t == t_len,
                ;
            }
            k = k + 1;
        }
        proof {
            assert(k * t_len == ms.len()) by (nonlinear_arith)
                requires
                    k == k_len,
                    ms.len() == k_len * t_len,
            ;
            assert(moves@ =~= ms);
        }
        Ok(MoveTable { arena, moves, moves_s: names })
    }
}

impl MoveTable {
    /// What a consistent table guarantees: a slot for every move and the
    /// name of every move.
    pub proof fn lemma_wf(&self)
        requires
            self.wf(),
        ensures
            self.spec_arena().wf(),
            self.spec_moves().len() <= self.spec_arena().spec_len(),
            self.spec_names().len() == self.spec_moves().len(),
            forall|i: int| 0 <= i < self.spec_moves().len() ==> #[trigger] self.spec_names()[i] == move_name(self.spec_moves()[i]),
    {
    }

    /// The arena of packed cubes: slot `i` holds the cube of move `i`.
    pub fn arena(&self) -> (r: &CubeArena)
        ensures
            *r == self.spec_arena(),
    {
        &self.arena
    }

    /// The moves, in table order: move `i` has its packed cube in slot `i`.
    pub fn moves(&self) -> (r: &[Move])
        ensures
            r@ == self.spec_moves(),
    {
        self.moves.as_slice()
    }

    /// The names of the moves, in table order.
    pub fn moves_s(&self) -> (r: &[String])
        ensures
            r@.map_values(|s: String| s@) == self.spec_names(),
    {
        self.moves_s.as_slice()
    }

    /// The packed cube of the first move named `mv`.
    pub fn get_move_s(&self, mv: &str) -> (r: &[u128])
        requires
            self.wf(),
            self.spec_names().contains(mv@),
        ensures
            r@ == self.spec_arena().cube(first_match(self.spec_names(), mv@, 0) as int),
    {
        proof {
            lemma_first_match(self.spec_names(), mv@, 0);
        }
        let key = mv.to_owned();
        let ghost names = self.spec_names();
        let mut i: usize = 0;
        while i < self.moves_s.len()
            invariant
                self.wf(),
                names == self.spec_names(),
                key@ == mv@,
                names.contains(mv@),
                i <= names.len(),
                first_match(names, mv@, 0) == first_match(names, mv@, i as nat),
            decreases names.len() - i,
        {
            assert(names[i as int] == self.moves_s@[i as int]@);
            if self.moves_s[i] == key {
                return self.arena.get_cube(i);
            }
            i = i + 1;
        }
        proof {
            let k = choose|k: int| 0 <= k < names.len() && names[k] == mv@;
            lemma_first_match(names, mv@, 0);
        }
        self.arena.get_cube(i)
    }

    /// The packed cube of the first occurrence of the move `mv`.
    pub fn get_move_m(&self, mv: &Move) -> (r: &[u128])
        requires
            self.wf(),
            self.spec_moves().contains(*mv),
        ensures
            r@ == self.spec_arena().cube(first_match(self.spec_moves(), *mv, 0) as int),
    {
        proof {
            lemma_first_match(self.spec_moves(), *mv, 0);
        }
        let ghost ms = self.spec_moves();
        let mut i: usize = 0;
        while i < self.moves.len()
            invariant
                self.wf(),
                ms == self.spec_moves(),
                ms.contains(*mv),
                i <= ms.len(),
                first_match(ms, *mv, 0) == first_match(ms, *mv, i as nat),
            decreases ms.len() - i,
        {
            if self.moves[i] == *mv {
                return self.arena.get_cube(i);
            }
            i = i + 1;
        }
        proof {
            lemma_first_match(ms, *mv, 0);
        }
        self.arena.get_cube(i)
    }
}

} // verus!
