//! Moves of the cube: turn amounts, faces, layers and the move table.
use vstd::prelude::*;
use vstd::string::StringExecFns;

pub use crate::table::MoveTable;
use crate::text::{i32_text, int_string};

verus! {

/// The families of moves a move set can contain.
#[derive(Debug, PartialEq, Eq, Structural, Clone, Copy)]
pub enum MoveFamily {
    Rotation,
    Outer,
    Inner,
    Wide,
}

/// The amount of a turn.
#[derive(Debug, PartialEq, Eq, Structural, Clone, Copy)]
pub enum Turn {
    Anticlockwise,
    Clockwise,
    Double,
}

/// Which layers a face turn moves.
#[derive(Debug, Clone, Copy, PartialEq, Eq, Structural, Hash)]
pub enum LayerSpec {
    Outer,
    Inner { depth: i32 },
    Wide { width: i32 },
}

/// The three axes of whole-cube rotations.
#[derive(Debug, Clone, Copy, PartialEq, Eq, Structural, Hash)]
pub enum Axis {
    Y,
    Z,
    X,
}

/// The six faces of the cube.
#[derive(Debug, Clone, Copy, PartialEq, Eq, Structural, Hash)]
pub enum Face {
    U,
    F,
    R,
    D,
    B,
    L,
}

/// A face turn of some layers, or a whole-cube rotation.
#[derive(Debug, Clone, Copy, PartialEq, Eq, Structural, Hash)]
pub enum MoveKind {
    FaceTurn { face: Face, layer: LayerSpec },
    Rotation { axis: Axis },
}

/// A move: what turns, and by how many quarter turns (1, 2 or 3).
#[derive(Debug, Clone, Copy, PartialEq, Eq, Structural, Hash)]
pub struct Move {
    pub kind: MoveKind,
    pub qturns: i8,
}


/// The remainder of `x` by `m` rounded towards zero, as Rust's `%` computes it.
pub open spec fn trunc_rem(x: int, m: int) -> int {
    if x >= 0 {
        x % m
    } else {
        -((-x) % m)
    }
}

/// The quarter turns of a turn amount.
pub open spec fn turn_qturns(t: Turn) -> i8 {
    match t {
        Turn::Anticlockwise => 3,
        Turn::Clockwise => 1,
        Turn::Double => 2,
    }
}

/// The position of a turn amount in the enumeration.
pub open spec fn turn_index(t: Turn) -> nat {
    match t {
        Turn::Anticlockwise => 0,
        Turn::Clockwise => 1,
        Turn::Double => 2,
    }
}

/// The position of a move family in the enumeration.
pub open spec fn family_index(m: MoveFamily) -> nat {
    match m {
        MoveFamily::Rotation => 0,
        MoveFamily::Outer => 1,
        MoveFamily::Inner => 2,
        MoveFamily::Wide => 3,
    }
}

impl Turn {
    /// The number of clockwise quarter turns: 3, 1 or 2.
    pub fn qturns(self) -> (r: i8)
        ensures
            r == turn_qturns(self),
    {
        match self {
            Turn::Anticlockwise => 3,
            Turn::Clockwise => 1,
            Turn::Double => 2,
        }
    }

    /// The turn amount at position `i` of the enumeration.
    pub fn from_usize(i: usize) -> (r: Self)
        requires
            i < 3,
        ensures
            turn_index(r) == i,
    {
        if i == 0 {
            Turn::Anticlockwise
        } else if i == 1 {
            Turn::Clockwise
        } else {
            Turn::Double
        }
    }
}

/// The axis of the whole-cube rotation that turns like a face.
pub open spec fn face_axis(f: Face) -> Axis {
    match f {
        Face::U | Face::D => Axis::X,
        Face::F | Face::B => Axis::Y,
        Face::R | Face::L => Axis::Z,
    }
}

impl Face {
    /// The axis of the face: U and D turn about X, F and B about Y, R and L about Z.
    pub fn to_axis(&self) -> (r: Axis)
        ensures
            r == face_axis(*self),
    {
        match self {
            Face::U | Face::D => Axis::X,
            Face::F | Face::B => Axis::Y,
            Face::R | Face::L => Axis::Z,
        }
    }
}

/// The quarter turns of the inverse of a move of `q` quarter turns.
pub open spec fn inverse_qturns(q: int) -> int {
    if trunc_rem(q + 2, 4) == 0 {
        2
    } else {
        trunc_rem(q + 2, 4)
    }
}

impl Move {
    /// The inverse move: the same layers turned the other way.
    pub fn invert(&self) -> (r: Self)
        requires
            self.qturns <= 125,
        ensures
            r.kind == self.kind,
            r.qturns == inverse_qturns(self.qturns as int),
    {
        let mut qturns = (self.qturns + 2) % 4;
        if qturns == 0 {
            qturns = 2;
        }
        Move { kind: self.kind, qturns }
    }
}


/// A set of move families and turn amounts, as bit masks: bit `i` of
/// `moves` stands for the family at position `i` (rotation, outer, inner,
/// wide), bit `i` of `turns` for the turn amount at position `i`
/// (anticlockwise, clockwise, double).
#[derive(Debug)]
pub struct MoveSet {
    pub moves: usize,
    pub turns: usize,
}

/// Bit `i` of `x` is set.
pub open spec fn has_bit(x: usize, i: nat) -> bool {
    (x >> i) & 1 == 1
}

/// The mask of the move families in `s`.
pub open spec fn family_mask(s: Seq<MoveFamily>) -> usize
    decreases s.len(),
{
    if s.len() == 0 {
        0
    } else {
        family_mask(s.drop_last()) | (1usize << family_index(s.last()))
    }
}

/// The mask of the turn amounts in `s`.
pub open spec fn turn_mask(s: Seq<Turn>) -> usize
    decreases s.len(),
{
    if s.len() == 0 {
        0
    } else {
        turn_mask(s.drop_last()) | (1usize << turn_index(s.last()))
    }
}

/// The number of consecutive set bits of `x` from bit 0 up.
pub open spec fn trailing_ones(x: nat) -> nat
    decreases x,
{
    if x % 2 == 1 {
        1 + trailing_ones(x / 2)
    } else {
        0
    }
}

/// The number of moves of the families set in `moves` for dimension `n`:
/// 3 rotations, 6 outer turns, `6 * (n - 2)` inner and `6 * (n - 1)` wide
/// turns, each counted once per turn amount.
pub open spec fn moves_count(moves: usize, n: nat) -> int {
    3 * ((moves >> 0usize) & 1) + 6 * ((moves >> 1usize) & 1) + 6 * (n - 2) * ((moves >> 2usize) & 1)
        + 6 * (n - 1) * ((moves >> 3usize) & 1)
}

/// Setting bit `i` of `a` changes bit `i` only.
proof fn lemma_set_bit(a: usize, i: usize, j: usize)
    requires
        i < 4,
        j < 4,
    ensures
        ((a | (1usize << i)) >> j) & 1 == (if i == j {
            1
        } else {
            (a >> j) & 1
        }),
        (0usize >> j) & 1 == 0,
        (a >> j) & 1 <= 1,
{
    assert(((a | (1usize << i)) >> j) & 1 == (if i == j {
        1
    } else {
        (a >> j) & 1
    }) && (0usize >> j) & 1 == 0 && (a >> j) & 1 <= 1) by (bit_vector)
        requires
            i < 4,
            j < 4,
    ;
}

/// A family is in the mask of a list exactly when the list holds it.
pub proof fn law_family_mask(s: Seq<MoveFamily>, f: MoveFamily)
    ensures
        has_bit(family_mask(s), family_index(f)) <==> s.contains(f),
    decreases s.len(),
{
    if s.len() == 0 {
        lemma_set_bit(0, 0, family_index(f) as usize);
    } else {
        law_family_mask(s.drop_last(), f);
        lemma_set_bit(family_mask(s.drop_last()), family_index(s.last()) as usize, family_index(f) as usize);
        if s.drop_last().contains(f) {
            let k = choose|k: int| 0 <= k < s.drop_last().len() && s.drop_last()[k] == f;
            assert(s[k] == f);
        }
        if s.contains(f) && s.last() != f {
            let k = choose|k: int| 0 <= k < s.len() && s[k] == f;
            assert(s.drop_last()[k] == f);
        }
    }
}

/// A turn amount is in the mask of a list exactly when the list holds it.
pub proof fn law_turn_mask(s: Seq<Turn>, t: Turn)
    ensures
        has_bit(turn_mask(s), turn_index(t)) <==> s.contains(t),
    decreases s.len(),
{
    if s.len() == 0 {
        lemma_set_bit(0, 0, turn_index(t) as usize);
    } else {
        law_turn_mask(s.drop_last(), t);
        lemma_set_bit(turn_mask(s.drop_last()), turn_index(s.last()) as usize, turn_index(t) as usize);
        if s.drop_last().contains(t) {
            let k = choose|k: int| 0 <= k < s.drop_last().len() && s.drop_last()[k] == t;
            assert(s[k] == t);
        }
        if s.contains(t) && s.last() != t {
            let k = choose|k: int| 0 <= k < s.len() && s[k] == t;
            assert(s.drop_last()[k] == t);
        }
    }
}

proof fn lemma_trailing_le(x: nat)
    ensures
        trailing_ones(x) <= x,
        x % 2 == 1 ==> trailing_ones(x) >= 1,
    decreases x,
{
    if x % 2 == 1 {
        lemma_trailing_le(x / 2);
    }
}

fn family_position(m: MoveFamily) -> (r: usize)
    ensures
        r == family_index(m),
{
    match m {
        MoveFamily::Rotation => 0,
        MoveFamily::Outer => 1,
        MoveFamily::Inner => 2,
        MoveFamily::Wide => 3,
    }
}

fn turn_position(t: Turn) -> (r: usize)
    ensures
        r == turn_index(t),
{
    match t {
        Turn::Anticlockwise => 0,
        Turn::Clockwise => 1,
        Turn::Double => 2,
    }
}

impl MoveSet {
    /// A move set with the given masks.
    pub fn _new(moves: usize, turns: usize) -> (r: Self)
        ensures
            r.moves == moves,
            r.turns == turns,
    {
        MoveSet { moves, turns }
    }

    /// The move set of the listed families and turn amounts.
    pub fn new(v_moves: Vec<MoveFamily>, v_turns: Vec<Turn>) -> (r: Self)
        ensures
            r.moves == family_mask(v_moves@),
            r.turns == turn_mask(v_turns@),
    {
        let mut moves: usize = 0;
        let mut i: usize = 0;
        while i < v_moves.len()
            invariant
                i <= v_moves@.len(),
                moves == family_mask(v_moves@.subrange(0, i as int)),
            decreases v_moves@.len() - i,
        {
            let b = family_position(v_moves[i]);
            proof {
                let t = v_moves@.subrange(0, i + 1);
                assert(t.drop_last() =~= v_moves@.subrange(0, i as int));
            }
            moves = moves | (1usize << b);
            i = i + 1;
        }
        assert(v_moves@.subrange(0, v_moves@.len() as int) =~= v_moves@);
        let mut turns: usize = 0;
        let mut j: usize = 0;
        while j < v_turns.len()
            invariant
                j <= v_turns@.len(),
                turns == turn_mask(v_turns@.subrange(0, j as int)),
            decreases v_turns@.len() - j,
        {
            let b = turn_position(v_turns[j]);
            proof {
                let t = v_turns@.subrange(0, j + 1);
                assert(t.drop_last() =~= v_turns@.subrange(0, j as int));
            }
            turns = turns | (1usize << b);
            j = j + 1;
        }
        assert(v_turns@.subrange(0, v_turns@.len() as int) =~= v_turns@);
        MoveSet { moves, turns }
    }

    /// The number of moves per turn amount for dimension `n`.
    pub fn get_moves(&self, n: usize) -> (r: usize)
        requires
            n >= 2,
            3 + 6 + 6 * (n - 2) + 6 * (n - 1) <= usize::MAX,
        ensures
            r == moves_count(self.moves, n as nat),
    {
        let sums: [usize; 4] = [3, 6, 6 * (n - 2), 6 * (n - 1)];
        let b0 = (self.moves >> 0usize) & 1;
        let b1 = (self.moves >> 1usize) & 1;
        let b2 = (self.moves >> 2usize) & 1;
        let b3 = (self.moves >> 3usize) & 1;
        proof {
            lemma_set_bit(self.moves, 0, 0);
            lemma_set_bit(self.moves, 0, 1);
            lemma_set_bit(self.moves, 0, 2);
            lemma_set_bit(self.moves, 0, 3);
        }
        assert(sums[2] * b2 <= sums[2] && sums[3] * b3 <= sums[3]) by (nonlinear_arith)
            requires
                b2 <= 1,
                b3 <= 1,
        ;
        let mut sum: usize = sums[0] * b0;
        sum = sum + sums[1] * b1;
        sum = sum + sums[2] * b2;
        sum = sum + sums[3] * b3;
        sum
    }

    /// The number of turn amounts: the consecutive set bits of `turns` from
    /// bit 0 up.
    pub fn get_turns(&self) -> (r: usize)
        ensures
            r == trailing_ones(self.turns as nat),
    {
        let mut x = self.turns;
        let mut count: usize = 0;
        proof {
            lemma_trailing_le(x as nat);
        }
        while x % 2 == 1
            invariant
                count + trailing_ones(x as nat) == trailing_ones(self.turns as nat),
                trailing_ones(self.turns as nat) <= self.turns,
            decreases x,
        {
            proof {
                lemma_trailing_le(x as nat);
            }
            x = x / 2;
            count = count + 1;
        }
        count
    }

    /// The number of moves of the set for dimension `n`.
    pub fn total_moves(&self, n: usize) -> (r: usize)
        requires
            n >= 2,
            3 + 6 + 6 * (n - 2) + 6 * (n - 1) <= usize::MAX,
            trailing_ones(self.turns as nat) * moves_count(self.moves, n as nat) <= usize::MAX,
        ensures
            r == trailing_ones(self.turns as nat) * moves_count(self.moves, n as nat),
    {
        self.get_turns() * self.get_moves(n)
    }

    /// Whether the family is in the set.
    pub fn contains_move(&self, mv: MoveFamily) -> (r: bool)
        ensures
            r == has_bit(self.moves, family_index(mv)),
    {
        (self.moves >> family_position(mv)) & 1 == 1
    }

    /// Whether the turn amount is in the set.
    pub fn contains_turn(&self, t: Turn) -> (r: bool)
        ensures
            r == has_bit(self.turns, turn_index(t)),
    {
        (self.turns >> turn_position(t)) & 1 == 1
    }

    /// The turn amounts at positions `0 .. get_turns()`.
    pub fn create_turns(&self) -> (r: Vec<Turn>)
        requires
            trailing_ones(self.turns as nat) <= 3,
        ensures
            r@.len() == trailing_ones(self.turns as nat),
            forall|i: int| 0 <= i < r@.len() ==> turn_index(#[trigger] r@[i]) == i,
    {
        let count = self.get_turns();
        let mut v: Vec<Turn> = Vec::new();
        let mut i: usize = 0;
        while i < count
            invariant
                count <= 3,
                i <= count,
                v@.len() == i,
                forall|k: int| 0 <= k < i ==> turn_index(#[trigger] v@[k]) == k,
            decreases count - i,
        {
            v.push(Turn::from_usize(i));
            i = i + 1;
        }
        v
    }
}


/// The letter of a face.
pub open spec fn face_letter(f: Face) -> Seq<char> {
    match f {
        Face::U => "U"@,
        Face::D => "D"@,
        Face::F => "F"@,
        Face::B => "B"@,
        Face::R => "R"@,
        Face::L => "L"@,
    }
}

/// The letter of a rotation axis.
pub open spec fn axis_letter(a: Axis) -> Seq<char> {
    match a {
        Axis::X => "x"@,
        Axis::Y => "y"@,
        Axis::Z => "z"@,
    }
}

/// The name of what a move turns: the face letter, preceded by the depth
/// of an inner layer other than 1 or the width of a wide turn other than 2,
/// followed by `w` for wide turns; or the axis letter of a rotation.
pub open spec fn kind_text(k: MoveKind) -> Seq<char> {
    match k {
        MoveKind::FaceTurn { face, layer } => match layer {
            LayerSpec::Outer => face_letter(face),
            LayerSpec::Inner { depth } => (if depth != 1 {
                i32_text(depth)
            } else {
                Seq::empty()
            }) + face_letter(face),
            LayerSpec::Wide { width } => (if width != 2 {
                i32_text(width)
            } else {
                Seq::empty()
            }) + face_letter(face) + "w"@,
        },
        MoveKind::Rotation { axis } => axis_letter(axis),
    }
}

/// The name of a move: nothing for a whole number of turns, otherwise the
/// name of what it turns followed by `2` for a half turn and `'` for an
/// anticlockwise quarter turn.
pub open spec fn move_name(m: Move) -> Seq<char> {
    let q = trunc_rem(m.qturns + 4, 4);
    if q == 0 {
        Seq::empty()
    } else if q == 2 {
        kind_text(m.kind) + "2"@
    } else if q == 3 {
        kind_text(m.kind) + "'"@
    } else {
        kind_text(m.kind)
    }
}

fn append_str(s: String, t: &str) -> (r: String)
    ensures
        r@ == s@ + t@,
{
    let mut u = s;
    u.append(t);
    u
}

fn face_str(f: Face) -> (r: &'static str)
    ensures
        r@ == face_letter(f),
{
    proof {
        reveal_strlit("U");
        reveal_strlit("D");
        reveal_strlit("F");
        reveal_strlit("B");
        reveal_strlit("R");
        reveal_strlit("L");
    }
    match f {
        Face::U => "U",
        Face::D => "D",
        Face::F => "F",
        Face::B => "B",
        Face::R => "R",
        Face::L => "L",
    }
}

impl Move {
    /// The name of the move, such as `R`, `2U'`, `3Fw2` or `x`.
    pub fn to_string(&self) -> (r: String)
        requires
            self.qturns <= 123,
        ensures
            r@ == move_name(*self),
    {
        let qturns = (self.qturns + 4) % 4;
        let s: String = match self.kind {
            MoveKind::FaceTurn { face, layer } => {
                let letter = face_str(face);
                match layer {
                    LayerSpec::Outer => String::from_str(letter),
                    LayerSpec::Inner { depth } => {
                        let mut t = String::new();
                        if depth != 1 {
                            t = int_string(depth as i64);
                        }
                        append_str(t, letter)
                    },
                    LayerSpec::Wide { width } => {
                        let mut t = String::new();
                        if width != 2 {
                            t = int_string(width as i64);
                        }
                        let t = append_str(t, letter);
                        proof {
                            reveal_strlit("w");
                        }
                        append_str(t, "w")
                    },
                }
            },
            MoveKind::Rotation { axis } => {
                proof {
                    reveal_strlit("x");
                    reveal_strlit("y");
                    reveal_strlit("z");
                }
                match axis {
                    Axis::X => String::from_str("x"),
                    Axis::Y => String::from_str("y"),
                    Axis::Z => String::from_str("z"),
                }
            },
        };
        assert(s@ == kind_text(self.kind)) by {
            assert(Seq::<char>::empty() + face_letter(match self.kind { MoveKind::FaceTurn { face, .. } => face, _ => Face::U }) =~= face_letter(match self.kind { MoveKind::FaceTurn { face, .. } => face, _ => Face::U }));
        }
        if qturns == 0 {
            return String::new();
        } else if qturns == 2 {
            proof {
                reveal_strlit("2");
            }
            return append_str(s, "2");
        } else if qturns == 3 {
            proof {
                reveal_strlit("'");
            }
            return append_str(s, "'");
        }
        s
    }
}

} // verus!
