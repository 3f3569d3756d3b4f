//! Decimal text of integers, and the debug text of moves and of lists of
//! (perm, ori) pairs, as the standard formatting machinery writes them.
use vstd::prelude::*;
use vstd::string::StringExecFns;

use crate::cube_moves::{Axis, Face, LayerSpec, Move, MoveKind};

verus! {

/// The character of the decimal digit `d`.
pub open spec fn digit(d: nat) -> char {
    if d == 0 {
        '0'
    } else if d == 1 {
        '1'
    } else if d == 2 {
        '2'
    } else if d == 3 {
        '3'
    } else if d == 4 {
        '4'
    } else if d == 5 {
        '5'
    } else if d == 6 {
        '6'
    } else if d == 7 {
        '7'
    } else if d == 8 {
        '8'
    } else {
        '9'
    }
}

/// The decimal digits of `x`, most significant first, without leading zeros.
pub open spec fn dec_text(x: nat) -> Seq<char>
    decreases x,
{
    if x < 10 {
        seq![digit(x)]
    } else {
        dec_text(x / 10).push(digit(x % 10))
    }
}

/// The decimal text of `x`: its digits, after a minus sign when negative.
pub open spec fn int_text(x: int) -> Seq<char> {
    if x < 0 {
        seq!['-'] + dec_text((-x) as nat)
    } else {
        dec_text(x as nat)
    }
}

/// The decimal text of an unsigned integer, as `format!("{}", x)` writes it.
pub open spec fn usize_text(x: usize) -> Seq<char> {
    int_text(x as int)
}

/// The decimal text of a small signed integer, as `format!("{}", x)` writes it.
pub open spec fn i8_text(x: i8) -> Seq<char> {
    int_text(x as int)
}

/// The decimal text of an `i32`, as `format!("{}", x)` writes it.
pub open spec fn i32_text(x: i32) -> Seq<char> {
    int_text(x as int)
}

/// `text` followed by `more`.
pub(crate) fn joined(text: String, more: String) -> (r: String)
    ensures
        r@ == text@ + more@,
{
    let mut t = text;
    t.append(more.as_str());
    t
}

/// A string holding the literal `s`.
pub(crate) fn lit(s: &str) -> (r: String)
    ensures
        r@ == s@,
{
    String::from_str(s)
}

/// The digit `d` as a string.
fn digit_string(d: u64) -> (r: String)
    requires
        d < 10,
    ensures
        r@ == seq![digit(d as nat)],
{
    proof {
        reveal_strlit("0");
        reveal_strlit("1");
        reveal_strlit("2");
        reveal_strlit("3");
        reveal_strlit("4");
        reveal_strlit("5");
        reveal_strlit("6");
        reveal_strlit("7");
        reveal_strlit("8");
        reveal_strlit("9");
    }
    let r = if d == 0 {
        lit("0")
    } else if d == 1 {
        lit("1")
    } else if d == 2 {
        lit("2")
    } else if d == 3 {
        lit("3")
    } else if d == 4 {
        lit("4")
    } else if d == 5 {
        lit("5")
    } else if d == 6 {
        lit("6")
    } else if d == 7 {
        lit("7")
    } else if d == 8 {
        lit("8")
    } else {
        lit("9")
    };
    assert(r@ =~= seq![digit(d as nat)]);
    r
}

/// The decimal digits of `x`.
fn dec_string(x: u64) -> (r: String)
    ensures
        r@ == dec_text(x as nat),
    decreases x,
{
    if x < 10 {
        digit_string(x)
    } else {
        let t = joined(dec_string(x / 10), digit_string(x % 10));
        assert(t@ =~= dec_text(x as nat));
        t
    }
}

/// The decimal text of `x`.
pub(crate) fn int_string(x: i64) -> (r: String)
    ensures
        r@ == int_text(x as int),
{
    if x < 0 {
        let m: u64 = (-(x + 1)) as u64 + 1;
        proof {
            reveal_strlit("-");
        }
        let t = joined(lit("-"), dec_string(m));
        assert(t@ =~= int_text(x as int));
        t
    } else {
        dec_string(x as u64)
    }
}

/// `format!("{}", x)` on an unsigned integer.
pub(crate) fn usize_string(x: usize) -> (r: String)
    ensures
        r@ == usize_text(x),
{
    let t = dec_string(x as u64);
    assert(t@ == usize_text(x));
    t
}

/// The debug text of a (perm, ori) pair: `(p, o)`.
pub open spec fn pair_text(p: (u8, u8)) -> Seq<char> {
    "("@ + int_text(p.0 as int) + ", "@ + int_text(p.1 as int) + ")"@
}

/// The debug texts of the entries of a list of pairs, each after `, `
/// but the first.
pub open spec fn pair_items(v: Seq<(u8, u8)>) -> Seq<char>
    decreases v.len(),
{
    if v.len() == 0 {
        Seq::empty()
    } else if v.len() == 1 {
        pair_text(v[0])
    } else {
        pair_items(v.drop_last()) + ", "@ + pair_text(v.last())
    }
}

/// The debug text of a list of (perm, ori) pairs, as `format!("{:?}", v)`
/// writes it: `[(p, o), (p, o)]`.
pub open spec fn pairs_text(v: Seq<(u8, u8)>) -> Seq<char> {
    "["@ + pair_items(v) + "]"@
}

/// The debug text of a list of (perm, ori) pairs.
pub(crate) fn pairs_string(v: &Vec<(u8, u8)>) -> (r: String)
    ensures
        r@ == pairs_text(v@),
{
    let mut t = String::new();
    let mut i: usize = 0;
    while i < v.len()
        invariant
            i <= v@.len(),
            t@ == pair_items(v@.take(i as int)),
        decreases v@.len() - i,
    {
        let (a, b) = v[i];
        let s = joined(lit("("), int_string(a as i64));
        let s = joined(s, lit(", "));
        let s = joined(s, int_string(b as i64));
        let s = joined(s, lit(")"));
        assert(v@.take(i as int + 1).drop_last() =~= v@.take(i as int));
        if i == 0 {
            t = s;
        } else {
            t = joined(t, lit(", "));
            t = joined(t, s);
        }
        i = i + 1;
    }
    assert(v@.take(i as int) =~= v@);
    let t = joined(lit("["), t);
    joined(t, lit("]"))
}

/// The debug text of a face: its variant name.
pub open spec fn face_debug(f: Face) -> Seq<char> {
    match f {
        Face::U => "U"@,
        Face::F => "F"@,
        Face::R => "R"@,
        Face::D => "D"@,
        Face::B => "B"@,
        Face::L => "L"@,
    }
}

/// The debug text of an axis: its variant name.
pub open spec fn axis_debug(a: Axis) -> Seq<char> {
    match a {
        Axis::Y => "Y"@,
        Axis::Z => "Z"@,
        Axis::X => "X"@,
    }
}

/// The debug text of a layer choice, as its derived `Debug` writes it.
pub open spec fn layer_debug(l: LayerSpec) -> Seq<char> {
    match l {
        LayerSpec::Outer => "Outer"@,
        LayerSpec::Inner { depth } => "Inner { depth: "@ + i32_text(depth) + " }"@,
        LayerSpec::Wide { width } => "Wide { width: "@ + i32_text(width) + " }"@,
    }
}

/// The debug text of what a move turns, as its derived `Debug` writes it.
pub open spec fn kind_debug(k: MoveKind) -> Seq<char> {
    match k {
        MoveKind::FaceTurn { face, layer } => "FaceTurn { face: "@ + face_debug(face) + ", layer: "@
            + layer_debug(layer) + " }"@,
        MoveKind::Rotation { axis } => "Rotation { axis: "@ + axis_debug(axis) + " }"@,
    }
}

/// The debug text of a move, as its derived `Debug` writes it:
/// `Move { kind: ..., qturns: q }`.
pub open spec fn move_text(m: Move) -> Seq<char> {
    "Move { kind: "@ + kind_debug(m.kind) + ", qturns: "@ + i8_text(m.qturns) + " }"@
}

/// The debug texts of the moves of a list, each after `, ` but the first.
pub open spec fn move_items(v: Seq<Move>) -> Seq<char>
    decreases v.len(),
{
    if v.len() == 0 {
        Seq::empty()
    } else if v.len() == 1 {
        move_text(v[0])
    } else {
        move_items(v.drop_last()) + ", "@ + move_text(v.last())
    }
}

/// The debug text of a list of moves, as `format!("{:?}", v)` writes it.
pub open spec fn moves_text(v: Seq<Move>) -> Seq<char> {
    "["@ + move_items(v) + "]"@
}

/// The debug text of a face.
fn face_debug_string(f: Face) -> (r: String)
    ensures
        r@ == face_debug(f),
{
    match f {
        Face::U => lit("U"),
        Face::F => lit("F"),
        Face::R => lit("R"),
        Face::D => lit("D"),
        Face::B => lit("B"),
        Face::L => lit("L"),
    }
}

/// The debug text of a layer choice.
fn layer_debug_string(l: LayerSpec) -> (r: String)
    ensures
        r@ == layer_debug(l),
{
    match l {
        LayerSpec::Outer => lit("Outer"),
        LayerSpec::Inner { depth } => {
            let t = joined(lit("Inner { depth: "), int_string(depth as i64));
            joined(t, lit(" }"))
        },
        LayerSpec::Wide { width } => {
            let t = joined(lit("Wide { width: "), int_string(width as i64));
            joined(t, lit(" }"))
        },
    }
}

/// The debug text of a move.
pub(crate) fn move_string(m: &Move) -> (r: String)
    ensures
        r@ == move_text(*m),
{
    let k = match m.kind {
        MoveKind::FaceTurn { face, layer } => {
            let t = joined(lit("FaceTurn { face: "), face_debug_string(face));
            let t = joined(t, lit(", layer: "));
            let t = joined(t, layer_debug_string(layer));
            joined(t, lit(" }"))
        },
        MoveKind::Rotation { axis } => {
            let a = match axis {
                Axis::Y => lit("Y"),
                Axis::Z => lit("Z"),
                Axis::X => lit("X"),
            };
            let t = joined(lit("Rotation { axis: "), a);
            joined(t, lit(" }"))
        },
    };
    let t = joined(lit("Move { kind: "), k);
    let t = joined(t, lit(", qturns: "));
    let t = joined(t, int_string(m.qturns as i64));
    joined(t, lit(" }"))
}

/// The debug text of a list of moves.
pub(crate) fn moves_string(v: &Vec<Move>) -> (r: String)
    ensures
        r@ == moves_text(v@),
{
    let mut t = String::new();
    let mut i: usize = 0;
    while i < v.len()
        invariant
            i <= v@.len(),
            t@ == move_items(v@.take(i as int)),
        decreases v@.len() - i,
    {
        let s = move_string(&v[i]);
        assert(v@.take(i as int + 1).drop_last() =~= v@.take(i as int));
        if i == 0 {
            t = s;
        } else {
            t = joined(t, lit(", "));
            t = joined(t, s);
        }
        i = i + 1;
    }
    assert(v@.take(i as int) =~= v@);
    let t = joined(lit("["), t);
    joined(t, lit("]"))
}

} // verus!
