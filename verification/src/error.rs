//! The error type of the library.
use vstd::prelude::*;

use crate::cube_moves::Move;
use crate::cube_vect::Point3;
use crate::text::{
    i8_text, int_string, joined, lit, move_string, move_text, moves_string, moves_text, pairs_string,
    pairs_text, usize_string, usize_text,
};

verus! {

/// The result of an operation of the library.
pub type Result<T> = core::result::Result<T, CubeError>;

/// Error type for the cube library.
///
/// - input errors: invalid arguments passed to a constructor;
/// - state errors: a cube configuration violates a group-theoretic
///   invariant (orientation sum, parity);
/// - move errors: an unknown or disallowed move;
/// - algorithm errors: a move sequence that cannot be conjugated;
/// - vector errors: an inconsistent geometric representation.
#[derive(Debug)]
pub enum CubeError {
    /// The cube dimension `got` is not supported (must be >= 2).
    InvalidDimension { got: usize },
    /// A piece orbit whose orientations do not add up to 0 modulo `mod_`.
    InvalidOrientation { got: Vec<(u8, u8)>, mod_: usize },
    /// A piece orbit with the wrong permutation parity.
    InvalidPermutation { got: Vec<(u8, u8)> },
    /// A `Move` value that is not in the move table.
    InvalidMoveM { got: Move, expected: Vec<Move> },
    /// A move name that is not in the move table.
    InvalidMoveS { got: String, expected: Vec<String> },
    /// A conjugation by a move that is not a whole-cube rotation.
    InvalidMoveConjugate { got: Move },
    /// A cubie with a coordinate farther than `half` from the centre.
    InvalidVectorDimension { i: usize, p: Point3, half: i8 },
    /// Two cubies at the same position.
    DuplicateVector { i: usize, p: Point3, hash: usize, other: usize, other_p: Point3 },
    /// A geometric cube with the wrong number of cubies.
    InvalidLength { got: usize, expected: usize },
}


/// The debug text of a string (quoted and escaped), as `format!("{:?}", s)` writes it.
pub uninterp spec fn quoted_text(s: Seq<char>) -> Seq<char>;

/// `format!("{:?}", s)` on a string: std's `Debug` for `String`, which
/// quotes the string and escapes its special characters.
#[verifier::external_body]
fn quoted_text_of(s: &String) -> (r: String)
    ensures
        r@ == quoted_text(s@),
{
    format!("{:?}", s)
}

/// The quoted texts of the strings of a list, each after `, ` but the first.
pub open spec fn string_items(v: Seq<Seq<char>>) -> Seq<char>
    decreases v.len(),
{
    if v.len() == 0 {
        Seq::empty()
    } else if v.len() == 1 {
        quoted_text(v[0])
    } else {
        string_items(v.drop_last()) + ", "@ + quoted_text(v.last())
    }
}

/// The debug text of a list of strings, as `format!("{:?}", v)` writes it.
pub open spec fn strings_text(v: Seq<Seq<char>>) -> Seq<char> {
    "["@ + string_items(v) + "]"@
}

/// The debug text of a list of strings.
fn strings_text_of(v: &Vec<String>) -> (r: String)
    ensures
        r@ == strings_text(v.deep_view()),
{
    let mut t = String::new();
    let mut i: usize = 0;
    while i < v.len()
        invariant
            i <= v@.len(),
            t@ == string_items(v.deep_view().take(i as int)),
        decreases v@.len() - i,
    {
        let s = quoted_text_of(&v[i]);
        assert(v.deep_view().take(i as int + 1).drop_last() =~= v.deep_view().take(i as int));
        if i == 0 {
            t = s;
        } else {
            t = joined(t, lit(", "));
            t = joined(t, s);
        }
        i = i + 1;
    }
    assert(v.deep_view().take(i as int) =~= v.deep_view());
    let t = joined(lit("["), t);
    joined(t, lit("]"))
}

/// The text of a point: `(x, y, z)`.
pub open spec fn point_text(p: Point3) -> Seq<char> {
    "("@ + i8_text(p.x) + ", "@ + i8_text(p.y) + ", "@ + i8_text(p.z) + ")"@
}

/// The message of an error.
pub open spec fn error_text(e: CubeError) -> Seq<char> {
    match e {
        CubeError::InvalidDimension { got } => "Invalid dimension: expected 2 <= dimension, got "@
            + usize_text(got),
        CubeError::InvalidOrientation { got, mod_ } => "Invalid orientation: got "@ + pairs_text(
            got@,
        ) + ", modulus: "@ + usize_text(mod_),
        CubeError::InvalidPermutation { got } => "Invalid permutation: violated parity, got "@
            + pairs_text(got@),
        CubeError::InvalidMoveM { got, expected } => "Invalid move: expected "@ + moves_text(
            expected@,
        ) + ", got "@ + move_text(got),
        CubeError::InvalidMoveS { got, expected } => "Invalid move: expected "@ + strings_text(
            expected.deep_view(),
        ) + ", got "@ + quoted_text(got@),
        CubeError::InvalidMoveConjugate { got } => "Invalid move: expected [X, Y, Z], got "@
            + move_text(got),
        CubeError::InvalidVectorDimension { i, p, half } => "Piece "@ + usize_text(i) + " at "@
            + point_text(p) + ": coordinate out of bounds (max "@ + i8_text(half) + ")"@,
        CubeError::DuplicateVector { i, p, hash, other, other_p } => "Duplicate position at piece "@
            + usize_text(i) + ": "@ + point_text(p) + " (hash "@ + usize_text(hash)
            + ")\n  already held by piece "@ + usize_text(other) + ": "@ + point_text(other_p),
        CubeError::InvalidLength { got, expected } => "CubeVect: expected "@ + usize_text(expected)
            + " cubies, got "@ + usize_text(got),
    }
}

/// The text of a point: `(x, y, z)`.
fn point_string(p: Point3) -> (r: String)
    ensures
        r@ == point_text(p),
{
    let t = joined(lit("("), int_string(p.x as i64));
    let t = joined(t, lit(", "));
    let t = joined(t, int_string(p.y as i64));
    let t = joined(t, lit(", "));
    let t = joined(t, int_string(p.z as i64));
    joined(t, lit(")"))
}

impl Point3 {
    /// The text of the point, `(x, y, z)`, as its `Display` writes it.
    pub fn to_string(&self) -> (r: String)
        ensures
            r@ == point_text(*self),
    {
        point_string(*self)
    }
}

impl CubeError {
    /// The message of the error.
    pub fn to_string(&self) -> (r: String)
        ensures
            r@ == error_text(*self),
    {
        match self {
            CubeError::InvalidDimension { got } => joined(
                lit("Invalid dimension: expected 2 <= dimension, got "),
                usize_string(*got),
            ),
            CubeError::InvalidOrientation { got, mod_ } => {
                let t = joined(lit("Invalid orientation: got "), pairs_string(got));
                let t = joined(t, lit(", modulus: "));
                joined(t, usize_string(*mod_))
            },
            CubeError::InvalidPermutation { got } => joined(
                lit("Invalid permutation: violated parity, got "),
                pairs_string(got),
            ),
            CubeError::InvalidMoveM { got, expected } => {
                let t = joined(lit("Invalid move: expected "), moves_string(expected));
                let t = joined(t, lit(", got "));
                joined(t, move_string(got))
            },
            CubeError::InvalidMoveS { got, expected } => {
                let t = joined(lit("Invalid move: expected "), strings_text_of(expected));
                let t = joined(t, lit(", got "));
                joined(t, quoted_text_of(got))
            },
            CubeError::InvalidMoveConjugate { got } => joined(
                lit("Invalid move: expected [X, Y, Z], got "),
                move_string(got),
            ),
            CubeError::InvalidVectorDimension { i, p, half } => {
                let t = joined(lit("Piece "), usize_string(*i));
                let t = joined(t, lit(" at "));
                let t = joined(t, point_string(*p));
                let t = joined(t, lit(": coordinate out of bounds (max "));
                let t = joined(t, int_string(*half as i64));
                joined(t, lit(")"))
            },
            CubeError::DuplicateVector { i, p, hash, other, other_p } => {
                let t = joined(lit("Duplicate position at piece "), usize_string(*i));
                let t = joined(t, lit(": "));
                let t = joined(t, point_string(*p));
                let t = joined(t, lit(" (hash "));
                let t = joined(t, usize_string(*hash));
                let t = joined(t, lit(")\n  already held by piece "));
                let t = joined(t, usize_string(*other));
                let t = joined(t, lit(": "));
                joined(t, point_string(*other_p))
            },
            CubeError::InvalidLength { got, expected } => {
                let t = joined(lit("CubeVect: expected "), usize_string(*expected));
                let t = joined(t, lit(" cubies, got "));
                joined(t, usize_string(*got))
            },
        }
    }
}

} // verus!
