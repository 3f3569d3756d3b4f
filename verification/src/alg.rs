//! Algorithms: sequences of moves.
use vstd::prelude::*;

use crate::cube_moves::{Move, MoveKind};
use crate::error::CubeError;
use crate::table::inverse_move;

verus! {

/// A sequence of moves, applied first to last.
pub struct Alg {
    moves: Vec<Move>,
}

/// The moves that undo `s`: each move of `s` inverted, last move first.
pub open spec fn inverse_moves(s: Seq<Move>) -> Seq<Move> {
    Seq::new(s.len(), |i: int| inverse_move(s[s.len() - 1 - i]))
}

impl Alg {
    /// The moves.
    pub closed spec fn spec_moves(&self) -> Seq<Move> {
        self.moves@
    }

    /// The empty algorithm.
    pub fn new() -> (r: Self)
        ensures
            r.spec_moves() == Seq::<Move>::empty(),
    {
        Alg { moves: Vec::new() }
    }

    /// The moves.
    pub fn moves(&self) -> (r: &[Move])
        ensures
            r@ == self.spec_moves(),
    {
        self.moves.as_slice()
    }

    /// The algorithm of the moves `moves`.
    pub fn from_moves(moves: &[Move]) -> (r: Self)
        ensures
            r.spec_moves() == moves@,
    {
        let mut v: Vec<Move> = Vec::new();
        let mut i: usize = 0;
        while i < moves.len()
            invariant
                i <= moves@.len(),
                v@ == moves@.take(i as int),
            decreases moves@.len() - i,
        {
            v.push(moves[i]);
            i = i + 1;
            assert(v@ =~= moves@.take(i as int));
        }
        assert(v@ =~= moves@);
        Alg { moves: v }
    }

    /// The inverse algorithm: the moves in reverse order, each inverted.
    pub fn invert(&self) -> (r: Self)
        requires
            forall|i: int| 0 <= i < self.spec_moves().len() ==> (#[trigger] self.spec_moves()[i]).qturns <= 125,
        ensures
            r.spec_moves() == inverse_moves(self.spec_moves()),
    {
        let ghost s = self.moves@;
        assert forall|k: int| 0 <= k < s.len() implies (#[trigger] s[k]).qturns <= 125 by {
            assert(self.spec_moves()[k] == s[k]);
        }
        let mut v: Vec<Move> = Vec::new();
        let mut i: usize = self.moves.len();
        while i > 0
            invariant
                i <= s.len(),
                s == self.moves@,
                forall|k: int| 0 <= k < s.len() ==> (#[trigger] s[k]).qturns <= 125,
                v@.len() == s.len() - i,
                forall|k: int| 0 <= k < v@.len() ==> #[trigger] v@[k] == inverse_move(s[s.len() - 1 - k]),
            decreases i,
        {
            i = i - 1;
            let m = self.moves[i].invert();
            v.push(m);
        }
        assert(v@ =~= inverse_moves(s));
        Alg { moves: v }
    }

    /// Appends the moves of `other`.
    pub fn append(&mut self, other: &Self)
        ensures
            final(self).spec_moves() == old(self).spec_moves() + other.spec_moves(),
    {
        let ghost start = self.moves@;
        let mut i: usize = 0;
        while i < other.moves.len()
            invariant
                i <= other.moves@.len(),
                self.moves@ == start + other.moves@.take(i as int),
            decreases other.moves@.len() - i,
        {
            self.moves.push(other.moves[i]);
            i = i + 1;
            assert(self.moves@ =~= start + other.moves@.take(i as int));
        }
        assert(other.moves@.take(i as int) =~= other.moves@);
    }

    /// Appends the move `move_`.
    pub fn push(&mut self, move_: Move)
        ensures
            final(self).spec_moves() == old(self).spec_moves().push(move_),
    {
        self.moves.push(move_);
    }

    /// The number of moves.
    pub fn len(&self) -> (r: usize)
        ensures
            r == self.spec_moves().len(),
    {
        self.moves.len()
    }

    /// The algorithm seen after the rotation `rotation`: the same moves, or
    /// `InvalidMoveConjugate` when `rotation` is a face turn.
    pub fn conjugate(&self, rotation: Move) -> (r: Result<Self, CubeError>)
        ensures
            match r {
                Ok(a) => rotation.kind is Rotation && a.spec_moves() == self.spec_moves(),
                Err(e) => rotation.kind is FaceTurn && e == CubeError::InvalidMoveConjugate { got: rotation },
            },
    {
        match rotation.kind {
            MoveKind::FaceTurn { .. } => Err(CubeError::InvalidMoveConjugate { got: rotation }),
            MoveKind::Rotation { .. } => Ok(Self::from_moves(self.moves.as_slice())),
        }
    }
}

} // verus!
