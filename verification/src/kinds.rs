//! The four kinds of piece orbits and their packing parameters.
use vstd::prelude::*;

verus! {

/// The packing parameters of the four orbit kinds: number of pieces,
/// permutation mask, orientation mask, orientation offset inside a block
/// and orientation modulus.
pub open spec fn kind_shape(len: nat, perm: u128, ori: u128, shift: u128, md: u128) -> bool {
    ||| (len == 8 && perm == 7 && ori == 3 && shift == 3 && md == 3)
    ||| (len == 12 && perm == 15 && ori == 1 && shift == 4 && md == 2)
    ||| (len == 6 && perm == 31 && ori == 0 && shift == 0 && md == 1)
    ||| (len == 24 && perm == 31 && ori == 0 && shift == 0 && md == 1)
}

/// A kind of piece (corners, edges, centers, 24-piece orbits) and the way
/// one piece is laid out inside a five-bit block of a packed word:
///
/// - `ori` — mask of the orientation field of a piece;
/// - `perm` — mask of the permutation field of a piece;
/// - `len` — number of pieces of this kind;
/// - `shift` — bit offset of the orientation field inside the block;
/// - `modulus` — modulus of orientation arithmetic (1 when there is none).
pub trait PieceKind {
    spec fn spec_ori() -> u128;

    spec fn spec_perm() -> u128;

    spec fn spec_len() -> nat;

    spec fn spec_shift() -> u128;

    spec fn spec_mod() -> u128;

    fn ori() -> (r: u128)
        ensures
            r == Self::spec_ori(),
    ;

    fn perm() -> (r: u128)
        ensures
            r == Self::spec_perm(),
    ;

    fn len() -> (r: usize)
        ensures
            r == Self::spec_len(),
    ;

    fn shift() -> (r: u32)
        ensures
            r == Self::spec_shift(),
    ;

    fn modulus() -> (r: u128)
        ensures
            r == Self::spec_mod(),
    ;

    proof fn lemma_shape()
        ensures
            kind_shape(
                Self::spec_len(),
                Self::spec_perm(),
                Self::spec_ori(),
                Self::spec_shift(),
                Self::spec_mod(),
            ),
    ;
}

/// The 8 corners: 3-bit permutation index, 2-bit orientation modulo 3.
pub struct Corner;

/// The 12 single edges: 4-bit permutation index, 1-bit orientation modulo 2.
pub struct Edge;

/// The 6 fixed face centers: 5-bit index, no orientation.
pub struct Center;

/// A 24-piece orbit (center-corners, center-edges, coupled edges,
/// center-edge wings): 5-bit index, no orientation.
pub struct Piece24;

impl PieceKind for Corner {
    open spec fn spec_ori() -> u128 {
        3
    }

    open spec fn spec_perm() -> u128 {
        7
    }

    open spec fn spec_len() -> nat {
        8
    }

    open spec fn spec_shift() -> u128 {
        3
    }

    open spec fn spec_mod() -> u128 {
        3
    }

    fn ori() -> (r: u128) {
        3
    }

    fn perm() -> (r: u128) {
        7
    }

    fn len() -> (r: usize) {
        8
    }

    fn shift() -> (r: u32) {
        3
    }

    fn modulus() -> (r: u128) {
        3
    }

    proof fn lemma_shape() {
    }
}

impl PieceKind for Edge {
    open spec fn spec_ori() -> u128 {
        1
    }

    open spec fn spec_perm() -> u128 {
        15
    }

    open spec fn spec_len() -> nat {
        12
    }

    open spec fn spec_shift() -> u128 {
        4
    }

    open spec fn spec_mod() -> u128 {
        2
    }

    fn ori() -> (r: u128) {
        1
    }

    fn perm() -> (r: u128) {
        15
    }

    fn len() -> (r: usize) {
        12
    }

    fn shift() -> (r: u32) {
        4
    }

    fn modulus() -> (r: u128) {
        2
    }

    proof fn lemma_shape() {
    }
}

impl PieceKind for Center {
    open spec fn spec_ori() -> u128 {
        0
    }

    open spec fn spec_perm() -> u128 {
        31
    }

    open spec fn spec_len() -> nat {
        6
    }

    open spec fn spec_shift() -> u128 {
        0
    }

    open spec fn spec_mod() -> u128 {
        1
    }

    fn ori() -> (r: u128) {
        0
    }

    fn perm() -> (r: u128) {
        31
    }

    fn len() -> (r: usize) {
        6
    }

    fn shift() -> (r: u32) {
        0
    }

    fn modulus() -> (r: u128) {
        1
    }

    proof fn lemma_shape() {
    }
}

impl PieceKind for Piece24 {
    open spec fn spec_ori() -> u128 {
        0
    }

    open spec fn spec_perm() -> u128 {
        31
    }

    open spec fn spec_len() -> nat {
        24
    }

    open spec fn spec_shift() -> u128 {
        0
    }

    open spec fn spec_mod() -> u128 {
        1
    }

    fn ori() -> (r: u128) {
        0
    }

    fn perm() -> (r: u128) {
        31
    }

    fn len() -> (r: usize) {
        24
    }

    fn shift() -> (r: u32) {
        0
    }

    fn modulus() -> (r: u128) {
        1
    }

    proof fn lemma_shape() {
    }
}

} // verus!
