//! Shuffles and random cubes from given draws, and the texts of errors.
use cube_core::cube_moves::{Axis, Face, LayerSpec, Move, MoveKind};
use cube_core::arena::{add_ori, sub_ori, Corner, Edge};
use cube_core::random::{apply_draws, Draws};
use cube_core::{CubeArena, CubeError};

fn home(l: usize) -> Vec<(u8, u8)> {
    (0..l).map(|i| (i as u8, 0)).collect()
}

fn still(l: usize) -> Vec<usize> {
    (0..l).collect()
}

fn still_draws(n: u8) -> Draws {
    let arena = CubeArena::new_arena(n, 1);
    let stride = arena.get_cube(0).len();
    let k = ((n as usize) - 2 - (n as usize) % 2) / 2;
    let mut word_swaps = Vec::new();
    let mut pair_flips = Vec::new();
    for m in 1..stride {
        if 1 + k * k <= m && m < 1 + k * k + k {
            word_swaps.push(still(12));
            pair_flips.push(vec![false; 12]);
        } else {
            word_swaps.push(still(24));
            pair_flips.push(Vec::new());
        }
    }
    Draws {
        corner_swaps: still(8),
        corner_twists: vec![0; 7],
        edge_swaps: still(12),
        edge_flips: vec![false; 11],
        word_swaps,
        pair_flips,
    }
}

#[test]
fn draws_that_name_their_own_position_leave_the_slice() {
    let mut s = home(5);
    assert!(!apply_draws(&mut s, &still(5)));
    assert_eq!(s, home(5));
}

#[test]
fn draws_exchange_from_the_last_position_down() {
    let mut s = home(4);
    // position 3 with 0, then position 2 with 1, position 1 stays
    let odd = apply_draws(&mut s, &vec![0, 1, 1, 0]);
    assert!(!odd);
    assert_eq!(s, vec![(3, 0), (2, 0), (1, 0), (0, 0)]);
    let mut s = home(3);
    assert!(apply_draws(&mut s, &vec![0, 0, 2]));
    assert_eq!(s, vec![(1, 0), (0, 0), (2, 0)]);
}

#[test]
fn still_draws_give_the_solved_cube() {
    for n in 2..12u8 {
        let mut arena = CubeArena::new_arena(n, 2);
        let d = still_draws(n);
        arena.fill_from_draws(1, &d);
        assert_eq!(arena.get_cube(0), arena.get_cube(1), "n={}", n);
    }
}

#[test]
fn drawn_twists_are_balanced_on_the_last_corner() {
    let mut arena = CubeArena::new_arena(3, 1);
    let mut d = still_draws(3);
    d.corner_twists = vec![1, 0, 0, 0, 0, 0, 0];
    arena.fill_from_draws(0, &d);
    let w = arena.get_cube(0)[0];
    assert_eq!((w >> 3) & 3, 1);
    assert_eq!((w >> (5 * 7 + 3)) & 3, 2);
    assert!(arena.is_solvable(0).is_ok());
}

#[test]
fn error_texts_spell_numbers_and_moves() {
    let e = CubeError::InvalidDimension { got: 1203 };
    assert_eq!(e.to_string(), "Invalid dimension: expected 2 <= dimension, got 1203");
    let e = CubeError::InvalidOrientation { got: vec![(0, 1), (12, 0)], mod_: 3 };
    assert_eq!(e.to_string(), "Invalid orientation: got [(0, 1), (12, 0)], modulus: 3");
    let m = Move { kind: MoveKind::FaceTurn { face: Face::U, layer: LayerSpec::Inner { depth: -2 } }, qturns: 3 };
    let r = Move { kind: MoveKind::Rotation { axis: Axis::X }, qturns: 1 };
    let e = CubeError::InvalidMoveM { got: m, expected: vec![r, m] };
    assert_eq!(e.to_string(), format!("Invalid move: expected {:?}, got {:?}", vec![r, m], m));
    let e = CubeError::InvalidMoveConjugate { got: r };
    assert_eq!(
        e.to_string(),
        "Invalid move: expected [X, Y, Z], got Move { kind: Rotation { axis: X }, qturns: 1 }"
    );
    let e = CubeError::InvalidMoveS { got: "Q".to_string(), expected: vec!["R".to_string(), "U'".to_string()] };
    assert_eq!(e.to_string(), "Invalid move: expected [\"R\", \"U'\"], got \"Q\"");
}

#[test]
fn solved_cubes_are_solvable() {
    for n in 2..128u8 {
        let arena = CubeArena::new_arena(n, 1);
        assert!(arena.is_solvable(0).is_ok(), "n={}", n);
    }
}

#[test]
fn taking_away_a_twisted_corner_word_undoes_adding_it() {
    // corners 0 and 1 exchanged, corner 0 twisted once and corner 7 twice
    let mut a: u64 = 0;
    let perm = [1u64, 0, 2, 3, 4, 5, 6, 7];
    let ori = [1u64, 0, 0, 0, 0, 0, 0, 2];
    for i in 0..8 {
        a |= (perm[i] | (ori[i] << 3)) << (5 * i);
    }
    let mut b: u64 = 0;
    let perm_b = [2u64, 1, 0, 3, 5, 4, 7, 6];
    for i in 0..8 {
        b |= (perm_b[i] | ((i as u64 % 3) << 3)) << (5 * i);
    }
    assert_eq!(sub_ori::<Corner>(add_ori::<Corner>(a, b) as u64, b), a as u128);
    assert_eq!(add_ori::<Corner>(sub_ori::<Corner>(a, b) as u64, b), a as u128);
    let mut e: u64 = 0;
    for i in 0..12u64 {
        e |= (((i + 5) % 12) | ((i % 2) << 4)) << (5 * i);
    }
    assert_eq!(sub_ori::<Edge>(add_ori::<Edge>(e, e) as u64, e), e as u128);
}

#[test]
fn points_are_written_as_triples() {
    let p = cube_core::Point3::new(-1, 0, 12);
    assert_eq!(p.to_string(), "(-1, 0, 12)");
}

#[test]
fn shuffle_reports_the_sign_of_its_reordering() {
    let mut rng = rand::rng();
    for len in 0..30usize {
        let mut s = home(len);
        let odd = cube_core::arena::shuffle(&mut s, &mut rng);
        let mut inversions = 0;
        for a in 0..len {
            for b in a + 1..len {
                if s[a].0 > s[b].0 {
                    inversions += 1;
                }
            }
        }
        assert_eq!(odd, inversions % 2 == 1, "len={}", len);
    }
}

#[test]
fn cube_states_read_back_from_their_bytes() {
    use_state_format();
}

fn use_state_format() {
    let r = cube_core::state_format::StateRecord {
        dimension: 4,
        perm: vec![1, u128::MAX, 0x0123_4567_89ab_cdef_0011_2233_4455_6677],
        ori: [7, 1 << 29],
    };
    let b = r.binary();
    assert_eq!(&b[..5], b"STATE");
    assert_eq!(b.len(), 21 + 16 * 3 + 8);
    assert_eq!(b[5], 4);
    assert_eq!(b[13], 3);
    let mut back = cube_core::state_format::StateRecord { dimension: 0, perm: vec![], ori: [0, 0] };
    assert!(back.binary_r(&b).is_ok());
    assert_eq!(back.dimension, 4);
    assert_eq!(back.perm, r.perm);
    assert_eq!(back.ori, r.ori);
    assert_eq!(
        back.binary_r(&b[..b.len() - 1]),
        Err(cube_core::state_format::StateFormatError::Truncated)
    );
    assert_eq!(back.binary_r(b"LAYOUT"), Err(cube_core::state_format::StateFormatError::InvalidFormat));
    assert_eq!(back.dimension, 4);
}
