//! Concrete cases of the laws of the library and of its error paths.
use cube_core::{
    alg::Alg,
    arena::{add_perm, sub_perm, Piece24},
    bit::Bit,
    cube_moves::{Axis, Face, LayerSpec, Move, MoveFamily, MoveKind, MoveSet, MoveTable, Turn},
    layout::Layout,
    layout_format::{LayoutFormatError, LayoutWrapper, LAYOUT_BYTES},
    numbers::normalized_lcm,
    orbit_words::{add_12, add_24, add_6, add_8, sub_12, sub_24, sub_6, sub_8},
    CubeArena, CubeError, CubeVect,
};

fn face_turn(face: Face, layer: LayerSpec, qturns: i8) -> Move {
    Move {
        kind: MoveKind::FaceTurn { face, layer },
        qturns,
    }
}

#[test]
fn move_then_inverse_restores_the_model() {
    for n in 2..9 {
        let solved = CubeVect::new(n);
        let moves = [
            face_turn(Face::R, LayerSpec::Outer, 1),
            face_turn(Face::U, LayerSpec::Inner { depth: 2 }, 2),
            face_turn(Face::F, LayerSpec::Wide { width: 2 }, 3),
            Move {
                kind: MoveKind::Rotation { axis: Axis::Y },
                qturns: 1,
            },
        ];
        for mv in moves {
            let mut cube = CubeVect::new(n);
            cube.mv(mv);
            cube.mv(mv.invert());
            assert_eq!(cube, solved, "n={n}: {:?} then its inverse", mv);
        }
    }
}

#[test]
fn a_quarter_turn_moves_pieces() {
    let solved = CubeVect::new(3);
    let mut cube = CubeVect::new(3);
    cube.mv(face_turn(Face::R, LayerSpec::Outer, 1));
    assert_ne!(cube, solved);
    assert!(cube.check().is_ok());
}

#[test]
fn invert_twice_is_the_move() {
    for q in 1..=3 {
        let mv = face_turn(Face::L, LayerSpec::Outer, q);
        let inv = mv.invert();
        assert_eq!((q + inv.qturns) % 4, 0);
        assert_eq!(inv.invert(), mv);
    }
}

#[test]
fn solved_model_packs_to_identity() {
    for n in 2..20 {
        let packed = CubeVect::new(n).into_packed();
        let arena = CubeArena::new_arena(n as u8, 1);
        assert_eq!(packed.as_slice(), arena.get_cube(0), "n={n}");
    }
}

#[test]
fn random_cube_model_roundtrip() {
    let mut rng = rand::rng();
    for n in 2..12 {
        let mut arena = CubeArena::new_arena(n as u8, 2);
        arena.random_cube(0, &mut rng);
        let cv = arena.into_cubevect(0);
        assert!(cv.check().is_ok(), "n={n}");
        assert_eq!(cv.into_packed().as_slice(), arena.get_cube(0), "n={n}");
    }
}

#[test]
fn move_table_cubes_are_the_moves_on_the_solved_cube() {
    let rule = MoveSet::new(
        vec![MoveFamily::Outer, MoveFamily::Rotation, MoveFamily::Inner, MoveFamily::Wide],
        vec![Turn::Clockwise, Turn::Anticlockwise, Turn::Double],
    );
    let table = MoveTable::new(5, &rule).unwrap();
    assert_eq!(table.moves().len(), table.moves_s().len());
    assert_eq!(table.arena().len(), rule.total_moves(5));
    for (i, mv) in table.moves().iter().enumerate() {
        let mut cube = CubeVect::new(5);
        cube.mv(*mv);
        assert_eq!(table.arena().get_cube(i), cube.into_packed().as_slice());
        assert_eq!(table.get_move_m(mv), table.get_move_s(&table.moves_s()[i]));
        assert_eq!(mv.to_string(), table.moves_s()[i]);
    }
    assert_eq!(table.moves_s()[0], "x'");
    assert!(table.moves_s().contains(&"2Rw".to_string()) == false);
    assert!(table.moves_s().contains(&"Rw".to_string()));
    assert!(table.moves_s().contains(&"2R'".to_string()));
}

#[test]
fn layout_figures() {
    let l = Layout::new(4);
    assert_eq!(l.dimension(), 4);
    assert!(l.par());
    assert_eq!(l.orbits(), [1, 0, 0, 1, 1, 0]);
    assert_eq!(l.orbits_offset(), [0, 1, 1, 1, 2, 3]);
    assert_eq!(l.orbits_len(), 3);
    let l = Layout::new(7);
    assert!(!l.par());
    assert_eq!(l.orbits(), [1, 1, 1, 4, 2, 2]);
    assert_eq!(l.orbit(3), 4);
    assert_eq!(l.orbit_offset(4), 7);
    assert_eq!(l.orbits_len(), 11);
}

#[test]
fn layout_rejects_dimensions() {
    assert!(matches!(Layout::try_new(1), Err(CubeError::InvalidDimension { got: 1 })));
    assert!(matches!(
        Layout::try_new(4294967296),
        Err(CubeError::InvalidDimension { got: 4294967296 })
    ));
    assert!(Layout::try_new(2).is_ok());
}

#[test]
fn layout_binary_roundtrip() {
    let w = LayoutWrapper::try_new(9).unwrap();
    let bytes = w.binary();
    assert_eq!(bytes.len(), LAYOUT_BYTES);
    assert_eq!(&bytes[0..6], b"LAYOUT");
    let mut back = LayoutWrapper::try_new(2).unwrap();
    assert_eq!(back.binary_r(&bytes), Ok(()));
    assert_eq!(back.dimension, 9);
    assert_eq!(back.par, false);
    assert_eq!(back.orbits, w.orbits);
    assert_eq!(back.orbits_offset, w.orbits_offset);
    assert_eq!(back.orbits_len, w.orbits_len);
}

#[test]
fn layout_binary_errors() {
    let w = LayoutWrapper::try_new(6).unwrap();
    let mut bytes = w.binary();
    let mut back = LayoutWrapper::try_new(2).unwrap();
    assert_eq!(back.binary_r(&bytes[0..4]), Err(LayoutFormatError::Truncated));
    assert_eq!(back.binary_r(&bytes[0..50]), Err(LayoutFormatError::Truncated));
    assert_eq!(back.dimension, 2);
    bytes[0] = b'X';
    assert_eq!(back.binary_r(&bytes), Err(LayoutFormatError::InvalidFormat));
    assert!(LayoutWrapper::try_new(0).is_err());
}

#[test]
fn algorithm_operations() {
    let r = face_turn(Face::R, LayerSpec::Outer, 1);
    let u = face_turn(Face::U, LayerSpec::Outer, 2);
    let mut a = Alg::new();
    a.push(r);
    let b = Alg::from_moves(&[u]);
    a.append(&b);
    assert_eq!(a.len(), 2);
    assert_eq!(a.moves(), &[r, u]);
    let inv = a.invert();
    assert_eq!(inv.moves(), &[u.invert(), r.invert()]);
    assert!(matches!(a.conjugate(r), Err(CubeError::InvalidMoveConjugate { .. })));
    let x = Move {
        kind: MoveKind::Rotation { axis: Axis::X },
        qturns: 1,
    };
    assert_eq!(a.conjugate(x).unwrap().moves(), a.moves());
}

#[test]
fn bit_fields_of_words() {
    let mut w: u128 = u128::MAX;
    w.set(2, 7);
    assert_eq!(w.get(2), 7);
    assert_eq!(w.get(3), 31);
    let mut o: u32 = 0;
    o.set(5, 2);
    assert_eq!(o.get(5), 2);
    assert_eq!(o.get(4), 0);
    o.set_kind(3);
    assert_eq!(o.get_kind(), 3);
}

#[test]
fn normalized_lcm_values() {
    assert_eq!(normalized_lcm(4, 6), 6);
    assert_eq!(normalized_lcm(3, 5), 15);
    assert_eq!(normalized_lcm(0, 7), 0);
}

#[test]
fn orbit_words_compose() {
    let id24: u128 = 984818244535754528103549039458486304;
    let arena = CubeArena::new_arena(4, 1);
    let w = arena.get_cube(0)[1];
    assert_eq!(w, id24);
    let mut a = id24;
    add_24(&mut a, id24);
    assert_eq!(a, id24);
    sub_24(&mut a, id24);
    assert_eq!(a, id24);
    assert_eq!(add_perm::<Piece24>(id24, id24), id24);
    assert_eq!(sub_perm::<Piece24>(id24, id24), id24);
    let id6: u128 = 172066848;
    let mut c = id6;
    add_6(&mut c, id6);
    sub_6(&mut c, id6);
    assert_eq!(c, id6);
    let id8: u64 = 247132686368;
    let mut k = id8;
    add_8(&mut k, id8);
    assert_eq!(k, id8);
    sub_8(&mut k, id8);
    assert_eq!(k, id8);
    let id12: u128 = 407901468851537952;
    let mut e = id12;
    add_12(&mut e, id12);
    assert_eq!(e, id12);
    sub_12(&mut e, id12);
    assert_eq!(e, id12);
}

#[test]
fn order_is_the_least_power_giving_the_solved_cube() {
    let moves = [
        (face_turn(Face::R, LayerSpec::Outer, 1), 4usize),
        (face_turn(Face::U, LayerSpec::Outer, 2), 2usize),
    ];
    for (mv, expected) in moves {
        let mut cube = CubeVect::new(3);
        cube.mv(mv);
        let packed = cube.into_packed();
        let mut arena = CubeArena::new_arena(3, 3);
        arena.cube_from_slice(0, packed.as_slice());
        let order = arena.cube_order(0);
        assert_eq!(order, expected, "{:?}", mv);
        for k in 1..order {
            arena.mul(0, k as isize, 1);
            assert!(!arena.eq(1, 2), "{:?}: power {k} is solved", mv);
        }
        arena.mul(0, order as isize, 1);
        assert!(arena.eq(1, 2), "{:?}: power {order} is not solved", mv);
    }
    let mut rng = rand::rng();
    for n in 2..10u8 {
        let mut arena = CubeArena::new_arena(n, 3);
        arena.random_cube(0, &mut rng);
        let order = arena.cube_order(0);
        arena.mul(0, order as isize, 1);
        assert_eq!(arena.get_cube(1), arena.get_cube(2), "n={n}");
        assert!(arena.is_solvable(0).is_ok(), "n={n}");
    }
}

#[test]
fn moves_keep_the_model_valid() {
    let faces = [Face::U, Face::F, Face::R, Face::D, Face::B, Face::L];
    for n in 2..9usize {
        let mut cube = CubeVect::new(n);
        assert!(cube.check().is_ok());
        for (i, face) in faces.iter().enumerate() {
            let layer = match i % 3 {
                0 => LayerSpec::Outer,
                1 => LayerSpec::Inner { depth: (n / 2) as i32 },
                _ => LayerSpec::Wide { width: 1 },
            };
            cube.mv(face_turn(*face, layer, (i % 3 + 1) as i8));
            assert!(cube.check().is_ok(), "n={n}: after {:?}", face);
            cube.mv(Move {
                kind: MoveKind::Rotation { axis: Axis::Z },
                qturns: 1,
            });
            assert!(cube.check().is_ok(), "n={n}: after a rotation");
        }
    }
}
