//! The sparse set of packed cube states.
use cube_core::arena::{ID_24, ID_CENTER, ID_CORNER, ID_EDGE};
use cube_core::state_arena::CubeArena;

fn solved(n: usize) -> Vec<u128> {
    let len = (n * n + 5 * (n % 2) - 2 * n + 4) / 4;
    let mut v = vec![ID_CORNER];
    if n % 2 == 1 {
        v.push(ID_EDGE);
        v.push(ID_CENTER);
    }
    while v.len() < len {
        v.push(ID_24);
    }
    v
}

#[test]
fn zeros_holds_the_solved_state_for_every_id() {
    for n in 2..9 {
        let arena = CubeArena::zeros(n, 4);
        assert_eq!(arena.n(), n);
        assert_eq!(arena.n_orbits(), solved(n).len());
        for id in 0..4 {
            assert!(arena.contains(id));
            assert_eq!(arena.get(id).orbits, solved(n).as_slice(), "n={n} id={id}");
        }
        assert!(!arena.contains(4));
        assert!(!arena.contains(100));
    }
    assert_eq!(CubeArena::zeros(4, 2).n_orbits(), 3);
    assert_eq!(CubeArena::zeros(5, 2).n_orbits(), 6);
}

#[test]
fn insert_get_remove() {
    let mut arena = CubeArena::with_capacity(4, 5);
    for id in 0..5 {
        assert!(!arena.contains(id));
    }
    let a = [1u128, 2, 3];
    let b = [4u128, 5, 6];
    let c = [7u128, 8, 9];
    arena.insert(3, &a);
    arena.insert(0, &b);
    arena.insert(4, &c);
    assert!(arena.contains(3) && arena.contains(0) && arena.contains(4));
    assert!(!arena.contains(1));
    assert_eq!(arena.get(3).orbits, &a);
    assert_eq!(arena.get(0).orbits, &b);
    assert_eq!(arena.get(4).orbits, &c);
    arena.remove(3);
    assert!(!arena.contains(3));
    assert_eq!(arena.get(0).orbits, &b);
    assert_eq!(arena.get(4).orbits, &c);
    arena.remove(4);
    assert!(!arena.contains(4));
    assert_eq!(arena.get(0).orbits, &b);
    arena.insert(3, &c);
    assert_eq!(arena.get(3).orbits, &c);
    assert_eq!(arena.get(0).orbits, &b);
}

#[test]
fn writing_in_place() {
    let mut arena = CubeArena::with_capacity(5, 2);
    let junk = [9u128; 6];
    arena.insert(1, &junk);
    arena.insert(0, &junk);
    arena.get_mut(1).zero(5);
    assert_eq!(arena.get(1).orbits, solved(5).as_slice());
    assert_eq!(arena.get(0).orbits, &junk);
}

#[test]
fn solved_states_compose_to_solved_states() {
    for n in [3usize, 5, 7] {
        let mut arena = CubeArena::zeros(n, 3);
        arena.add_assign(0, 1);
        assert_eq!(arena.get(0).orbits, solved(n).as_slice(), "n={n}");
        arena.sub_assign(0, 2);
        assert_eq!(arena.get(0).orbits, solved(n).as_slice(), "n={n}");
        arena.add_assign(1, 1);
        assert_eq!(arena.get(1).orbits, solved(n).as_slice(), "n={n}");
    }
}
