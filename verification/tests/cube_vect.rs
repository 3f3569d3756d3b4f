use cube_core::{CubeArena, CubeVect};

#[test]
fn test_new() {
    let dimension = 34;
    let cube = CubeVect::new(dimension).into_packed();
    let arena = CubeArena::new_arena(dimension as u8, 1);
    let cube_perm = arena.get_cube(0);

    assert_eq!(cube, cube_perm);
}
