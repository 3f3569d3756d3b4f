//! The cube as tagged permutation words.
use cube_core::cube_perm::Bit as PermBit;
use cube_core::cube_perm::{
    CubePerm, _get_perm, _new_subgroup, IDENTITY_ORD, IDENTITY_PERM, NUM_PER_KIND,
};
use cube_core::CubeError;

fn word(kind: usize, fields: &[u8]) -> u128 {
    let mut w: u128 = 0;
    for (i, f) in fields.iter().enumerate() {
        PermBit::set(&mut w, i, *f);
    }
    PermBit::set_kind(&mut w, kind);
    w
}

#[test]
fn solved_cube_has_a_word_per_group() {
    let c = CubePerm::new(3);
    assert_eq!(c.perm, vec![IDENTITY_PERM[0], IDENTITY_PERM[1], IDENTITY_PERM[2]]);
    assert_eq!(c.ori, [0, 1 << 29]);
    let c = CubePerm::new(4);
    assert_eq!(c.perm, vec![IDENTITY_PERM[0], IDENTITY_PERM[3], IDENTITY_PERM[4]]);
    let c = CubePerm::new(2);
    assert_eq!(c.perm, vec![IDENTITY_PERM[0]]);
}

#[test]
fn try_new_refuses_small_dimensions() {
    assert!(matches!(CubePerm::try_new(1), Err(CubeError::InvalidDimension { got: 1 })));
    assert!(CubePerm::try_new(5).is_ok());
}

#[test]
fn new_subgroup_gives_the_solved_words_with_alike_pieces() {
    for k in 0..7 {
        assert_eq!(_new_subgroup(k), IDENTITY_ORD[k]);
    }
}

#[test]
fn solved_cube_is_its_own_inverse_and_checks() {
    let c = CubePerm::new(4);
    let id = c.identity();
    assert_eq!(id.perm, c.perm);
    let inv = c.clone().inverse();
    assert!(inv.eq(&c));
    assert!(c.check().is_ok());
    assert_eq!(c.get_modulus(), 1);
}

#[test]
fn composing_a_swap_twice_gives_the_solved_cube() {
    let mut fields: Vec<u8> = (0..8).collect();
    fields.swap(0, 1);
    let mut c = CubePerm::new(2);
    let s = CubePerm { perm: vec![word(0, &fields)], ori: [0, 1 << 29] };
    c.add_assign(&s);
    assert_eq!(c.perm[0], word(0, &fields));
    assert!(matches!(c.check(), Err(CubeError::InvalidPermutation { .. })));
    assert_eq!(c.get_modulus(), 2);
    c.add_assign(&s);
    assert!(c.eq(&CubePerm::new(2)));
    c.sub_assign(&s);
    assert_eq!(c.perm[0], word(0, &fields));
}

#[test]
fn cycles_are_listed_from_the_second_step() {
    let w = word(0, &[1, 2, 0, 3, 5, 4, 6, 7]);
    let cycles = _get_perm(w);
    assert_eq!(
        cycles,
        vec![vec![2, 0, 1], vec![3], vec![4, 5], vec![6], vec![7]]
    );
    let c = CubePerm { perm: vec![w], ori: [0, 1 << 29] };
    assert_eq!(c.get_perm_list(), vec![cycles]);
    assert_eq!(c.get_modulus(), 6);
}

#[test]
fn twisted_corner_fails_the_orientation_check() {
    let mut ori: u32 = 0;
    PermBit::set(&mut ori, 0, 1);
    let c = CubePerm { perm: vec![IDENTITY_PERM[0]], ori: [ori, 1 << 29] };
    match c.check() {
        Err(CubeError::InvalidOrientation { got, mod_ }) => {
            assert_eq!(mod_, 3);
            assert_eq!(got.len(), NUM_PER_KIND[0]);
            assert_eq!(got[0], (0, 1));
            assert_eq!(got[1], (1, 0));
        }
        other => panic!("unexpected {:?}", other),
    }
    assert_eq!(c.get_modulus(), 3);
}

#[test]
fn lists_read_back_into_the_same_cube() {
    let c = CubePerm::new(5);
    let (p, o) = c.to_vec();
    assert_eq!(p[0], vec![0, 1, 2, 3, 4, 5, 6, 7, 0]);
    assert_eq!(o[1], vec![0, 0, 0, 0, 0, 0, 0, 0, 0, 0, 0, 0, 1]);
    let back = CubePerm::from_vec((p, o));
    assert_eq!(back.perm, c.perm);
    assert_eq!(back.ori, c.ori);
}
