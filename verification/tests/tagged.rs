//! Composition of kind-tagged orbit words.
use cube_core::bit::Bit;
use cube_core::tagged::{from_perm_ori_to_slice, from_perm_to_slice};

fn tagged_perm(kind: usize, fields: &[u8]) -> u128 {
    let mut w: u128 = 0;
    for (i, f) in fields.iter().enumerate() {
        w.set(i, *f);
    }
    w.set_kind(kind);
    w
}

fn tagged_ori(kind: usize, fields: &[u8]) -> u32 {
    let mut w: u32 = 0;
    for (i, f) in fields.iter().enumerate() {
        w.set(i, *f);
    }
    w.set_kind(kind);
    w
}

#[test]
fn identity_composes_to_the_other_permutation() {
    let id: Vec<u8> = (0..24).collect();
    let p: Vec<u8> = (0..24).map(|i| (i * 5 + 3) % 24).collect();
    let mut a = tagged_perm(3, &id);
    from_perm_to_slice(&mut a, tagged_perm(0, &p));
    assert_eq!(a, tagged_perm(3, &p));
    let mut a = tagged_perm(4, &p);
    from_perm_to_slice(&mut a, tagged_perm(1, &id));
    assert_eq!(a, tagged_perm(4, &p));
    assert_eq!(a.get_kind(), 4);
}

#[test]
fn permutations_compose_field_by_field() {
    let p: Vec<u8> = vec![1, 2, 0, 4, 5, 3];
    let q: Vec<u8> = vec![5, 4, 3, 2, 1, 0];
    let mut a = tagged_perm(2, &p);
    from_perm_to_slice(&mut a, tagged_perm(2, &q));
    let expected: Vec<u8> = (0..6).map(|i| p[q[i] as usize]).collect();
    assert_eq!(a, tagged_perm(2, &expected));
}

#[test]
fn corner_orientations_add_modulo_three() {
    let id: Vec<u8> = (0..8).collect();
    let b: Vec<u8> = vec![1, 0, 3, 2, 5, 4, 7, 6];
    let a_ori_fields: Vec<u8> = vec![0, 1, 2, 0, 1, 2, 1, 2];
    let b_ori_fields: Vec<u8> = vec![2, 2, 2, 1, 1, 1, 0, 2];
    let mut a_perm = tagged_perm(0, &id);
    let mut a_ori = tagged_ori(0, &a_ori_fields);
    from_perm_ori_to_slice(&mut a_perm, tagged_perm(0, &b), &mut a_ori, tagged_ori(0, &b_ori_fields), 0);
    assert_eq!(a_perm, tagged_perm(0, &b));
    let mut expected: Vec<u8> = (0..8).map(|i| (a_ori_fields[b[i] as usize] + b_ori_fields[i]) % 3).collect();
    // The last corner's sum is reduced to its low two bits first: 2 + 2 gives 0.
    expected[7] = ((a_ori_fields[b[7] as usize] + b_ori_fields[7]) % 4) % 3;
    assert_eq!(expected[7], 0);
    assert_eq!(a_ori, tagged_ori(0, &expected));
}

#[test]
fn edge_orientations_add_modulo_two() {
    let id: Vec<u8> = (0..12).collect();
    let ones: Vec<u8> = vec![1; 12];
    let mut a_perm = tagged_perm(1, &id);
    let mut a_ori = tagged_ori(1, &ones);
    from_perm_ori_to_slice(&mut a_perm, tagged_perm(1, &id), &mut a_ori, tagged_ori(1, &ones), 1);
    assert_eq!(a_perm, tagged_perm(1, &id));
    assert_eq!(a_ori, tagged_ori(1, &vec![0; 12]));
}
