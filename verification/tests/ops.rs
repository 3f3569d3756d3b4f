use cube_core::bit::Bit;

#[test]
fn ops_get_set() {
    let mut a: u128 = 0;
    a.set(3, 4);
    assert_eq!(4, a.get(3));
}

#[test]
fn get_set_kind() {
    let mut a: u128 = 0;
    a.set_kind(5);
    assert_eq!(5 << 125, a);
    assert_eq!(5, a.get_kind());
}
