use cube_core::state_layout::Layout;

#[test]
fn init() {
    // par, n = 4
    let layout = Layout::new(4);

    assert_eq!(layout.n, 4);
    assert_eq!(layout.len, 3);
    assert_eq!(
        layout.orbit,
        [
            (1, 247132686368),
            (2, 984818244535754528103549039458486304),
            (0, 0),
            (0, 0)
        ]
    );

    // even, n = 5
    let layout = Layout::new(5);

    assert_eq!(layout.n, 5);
    assert_eq!(layout.len, 6);
    assert_eq!(
        layout.orbit,
        [
            (1, 247132686368),
            (1, 407901468851537952),
            (1, 172066848),
            (3, 984818244535754528103549039458486304)
        ]
    );
}
