use softwrap::indices::make_index;

#[test]
fn two_quads() {
    let x = make_index(2);
    assert_eq!(x, vec![0, 1, 2, 2, 3, 0, 0xFFFF, 4, 5, 6, 6, 7, 4, 0xFFFF]);
}

#[test]
fn no_quads() {
    let x = make_index(0);
    assert!(x.is_empty());
}
