use kiro_gateway::floor_char_boundary;

#[test]
fn test_floor_char_boundary_ascii() {
    let s = "abcdef";
    assert_eq!(floor_char_boundary(s, 3), 3);
    assert_eq!(floor_char_boundary(s, 999), s.len());
}

#[test]
fn test_floor_char_boundary_utf8() {
    let s = "你好ab";
    // each of the first two characters takes 3 bytes; indexes inside them
    // fall back to the character's start
    assert_eq!(floor_char_boundary(s, 1), 0);
    assert_eq!(floor_char_boundary(s, 2), 0);
    assert_eq!(floor_char_boundary(s, 3), 3);
    assert_eq!(floor_char_boundary(s, 4), 3);
    assert_eq!(floor_char_boundary(s, 5), 3);
    assert_eq!(floor_char_boundary(s, 6), 6);
}
