use sort_key::alphabet::{is_valid_char, is_valid_u8, to_char, to_u8};

#[test]
fn convert_test() {
    let patterns = [
        (0u8, '0'),
        (1, '1'),
        (2, '2'),
        (3, '3'),
        (4, '4'),
        (5, '5'),
        (6, '6'),
        (7, '7'),
        (8, '8'),
        (9, '9'),
        (10, 'a'),
        (11, 'b'),
        (12, 'c'),
        (13, 'd'),
        (32, 'w'),
        (33, 'x'),
        (34, 'y'),
        (35, 'z'),
    ];

    for (i, c) in patterns {
        assert!(is_valid_char(c));
        assert_eq!(to_char(i), c);
        assert_eq!(to_u8(c), i);
    }
}

#[test]
fn alphabet_validity_edges() {
    assert!(is_valid_u8(0));
    assert!(is_valid_u8(35));
    assert!(!is_valid_u8(36));
    assert!(!is_valid_u8(255));
    assert!(!is_valid_char('A'));
    assert!(!is_valid_char('/'));
    assert!(!is_valid_char(':'));
    assert!(!is_valid_char('`'));
    assert!(!is_valid_char('{'));
    assert!(is_valid_char('0'));
    assert!(is_valid_char('z'));
}
