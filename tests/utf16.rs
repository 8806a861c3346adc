use str_indices::utf16;
// 45 bytes, 27 utf16 code units.
const TEXT: &str = "Hel🐸lo world! こん🐸にち🐸🐸は!";

#[test]
fn utf16_count_01() {
    assert_eq!(27, utf16::count(TEXT));
}

#[test]
fn count_surrogates_01() {
    assert_eq!(4, utf16::count_surrogates(TEXT));
}

#[test]
fn utf16_from_byte_idx_01() {
    assert_eq!(0, utf16::from_byte_idx(TEXT, 0));

    assert_eq!(3, utf16::from_byte_idx(TEXT, 3));
    assert_eq!(3, utf16::from_byte_idx(TEXT, 4));
    assert_eq!(3, utf16::from_byte_idx(TEXT, 5));
    assert_eq!(3, utf16::from_byte_idx(TEXT, 6));
    assert_eq!(5, utf16::from_byte_idx(TEXT, 7));

    assert_eq!(7, utf16::from_byte_idx(TEXT, 9));

    assert_eq!(17, utf16::from_byte_idx(TEXT, 23));
    assert_eq!(17, utf16::from_byte_idx(TEXT, 24));
    assert_eq!(17, utf16::from_byte_idx(TEXT, 25));
    assert_eq!(17, utf16::from_byte_idx(TEXT, 26));
    assert_eq!(19, utf16::from_byte_idx(TEXT, 27));

    assert_eq!(21, utf16::from_byte_idx(TEXT, 33));
    assert_eq!(21, utf16::from_byte_idx(TEXT, 34));
    assert_eq!(21, utf16::from_byte_idx(TEXT, 35));
    assert_eq!(21, utf16::from_byte_idx(TEXT, 36));
    assert_eq!(23, utf16::from_byte_idx(TEXT, 37));
    assert_eq!(23, utf16::from_byte_idx(TEXT, 38));
    assert_eq!(23, utf16::from_byte_idx(TEXT, 39));
    assert_eq!(23, utf16::from_byte_idx(TEXT, 40));
    assert_eq!(25, utf16::from_byte_idx(TEXT, 41));

    assert_eq!(27, utf16::from_byte_idx(TEXT, 45));
    assert_eq!(27, utf16::from_byte_idx(TEXT, 46)); // Index 1 past the end.
}

#[test]
fn utf16_to_byte_idx_01() {
    assert_eq!(utf16::to_byte_idx(TEXT, 0), 0);

    assert_eq!(3, utf16::to_byte_idx(TEXT, 3));
    assert_eq!(3, utf16::to_byte_idx(TEXT, 4));
    assert_eq!(7, utf16::to_byte_idx(TEXT, 5));

    assert_eq!(9, utf16::to_byte_idx(TEXT, 7));

    assert_eq!(23, utf16::to_byte_idx(TEXT, 17));
    assert_eq!(23, utf16::to_byte_idx(TEXT, 18));
    assert_eq!(27, utf16::to_byte_idx(TEXT, 19));

    assert_eq!(33, utf16::to_byte_idx(TEXT, 21));
    assert_eq!(33, utf16::to_byte_idx(TEXT, 22));
    assert_eq!(37, utf16::to_byte_idx(TEXT, 23));
    assert_eq!(37, utf16::to_byte_idx(TEXT, 24));
    assert_eq!(41, utf16::to_byte_idx(TEXT, 25));

    assert_eq!(45, utf16::to_byte_idx(TEXT, 27));
    assert_eq!(45, utf16::to_byte_idx(TEXT, 27)); // Index 1 past the end.
}
