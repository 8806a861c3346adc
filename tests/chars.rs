use str_indices::chars;
// 124 bytes, 100 chars, 4 lines
const TEXT_LINES: &str = "Hello there!  How're you doing?\nIt's \
                          a fine day, isn't it?\nAren't you glad \
                          we're alive?\nこんにちは、みんなさん！";

#[test]
fn chars_count_01() {
    let text = "Hello せかい! Hello せかい! Hello せかい! Hello せかい! Hello せかい!";

    assert_eq!(54, chars::count(text));
}

#[test]
fn count_02() {
    assert_eq!(100, chars::count(TEXT_LINES));
}

#[test]
fn chars_from_byte_idx_01() {
    let text = "Hello せかい!";
    assert_eq!(0, chars::from_byte_idx(text, 0));
    assert_eq!(1, chars::from_byte_idx(text, 1));
    assert_eq!(6, chars::from_byte_idx(text, 6));
    assert_eq!(6, chars::from_byte_idx(text, 7));
    assert_eq!(6, chars::from_byte_idx(text, 8));
    assert_eq!(7, chars::from_byte_idx(text, 9));
    assert_eq!(7, chars::from_byte_idx(text, 10));
    assert_eq!(7, chars::from_byte_idx(text, 11));
    assert_eq!(8, chars::from_byte_idx(text, 12));
    assert_eq!(8, chars::from_byte_idx(text, 13));
    assert_eq!(8, chars::from_byte_idx(text, 14));
    assert_eq!(9, chars::from_byte_idx(text, 15));
    assert_eq!(10, chars::from_byte_idx(text, 16));
    assert_eq!(10, chars::from_byte_idx(text, 17));
    assert_eq!(10, chars::from_byte_idx(text, 18));
    assert_eq!(10, chars::from_byte_idx(text, 19));
}

#[test]
fn chars_from_byte_idx_02() {
    let text = "";
    assert_eq!(0, chars::from_byte_idx(text, 0));
    assert_eq!(0, chars::from_byte_idx(text, 1));

    let text = "h";
    assert_eq!(0, chars::from_byte_idx(text, 0));
    assert_eq!(1, chars::from_byte_idx(text, 1));
    assert_eq!(1, chars::from_byte_idx(text, 2));

    let text = "hi";
    assert_eq!(0, chars::from_byte_idx(text, 0));
    assert_eq!(1, chars::from_byte_idx(text, 1));
    assert_eq!(2, chars::from_byte_idx(text, 2));
    assert_eq!(2, chars::from_byte_idx(text, 3));
}

#[test]
fn chars_from_byte_idx_03() {
    let text = "せかい";
    assert_eq!(0, chars::from_byte_idx(text, 0));
    assert_eq!(0, chars::from_byte_idx(text, 1));
    assert_eq!(0, chars::from_byte_idx(text, 2));
    assert_eq!(1, chars::from_byte_idx(text, 3));
    assert_eq!(1, chars::from_byte_idx(text, 4));
    assert_eq!(1, chars::from_byte_idx(text, 5));
    assert_eq!(2, chars::from_byte_idx(text, 6));
    assert_eq!(2, chars::from_byte_idx(text, 7));
    assert_eq!(2, chars::from_byte_idx(text, 8));
    assert_eq!(3, chars::from_byte_idx(text, 9));
    assert_eq!(3, chars::from_byte_idx(text, 10));
    assert_eq!(3, chars::from_byte_idx(text, 11));
    assert_eq!(3, chars::from_byte_idx(text, 12));
}

#[test]
fn chars_from_byte_idx_04() {
    // Ascii range
    for i in 0..88 {
        assert_eq!(i, chars::from_byte_idx(TEXT_LINES, i));
    }

    // Hiragana characters
    for i in 88..125 {
        assert_eq!(88 + ((i - 88) / 3), chars::from_byte_idx(TEXT_LINES, i));
    }

    // Past the end
    for i in 125..130 {
        assert_eq!(100, chars::from_byte_idx(TEXT_LINES, i));
    }
}

#[test]
fn chars_to_byte_idx_01() {
    let text = "Hello せかい!";
    assert_eq!(0, chars::to_byte_idx(text, 0));
    assert_eq!(1, chars::to_byte_idx(text, 1));
    assert_eq!(2, chars::to_byte_idx(text, 2));
    assert_eq!(5, chars::to_byte_idx(text, 5));
    assert_eq!(6, chars::to_byte_idx(text, 6));
    assert_eq!(12, chars::to_byte_idx(text, 8));
    assert_eq!(15, chars::to_byte_idx(text, 9));
    assert_eq!(16, chars::to_byte_idx(text, 10));
}

#[test]
fn chars_to_byte_idx_02() {
    let text = "せかい";
    assert_eq!(0, chars::to_byte_idx(text, 0));
    assert_eq!(3, chars::to_byte_idx(text, 1));
    assert_eq!(6, chars::to_byte_idx(text, 2));
    assert_eq!(9, chars::to_byte_idx(text, 3));
}

#[test]
fn chars_to_byte_idx_03() {
    let text = "Hello world!";
    assert_eq!(0, chars::to_byte_idx(text, 0));
    assert_eq!(1, chars::to_byte_idx(text, 1));
    assert_eq!(8, chars::to_byte_idx(text, 8));
    assert_eq!(11, chars::to_byte_idx(text, 11));
    assert_eq!(12, chars::to_byte_idx(text, 12));
}

#[test]
fn to_byte_idx_04() {
    let text = "Hello world! Hello せかい! Hello world! Hello せかい! \
                Hello world! Hello せかい! Hello world! Hello せかい! \
                Hello world! Hello せかい! Hello world! Hello せかい! \
                Hello world! Hello せかい! Hello world! Hello せかい!";
    assert_eq!(0, chars::to_byte_idx(text, 0));
    assert_eq!(30, chars::to_byte_idx(text, 24));
    assert_eq!(60, chars::to_byte_idx(text, 48));
    assert_eq!(90, chars::to_byte_idx(text, 72));
    assert_eq!(115, chars::to_byte_idx(text, 93));
    assert_eq!(120, chars::to_byte_idx(text, 96));
    assert_eq!(150, chars::to_byte_idx(text, 120));
    assert_eq!(180, chars::to_byte_idx(text, 144));
    assert_eq!(210, chars::to_byte_idx(text, 168));
    assert_eq!(239, chars::to_byte_idx(text, 191));
}

#[test]
fn to_byte_idx_05() {
    // Ascii range
    for i in 0..88 {
        assert_eq!(i, chars::to_byte_idx(TEXT_LINES, i));
    }

    // Hiragana characters
    for i in 88..100 {
        assert_eq!(88 + ((i - 88) * 3), chars::to_byte_idx(TEXT_LINES, i));
    }

    // Past the end
    for i in 100..110 {
        assert_eq!(124, chars::to_byte_idx(TEXT_LINES, i));
    }
}
