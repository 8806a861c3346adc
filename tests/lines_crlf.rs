use str_indices::lines_crlf;
// 124 bytes, 100 chars, 4 lines
const TEXT_LINES: &str = "Hello there!  How're you doing?\nIt's \
                          a fine day, isn't it?\nAren't you glad \
                          we're alive?\nこんにちは、みんなさん！";

#[test]
fn lines_crlf_count_breaks_01() {
    let text = "\u{000A}Hello\u{000D}\u{000A}せ\u{000B}か\u{000C}い\u{0085}. \
                There\u{000A}is something.\u{2029}";
    assert_eq!(45, text.len());
    assert_eq!(3, lines_crlf::count_breaks(text));
}

#[test]
fn lines_crlf_from_byte_idx_01() {
    let text = "Here\nare\nsome\nwords";
    assert_eq!(0, lines_crlf::from_byte_idx(text, 0));
    assert_eq!(0, lines_crlf::from_byte_idx(text, 4));
    assert_eq!(1, lines_crlf::from_byte_idx(text, 5));
    assert_eq!(1, lines_crlf::from_byte_idx(text, 8));
    assert_eq!(2, lines_crlf::from_byte_idx(text, 9));
    assert_eq!(2, lines_crlf::from_byte_idx(text, 13));
    assert_eq!(3, lines_crlf::from_byte_idx(text, 14));
    assert_eq!(3, lines_crlf::from_byte_idx(text, 19));
}

#[test]
fn lines_crlf_from_byte_idx_02() {
    let text = "\nHere\nare\nsome\nwords\n";
    assert_eq!(0, lines_crlf::from_byte_idx(text, 0));
    assert_eq!(1, lines_crlf::from_byte_idx(text, 1));
    assert_eq!(1, lines_crlf::from_byte_idx(text, 5));
    assert_eq!(2, lines_crlf::from_byte_idx(text, 6));
    assert_eq!(2, lines_crlf::from_byte_idx(text, 9));
    assert_eq!(3, lines_crlf::from_byte_idx(text, 10));
    assert_eq!(3, lines_crlf::from_byte_idx(text, 14));
    assert_eq!(4, lines_crlf::from_byte_idx(text, 15));
    assert_eq!(4, lines_crlf::from_byte_idx(text, 20));
    assert_eq!(5, lines_crlf::from_byte_idx(text, 21));
}

#[test]
fn lines_crlf_from_byte_idx_03() {
    let text = "Here\r\nare\r\nsome\r\nwords";
    assert_eq!(0, lines_crlf::from_byte_idx(text, 0));
    assert_eq!(0, lines_crlf::from_byte_idx(text, 4));
    assert_eq!(0, lines_crlf::from_byte_idx(text, 5));
    assert_eq!(1, lines_crlf::from_byte_idx(text, 6));
    assert_eq!(1, lines_crlf::from_byte_idx(text, 9));
    assert_eq!(1, lines_crlf::from_byte_idx(text, 10));
    assert_eq!(2, lines_crlf::from_byte_idx(text, 11));
    assert_eq!(2, lines_crlf::from_byte_idx(text, 15));
    assert_eq!(2, lines_crlf::from_byte_idx(text, 16));
    assert_eq!(3, lines_crlf::from_byte_idx(text, 17));
}

#[test]
fn lines_crlf_from_byte_idx_04() {
    // Line 0
    for i in 0..32 {
        assert_eq!(0, lines_crlf::from_byte_idx(TEXT_LINES, i));
    }

    // Line 1
    for i in 32..59 {
        assert_eq!(1, lines_crlf::from_byte_idx(TEXT_LINES, i));
    }

    // Line 2
    for i in 59..88 {
        assert_eq!(2, lines_crlf::from_byte_idx(TEXT_LINES, i));
    }

    // Line 3
    for i in 88..125 {
        assert_eq!(3, lines_crlf::from_byte_idx(TEXT_LINES, i));
    }

    // Past the end
    for i in 125..130 {
        assert_eq!(3, lines_crlf::from_byte_idx(TEXT_LINES, i));
    }
}

#[test]
fn lines_crlf_to_byte_idx_01() {
    let text = "Here\r\nare\r\nsome\r\nwords";
    assert_eq!(0, lines_crlf::to_byte_idx(text, 0));
    assert_eq!(6, lines_crlf::to_byte_idx(text, 1));
    assert_eq!(11, lines_crlf::to_byte_idx(text, 2));
    assert_eq!(17, lines_crlf::to_byte_idx(text, 3));
}

#[test]
fn lines_crlf_to_byte_idx_02() {
    let text = "\nHere\nare\nsome\nwords\n";
    assert_eq!(0, lines_crlf::to_byte_idx(text, 0));
    assert_eq!(1, lines_crlf::to_byte_idx(text, 1));
    assert_eq!(6, lines_crlf::to_byte_idx(text, 2));
    assert_eq!(10, lines_crlf::to_byte_idx(text, 3));
    assert_eq!(15, lines_crlf::to_byte_idx(text, 4));
    assert_eq!(21, lines_crlf::to_byte_idx(text, 5));
}

#[test]
fn lines_crlf_to_byte_idx_03() {
    assert_eq!(0, lines_crlf::to_byte_idx(TEXT_LINES, 0));
    assert_eq!(32, lines_crlf::to_byte_idx(TEXT_LINES, 1));
    assert_eq!(59, lines_crlf::to_byte_idx(TEXT_LINES, 2));
    assert_eq!(88, lines_crlf::to_byte_idx(TEXT_LINES, 3));

    // Past end
    assert_eq!(124, lines_crlf::to_byte_idx(TEXT_LINES, 4));
    assert_eq!(124, lines_crlf::to_byte_idx(TEXT_LINES, 5));
    assert_eq!(124, lines_crlf::to_byte_idx(TEXT_LINES, 6));
}

#[test]
fn lines_crlf_line_byte_round_trip() {
    let text = "\nHere\nare\nsome\nwords\n";
    assert_eq!(6, lines_crlf::to_byte_idx(text, lines_crlf::from_byte_idx(text, 6)));
    assert_eq!(2, lines_crlf::from_byte_idx(text, lines_crlf::to_byte_idx(text, 2)));

    assert_eq!(0, lines_crlf::to_byte_idx(text, lines_crlf::from_byte_idx(text, 0)));
    assert_eq!(0, lines_crlf::from_byte_idx(text, lines_crlf::to_byte_idx(text, 0)));

    assert_eq!(21, lines_crlf::to_byte_idx(text, lines_crlf::from_byte_idx(text, 21)));
    assert_eq!(5, lines_crlf::from_byte_idx(text, lines_crlf::to_byte_idx(text, 5)));
}
