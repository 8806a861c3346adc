use str_indices::byte_chunk::{
    add_lanes, bitand, dec_last_lex_byte, inc_nth_from_end_lex_byte, is_zero, load,
    shift_across, shift_back_lex, shr, splat, sub_lanes, sum_bytes, zero, MAX_ACC, SIZE,
};
use str_indices::chars::count_trailing_chunk;

#[test]
fn load_puts_first_byte_lowest() {
    let bytes = [1u8, 2, 3, 4, 5, 6, 7, 8, 9];
    assert_eq!(0x08_07_06_05_04_03_02_01, load(&bytes, 0));
    assert_eq!(0x09_08_07_06_05_04_03_02, load(&bytes, 1));
}

#[test]
fn splat_zero_and_is_zero() {
    assert_eq!(0x2A2A_2A2A_2A2A_2A2A, splat(0x2A));
    assert_eq!(0, zero());
    assert!(is_zero(zero()));
    assert!(!is_zero(0x0100_0000_0000_0000));
}

#[test]
fn shifts_move_lanes() {
    let w: u64 = 0x08_07_06_05_04_03_02_01;
    assert_eq!(0x00_08_07_06_05_04_03_02, shift_back_lex(w, 1));
    assert_eq!(0x00_00_08_07_06_05_04_03, shift_back_lex(w, 2));
    assert_eq!(0x17_16_15_14_13_12_11_08, shift_across(w, 0x18_17_16_15_14_13_12_11));
    assert_eq!(w >> 1, shr(w, 1));
}

#[test]
fn lane_arithmetic() {
    let a: u64 = 0x01_00_01_00_01_00_01_00;
    let b: u64 = 0x01_01_00_00_01_01_00_00;
    assert_eq!(0x02_01_01_00_02_01_01_00, add_lanes(a, b));
    assert_eq!(0x01_00_00_00_01_00_00_00, bitand(a, b));
    assert_eq!(0x01_00_01_00_01_00_01_00, sub_lanes(add_lanes(a, b), b));
    assert_eq!(0x01_00_01_00_01_00_01_01, inc_nth_from_end_lex_byte(a, 7));
    assert_eq!(0x02_00_01_00_01_00_01_00, inc_nth_from_end_lex_byte(a, 0));
    assert_eq!(0x01_01_01_00_01_00_01_00, inc_nth_from_end_lex_byte(a, 1));
    assert_eq!(0x00_00_01_00_01_00_01_00, dec_last_lex_byte(a));
}

#[test]
fn sum_of_lanes() {
    assert_eq!(4, sum_bytes(0x01_00_01_00_01_00_01_00));
    assert_eq!(36, sum_bytes(0x08_07_06_05_04_03_02_01));
    let ones = splat(1);
    let mut acc = zero();
    for _ in 0..MAX_ACC {
        acc = add_lanes(acc, ones);
    }
    assert_eq!(SIZE * MAX_ACC, sum_bytes(acc));
}

#[test]
fn trailing_bytes_are_flagged() {
    let bytes = "aせb".as_bytes();
    let mut padded = bytes.to_vec();
    padded.extend_from_slice(&[0x80, 0xBF, 0xC0, 0x7F]);
    let w = load(&padded, 0);
    // 61 E3 81 9B 62 80 BF C0
    assert_eq!(0x00_01_01_00_01_01_00_00, count_trailing_chunk(w));
}
