use str_indices::byte_chunk::{bytes_between_127, cmp_eq_byte};

#[test]
fn usize_flag_bytes_01() {
    let v: u64 = 0xE2_09_08_A6_E2_A6_E2_09;
    assert_eq!(0x00_00_00_00_00_00_00_00, cmp_eq_byte(v, 0x07));
    assert_eq!(0x00_00_01_00_00_00_00_00, cmp_eq_byte(v, 0x08));
    assert_eq!(0x00_01_00_00_00_00_00_01, cmp_eq_byte(v, 0x09));
    assert_eq!(0x00_00_00_01_00_01_00_00, cmp_eq_byte(v, 0xA6));
    assert_eq!(0x01_00_00_00_01_00_01_00, cmp_eq_byte(v, 0xE2));
}

#[test]
fn usize_bytes_between_127_01() {
    let v: u64 = 0x7E_09_00_A6_FF_7F_08_07;
    assert_eq!(0x01_01_00_00_00_00_01_01, bytes_between_127(v, 0x00, 0x7F));
    assert_eq!(0x00_01_00_00_00_00_01_00, bytes_between_127(v, 0x07, 0x7E));
    assert_eq!(0x00_01_00_00_00_00_00_00, bytes_between_127(v, 0x08, 0x7E));
}
