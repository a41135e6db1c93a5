use teleinfo_sim::checksum::{checksum_byte, compute_checksum};
use teleinfo_sim::group::{encode_group, encode_group_bytes, format_padded};

#[test]
fn checksum_of_base_zero_is_k() {
    // 66 + 65 + 83 + 69 + 32 + 48 * 9 = 683; 683 & 0x3F = 43; 43 + 0x20 = 'K'
    assert_eq!(compute_checksum(&String::from("BASE 000000000")), 'K');
    assert_eq!(checksum_byte(b"BASE 000000000"), b'K');
}

#[test]
fn checksum_of_empty_is_space() {
    assert_eq!(compute_checksum(&String::new()), ' ');
    assert_eq!(checksum_byte(b""), 0x20);
}

#[test]
fn checksum_keeps_low_six_bits() {
    // 0x7F + 0x7F = 254; 254 & 0x3F = 62; 62 + 0x20 = 94
    assert_eq!(checksum_byte(&[0x7F, 0x7F]), 94);
    // 64 * 0xFF = 16320, a multiple of 64
    assert_eq!(checksum_byte(&[0xFF; 64]), 0x20);
}

#[test]
fn checksum_of_non_ascii_uses_utf8_bytes() {
    // 'é' is 0xC3 0xA9 in UTF-8: 195 + 169 = 364; 364 & 0x3F = 44; 44 + 0x20 = 'L'
    assert_eq!(compute_checksum(&String::from("é")), 'L');
}

#[test]
fn padded_value_has_width_digits() {
    assert_eq!(format_padded(0, 9), b"000000000".to_vec());
    assert_eq!(format_padded(1111, 9), b"000001111".to_vec());
    assert_eq!(format_padded(120, 3), b"120".to_vec());
    assert_eq!(format_padded(7, 1), b"7".to_vec());
    assert_eq!(format_padded(0, 1), b"0".to_vec());
}

#[test]
fn padded_value_wider_than_field_keeps_all_digits() {
    assert_eq!(format_padded(1234, 3), b"1234".to_vec());
    assert_eq!(format_padded(1_000_000_000, 9), b"1000000000".to_vec());
    assert_eq!(format_padded(u64::MAX, 1), b"18446744073709551615".to_vec());
}

#[test]
fn base_group_at_zero() {
    assert_eq!(encode_group("BASE", 0, 9), "\nBASE 000000000 K\r");
}

#[test]
fn iinst_group_has_three_digits() {
    let g = encode_group("IINST", 120, 3);
    assert_eq!(g, "\nIINST 120 Z\r");
    assert_eq!(&g[1..10], "IINST 120");
}

#[test]
fn papp_group_has_five_digits() {
    let g = encode_group("PAPP", 16254, 5);
    assert_eq!(g, "\nPAPP 16254 3\r");
    assert_eq!(&g[1..11], "PAPP 16254");
}

#[test]
fn oversized_value_widens_group() {
    assert_eq!(encode_group("IINST", 1234, 3), "\nIINST 1234 Q\r");
}

#[test]
fn group_bytes_match_string_form() {
    assert_eq!(encode_group_bytes(b"HCHC", 1111, 9), b"\nHCHC 000001111 J\r".to_vec());
    assert_eq!(encode_group("HCHC", 1111, 9).into_bytes(), encode_group_bytes(b"HCHC", 1111, 9));
}

#[test]
fn encoding_twice_gives_same_group() {
    for (name, value, width) in [("BASE", 42u64, 9usize), ("IINST", 7, 3), ("PAPP", 99999, 5)] {
        let a = encode_group(name, value, width);
        let b = encode_group(name, value, width);
        assert_eq!(a, b);
        assert_eq!(a.len(), name.len() + width + 5);
    }
}
