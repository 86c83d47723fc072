use scream::numbers::{parse_u64, to_decimal, to_hex, to_hex_digits, to_signed_decimal};

#[test]
fn numbers_are_shown_as_format_shows_them() {
    for n in [0, 1, 9, 10, 255, 256, 65_535, 1_000_000_007, u64::MAX / 3, u64::MAX] {
        assert_eq!(to_decimal(n), format!("{n}"));
        assert_eq!(to_hex(n), format!("{n:x}"));
        assert_eq!(to_signed_decimal(n as i64), format!("{}", n as i64));
        assert_eq!(to_hex_digits(n, 4), format!("{:04x}", n as u16));
        assert_eq!(parse_u64(&to_decimal(n)), Some(n));
    }
    assert_eq!(to_signed_decimal(i64::MIN), format!("{}", i64::MIN));
    assert_eq!(to_hex_digits(5, 0), "");
}

#[test]
fn numbers_are_read_as_parse_reads_them() {
    for s in [
        "", "0", "+", "-", "+0", "-0", "-1", "+7", "++7", "007", " 7", "7 ", "1e3", "0x10", "٣",
        "18446744073709551615", "18446744073709551616", "00000000000000000000000000000000001",
        "99999999999999999999999999",
    ] {
        assert_eq!(parse_u64(s), s.parse::<u64>().ok(), "{s}");
    }
}
