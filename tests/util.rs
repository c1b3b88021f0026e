use resserve::text::parse_number;
use resserve::util::{decimal_string, fmt_size};

#[test]
fn sizes_in_bytes() {
    assert_eq!(fmt_size(0), "0.00 B");
    assert_eq!(fmt_size(1), "1.00 B");
    assert_eq!(fmt_size(1023), "1023.00 B");
}

#[test]
fn sizes_in_larger_units() {
    assert_eq!(fmt_size(1024), "1.00 KB");
    assert_eq!(fmt_size(1536), "1.50 KB");
    assert_eq!(fmt_size(1024 * 1024), "1.00 MB");
    assert_eq!(fmt_size(100 * 1024 * 1024), "100.00 MB");
    assert_eq!(fmt_size(3 * 1024 * 1024 * 1024), "3.00 GB");
    assert_eq!(fmt_size(1024 * 1024 - 1), "1024.00 KB");
}

#[test]
fn sizes_round_to_hundredths_like_float_formatting() {
    for u in [1000usize, 1025, 1100, 1152, 1160, 2047, 5000, 123456, 999999, 1 << 30, 12345678901] {
        let mut v = u as f64;
        let mut i = 0;
        let units = ["B", "KB", "MB", "GB", "TB", "PB", "EB", "ZB", "YB"];
        while v >= 1024. && i < units.len() - 1 {
            v /= 1024.;
            i += 1;
        }
        assert_eq!(fmt_size(u), format!("{:.2} {}", v, units[i]), "size {}", u);
    }
}

#[test]
fn largest_size() {
    assert_eq!(fmt_size(usize::MAX), "16.00 EB");
}

#[test]
fn decimal_strings() {
    assert_eq!(decimal_string(0), "0");
    assert_eq!(decimal_string(7), "7");
    assert_eq!(decimal_string(10), "10");
    assert_eq!(decimal_string(18446744073709551615), "18446744073709551615");
}

#[test]
fn numbers_parse_like_str_parse() {
    assert_eq!(parse_number("8080", 65535), Some(8080));
    assert_eq!(parse_number("+7", 65535), Some(7));
    assert_eq!(parse_number("65536", 65535), None);
    assert_eq!(parse_number("", 65535), None);
    assert_eq!(parse_number("+", 65535), None);
    assert_eq!(parse_number("-1", 65535), None);
    assert_eq!(parse_number("12a", 65535), None);
    assert_eq!(parse_number("007", 65535), Some(7));
    assert_eq!(parse_number("18446744073709551615", u64::MAX), Some(u64::MAX));
    assert_eq!(parse_number("18446744073709551616", u64::MAX), None);
}
