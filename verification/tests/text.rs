use soundforge::text::{decimal, parse_decimal};

#[test]
fn numbers_are_written_without_leading_zeros() {
    assert_eq!(decimal(0), "0");
    assert_eq!(decimal(7), "7");
    assert_eq!(decimal(1024), "1024");
    assert_eq!(decimal(u64::MAX), "18446744073709551615");
}

#[test]
fn what_is_written_reads_back() {
    for n in [0, 1, 9, 10, 99, 12_345, u32::MAX as u64, u64::MAX] {
        let s = format!("<{}>", decimal(n));
        assert_eq!(parse_decimal(&s, 1, s.len() - 1, u64::MAX), Some(n));
    }
}

#[test]
fn only_what_would_be_written_is_read() {
    let read = |s: &str| parse_decimal(s, 0, s.len(), 300);
    assert_eq!(read("300"), Some(300));
    assert_eq!(read("301"), None);
    assert_eq!(read("99999999999999999999999"), None);
    assert_eq!(read(""), None);
    assert_eq!(read("007"), None);
    assert_eq!(read("+7"), None);
    assert_eq!(read("7a"), None);
}
