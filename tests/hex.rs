use bitflags_serde::hex::{parse_hex, write_hex};

fn chars(s: &str) -> Vec<char> {
    s.chars().collect()
}

#[test]
fn hex_is_written_in_lower_case_without_leading_zeros() {
    let mut out = String::from("v=");
    write_hex(&mut out, 0);
    assert_eq!(out, "v=0");
    let mut out = String::new();
    write_hex(&mut out, 0xdead_beef);
    assert_eq!(out, "deadbeef");
    let mut out = String::new();
    write_hex(&mut out, u64::MAX);
    assert_eq!(out, "ffffffffffffffff");
}

#[test]
fn hex_is_read_within_a_range_and_a_bound() {
    let s = chars("x+1F|");
    assert_eq!(parse_hex(&s, 1, 4, 0xff), Some(0x1f));
    assert_eq!(parse_hex(&s, 2, 4, 0x1e), None);
    assert_eq!(parse_hex(&s, 1, 2, 0xff), None);
    assert_eq!(parse_hex(&s, 1, 5, 0xff), None);
    assert_eq!(parse_hex(&s, 3, 3, 0xff), None);
}
