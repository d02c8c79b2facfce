use rookrustpad::text::{find_byte, parse_u64, split_into_lines, starts_with, trim_bytes};

#[test]
fn trims_whitespace() {
    assert_eq!(trim_bytes(b"  a b \t\r"), b"a b");
    assert_eq!(trim_bytes(b"   "), b"");
    assert_eq!(trim_bytes(b""), b"");
}

#[test]
fn parses_decimals() {
    assert_eq!(parse_u64(b"0"), Some(0));
    assert_eq!(parse_u64(b"2713310158"), Some(2713310158));
    assert_eq!(parse_u64(b"18446744073709551615"), Some(u64::MAX));
    assert_eq!(parse_u64(b"18446744073709551616"), None);
    assert_eq!(parse_u64(b""), None);
    assert_eq!(parse_u64(b"12a"), None);
    assert_eq!(parse_u64(b"-1"), None);
}

#[test]
fn splits_lines() {
    let l = split_into_lines(b"a\n\nbc\n");
    assert_eq!(l, vec![&b"a"[..], &b""[..], &b"bc"[..]]);
    let l = split_into_lines(b"x\ny");
    assert_eq!(l, vec![&b"x"[..], &b"y"[..]]);
    assert!(split_into_lines(b"").is_empty());
}

#[test]
fn finds_bytes_and_prefixes() {
    assert_eq!(find_byte(b"a,b,c", 0, b','), 1);
    assert_eq!(find_byte(b"a,b,c", 2, b','), 3);
    assert_eq!(find_byte(b"abc", 0, b','), 3);
    assert!(starts_with(b"Monkey 3:", b"Monkey "));
    assert!(!starts_with(b"Monk", b"Monkey "));
}
