use lib::decimal::{parse_i32, parse_u32, parse_usize, push_signed, push_unsigned};

fn unsigned_text(n: u64) -> Vec<u8> {
    let mut v = Vec::new();
    push_unsigned(&mut v, n);
    v
}

fn signed_text(n: i32) -> Vec<u8> {
    let mut v = Vec::new();
    push_signed(&mut v, n);
    v
}

#[test]
fn unsigned_text_matches_display() {
    for n in [0u64, 7, 10, 99, 255, 400, 1000, 123456789, u64::MAX] {
        assert_eq!(unsigned_text(n), n.to_string().into_bytes());
    }
}

#[test]
fn signed_text_matches_display() {
    for n in [0i32, 5, -5, 255, -10, i32::MAX, i32::MIN] {
        assert_eq!(signed_text(n), n.to_string().into_bytes());
    }
}

#[test]
fn push_appends_to_existing_text() {
    let mut v = b"ab".to_vec();
    push_unsigned(&mut v, 42);
    push_signed(&mut v, -3);
    assert_eq!(v, b"ab42-3".to_vec());
}

#[test]
fn parse_usize_accepts_what_std_accepts() {
    assert_eq!(parse_usize(b"400"), Some(400));
    assert_eq!(parse_usize(b"+7"), Some(7));
    assert_eq!(parse_usize(b"007"), Some(7));
    assert_eq!(parse_usize(b"0"), Some(0));
    assert_eq!(parse_usize(b"18446744073709551615"), Some(usize::MAX));
}

#[test]
fn parse_usize_rejects_what_std_rejects() {
    for s in [&b""[..], b"+", b"-", b"-1", b"-0", b"12a", b" 12", b"1 2", b"++1", b"18446744073709551616", b"99999999999999999999999"] {
        assert_eq!(parse_usize(s), None);
        assert!(std::str::from_utf8(s).unwrap().parse::<usize>().is_err());
    }
}

#[test]
fn parse_u32_bounds() {
    assert_eq!(parse_u32(b"4294967295"), Some(u32::MAX));
    assert_eq!(parse_u32(b"4294967296"), None);
    assert_eq!(parse_u32(b"20"), Some(20));
    assert_eq!(parse_u32(b"-20"), None);
}

#[test]
fn parse_i32_signs_and_bounds() {
    assert_eq!(parse_i32(b"20"), Some(20));
    assert_eq!(parse_i32(b"+20"), Some(20));
    assert_eq!(parse_i32(b"-20"), Some(-20));
    assert_eq!(parse_i32(b"-0"), Some(0));
    assert_eq!(parse_i32(b"2147483647"), Some(i32::MAX));
    assert_eq!(parse_i32(b"-2147483648"), Some(i32::MIN));
    assert_eq!(parse_i32(b"2147483648"), None);
    assert_eq!(parse_i32(b"-2147483649"), None);
    assert_eq!(parse_i32(b"-"), None);
    assert_eq!(parse_i32(b"+-1"), None);
    assert_eq!(parse_i32(b"-+1"), None);
    assert_eq!(parse_i32(b""), None);
}

#[test]
fn parse_agrees_with_std_on_samples() {
    let samples = ["0", "1", "+1", "-1", "42x", "x", "", "+", "-", "2147483647", "-2147483648",
        "2147483648", "4294967295", "4294967296", "0001", "-0001", "1_000"];
    for s in samples {
        assert_eq!(parse_i32(s.as_bytes()), s.parse::<i32>().ok());
        assert_eq!(parse_u32(s.as_bytes()), s.parse::<u32>().ok());
        assert_eq!(parse_usize(s.as_bytes()), s.parse::<usize>().ok());
    }
}

#[test]
fn format_then_parse_round_trips() {
    for n in [0u64, 1, 9, 10, 225, 400, 65535, 4294967295] {
        assert_eq!(parse_usize(&unsigned_text(n)), Some(n as usize));
    }
    for v in [0i32, 1, -1, 20, -20, i32::MAX, i32::MIN] {
        assert_eq!(parse_i32(&signed_text(v)), Some(v));
    }
}
