use rustcache::decimal::{format_i64, parse_i64};

#[test]
fn formats_integers() {
    assert_eq!(format_i64(0), b"0".to_vec());
    assert_eq!(format_i64(10), b"10".to_vec());
    assert_eq!(format_i64(-7), b"-7".to_vec());
    assert_eq!(format_i64(i64::MIN), b"-9223372036854775808".to_vec());
}

#[test]
fn parses_integers_like_the_standard_library() {
    assert_eq!(parse_i64(b"0"), Some(0));
    assert_eq!(parse_i64(b"007"), Some(7));
    assert_eq!(parse_i64(b"-0"), Some(0));
    assert_eq!(parse_i64(b"+12"), Some(12));
    assert_eq!(parse_i64(b"-9223372036854775808"), Some(i64::MIN));
    assert_eq!(parse_i64(b"9223372036854775807"), Some(i64::MAX));
    assert_eq!(parse_i64(b"9223372036854775808"), None);
    assert_eq!(parse_i64(b"-9223372036854775809"), None);
    assert_eq!(parse_i64(b"000000000000000000000000001"), Some(1));
    assert_eq!(parse_i64(b"99999999999999999999999x"), None);
    assert_eq!(parse_i64(b""), None);
    assert_eq!(parse_i64(b"-"), None);
    assert_eq!(parse_i64(b"+"), None);
    assert_eq!(parse_i64(b" 1"), None);
    assert_eq!(parse_i64(b"1.0"), None);
    for i in [-1000i64, -1, 0, 1, 42, i64::MAX, i64::MIN] {
        assert_eq!(i.to_string().parse::<i64>().ok(), parse_i64(&format_i64(i)));
    }
}
