use raytracer::decimal::{parse_unsigned, push_decimal};

fn written(n: u32) -> String {
    let mut out = String::new();
    push_decimal(&mut out, n);
    out
}

#[test]
fn parse_reads_digits() {
    assert_eq!(parse_unsigned("0", 10), Some(0));
    assert_eq!(parse_unsigned("42", 100), Some(42));
    assert_eq!(parse_unsigned("0042", 100), Some(42));
    assert_eq!(parse_unsigned("+42", 100), Some(42));
    assert_eq!(parse_unsigned("4294967295", u32::MAX), Some(u32::MAX));
}

#[test]
fn parse_refuses_what_is_no_numeral() {
    for word in ["", "+", "-1", "+-1", "1+", "4 2", " 42", "42 ", "0x10", "1e3", "١٢"] {
        assert_eq!(parse_unsigned(word, u32::MAX), None);
    }
}

#[test]
fn parse_holds_the_limit() {
    assert_eq!(parse_unsigned("100", 100), Some(100));
    assert_eq!(parse_unsigned("101", 100), None);
    assert_eq!(parse_unsigned("65535", 65535), Some(65535));
    assert_eq!(parse_unsigned("65536", 65535), None);
    assert_eq!(parse_unsigned("4294967296", u32::MAX), None);
    assert_eq!(parse_unsigned("18446744073709551616", u32::MAX), None);
    assert_eq!(parse_unsigned("99999999999999999999999999999999999999999", u32::MAX), None);
    assert_eq!(parse_unsigned("0", 0), Some(0));
    assert_eq!(parse_unsigned("1", 0), None);
}

#[test]
fn push_writes_the_numeral() {
    assert_eq!(written(0), "0");
    assert_eq!(written(7), "7");
    assert_eq!(written(10), "10");
    assert_eq!(written(1080), "1080");
    assert_eq!(written(u32::MAX), "4294967295");
}

#[test]
fn push_appends() {
    let mut out = String::from("P6\n");
    push_decimal(&mut out, 640);
    out.push(' ');
    push_decimal(&mut out, 480);
    assert_eq!(out, "P6\n640 480");
}

#[test]
fn written_numbers_are_read_back() {
    for n in [0u32, 1, 9, 10, 99, 100, 255, 256, 65535, 65536, 123456789, u32::MAX] {
        assert_eq!(parse_unsigned(&written(n), u32::MAX), Some(n));
        assert_eq!(n.to_string(), written(n));
        if n > 0 {
            assert_eq!(parse_unsigned(&written(n), n - 1), None);
        }
    }
}
