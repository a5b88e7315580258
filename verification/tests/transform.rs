use hex2dec::hex2dec_line;

#[test]
fn test_hex2dec_line() {
    let tests = [
        ("", ""),
        (" a ", " a "),
        (" 1 ", " 1 "),
        ("0x1", "0x1"),
        ("0x12", "  18"),
        ("  0x1  ", "  0x1  "),
        ("  0x1  ", "  0x1  "),
        (
            "  Magic:   7f 45 4c 46 02 01 01 00 00 00 00 00 00 00 00 00 ",
            "  Magic:   127 69 76 70  2  1  1  0  0  0  0  0  0  0  0  0 ",
        ),
        (
            "        Entry point address:               0x5a200",
            "        Entry point address:                369152",
        ),
    ];
    for test in tests {
        assert_eq!(hex2dec_line(test.0, false).unwrap(), test.1);
    }
}

#[test]
fn pass_through_without_tokens() {
    let inputs = ["", " a ", " 1 ", "0x1", "  0x1  ", "xabc", "ab_", "no hex here!", "0X12"];
    for s in inputs {
        assert_eq!(hex2dec_line(s, false).unwrap(), s);
        assert_eq!(hex2dec_line(s, true).unwrap(), s);
    }
}

#[test]
fn field_width_kept_or_grown() {
    assert_eq!(hex2dec_line("0x12", false).unwrap(), "  18");
    assert_eq!(hex2dec_line("7f", false).unwrap(), "127");
    assert_eq!(hex2dec_line("02", false).unwrap(), " 2");
    for s in ["0x12", "7f", "02", " 1 ", "zzz"] {
        assert!(hex2dec_line(s, false).unwrap().len() >= s.len());
    }
}

#[test]
fn newline_preserved() {
    assert_eq!(hex2dec_line("0x12\n", false).unwrap(), "  18\n");
    assert_eq!(hex2dec_line("0x12\r\n", false).unwrap(), "  18\r\n");
    assert_eq!(hex2dec_line("zzz\n", false).unwrap(), "zzz\n");
}

#[test]
fn idempotent_when_first_result_has_no_token() {
    // A decimal digit is also a hexadecimal digit, so the hypothesis is
    // real: the first result must contain no recognizable token. A
    // one-digit rendering in a two-character field (" 2") is safe; a
    // two-digit one ("18") would match again.
    let inputs = [" 1 ", "02", "0x1", "plain text", "ab_"];
    for s in inputs {
        let once = hex2dec_line(s, true).unwrap();
        let twice = hex2dec_line(&once, true).unwrap();
        assert_eq!(twice, once);
    }
    assert_eq!(hex2dec_line("02", true).unwrap(), " 2");
}

#[test]
fn skip_error_never_fails() {
    let long = "f".repeat(40);
    let line = format!("start 0x{} end", long);
    let out = hex2dec_line(&line, true).unwrap();
    assert_eq!(out, line);
}

#[test]
fn skip_error_keeps_offending_token_and_rewrites_rest() {
    let long = "f".repeat(33);
    let line = format!("0x12 {} 0x1f", long);
    let out = hex2dec_line(&line, true).unwrap();
    assert_eq!(out, format!("  18 {}   31", long));
}

#[test]
fn overflow_reports_inner_digits() {
    let long = "f".repeat(33);
    let line = format!("ok 0x{} rest", long);
    let err = hex2dec_line(&line, false).unwrap_err();
    assert_eq!(err.digits, long);
}

#[test]
fn thirty_two_digits_never_overflow() {
    let digits = "f".repeat(32);
    let out = hex2dec_line(&digits, false).unwrap();
    assert_eq!(out, "340282366920938463463374607431768211455");

    let prefixed = format!("0x{}", digits);
    let out = hex2dec_line(&prefixed, false).unwrap();
    assert_eq!(out, "340282366920938463463374607431768211455");

    assert_eq!(hex2dec_line("0x00000000000000000000000000000000", false).unwrap().trim_start(), "0");
}

#[test]
fn thirty_three_digits_overflow_unless_zero() {
    let digits = "f".repeat(33);
    assert!(hex2dec_line(&digits, false).is_err());
    let err = hex2dec_line(&digits, false).unwrap_err();
    assert_eq!(err.digits, digits);
}

#[test]
fn uppercase_digits_and_lowercase_prefix() {
    assert_eq!(hex2dec_line("0xFF", false).unwrap(), " 255");
    assert_eq!(hex2dec_line("AB", false).unwrap(), "171");
    // An uppercase prefix is not a prefix; its digits are fenced off by
    // the word characters around them, so nothing matches.
    assert_eq!(hex2dec_line("0X12", false).unwrap(), "0X12");
}

#[test]
fn non_ascii_text_passes_through() {
    assert_eq!(hex2dec_line("héllo — 0x12 ü", false).unwrap(), "héllo —   18 ü");
}
