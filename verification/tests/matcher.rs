use hex2dec::token_at;

fn chars(s: &str) -> Vec<char> {
    s.chars().collect()
}

#[test]
fn prefixed_token_spans() {
    let s = chars("0x12");
    let m = token_at(&s, 0).expect("0x12 is a token");
    assert_eq!(m.outer_start, 0);
    assert_eq!(m.inner_start, 2);
    assert_eq!(m.end, 4);
}

#[test]
fn bare_token_spans() {
    let s = chars("abc");
    let m = token_at(&s, 0).expect("abc is a bare hex run");
    assert_eq!(m.outer_start, 0);
    assert_eq!(m.inner_start, 0);
    assert_eq!(m.end, 3);
}

#[test]
fn short_digit_run_is_no_token() {
    let s = chars("0x1");
    assert!(token_at(&s, 0).is_none());
    let s = chars(" 1 ");
    assert!(token_at(&s, 1).is_none());
}

#[test]
fn word_boundaries_are_required() {
    // No boundary before: "abc" embedded in "xabc".
    let s = chars("xabc");
    assert!(token_at(&s, 1).is_none());
    // No boundary after: digits followed by a word character.
    let s = chars("ab_");
    assert!(token_at(&s, 0).is_none());
    // With a boundary on both sides the same digits match.
    let s = chars(" ab ");
    let m = token_at(&s, 1).expect("delimited digits match");
    assert_eq!(m.outer_start, 1);
    assert_eq!(m.end, 3);
}

#[test]
fn prefix_must_be_lowercase() {
    let s = chars("0X12");
    assert!(token_at(&s, 0).is_none());
    let s = chars("0x12 0X12");
    assert!(token_at(&s, 0).is_some());
    assert!(token_at(&s, 5).is_none());
}

#[test]
fn maximal_run_is_taken() {
    let s = chars(" deadBEEF09 ");
    let m = token_at(&s, 1).expect("a long run matches whole");
    assert_eq!(m.inner_start, 1);
    assert_eq!(m.end, 11);
}
