use gutenberg_post_parser::combinators::Lookahead;
use gutenberg_post_parser::combinators::ParseError;
use gutenberg_post_parser::combinators::fold_into_vector;
use gutenberg_post_parser::combinators::is_alphanumeric_extended;
use gutenberg_post_parser::combinators::take_until_terminated;
use gutenberg_post_parser::combinators::take_until_terminated_and_consume;

#[test]
fn combinators_test_take_until_terminated_ok() {
    let input = &b"abcdcba"[..];
    let output = Ok((&b"cba"[..], &b"abcd"[..]));

    assert_eq!(take_until_terminated_and_consume(input, b"d", Lookahead::Tag(b"c")), output);
}

#[test]
fn combinators_test_take_until_terminated_ok_at_position_0() {
    let input = &b"abcdcba"[..];
    let output = Ok((&b"bcdcba"[..], &b"a"[..]));

    assert_eq!(take_until_terminated_and_consume(input, b"a", Lookahead::Tag(b"b")), output);
}

#[test]
fn combinators_test_take_until_terminated_ok_at_position_eof_minus_one() {
    let input = &b"abcdcba"[..];
    let output = Ok((&b"a"[..], &b"abcdcb"[..]));

    assert_eq!(take_until_terminated_and_consume(input, b"b", Lookahead::Tag(b"a")), output);
}

#[test]
fn combinators_test_take_until_terminated_ok_with_multiple_substring() {
    let input = &b"abcdcba"[..];
    let output = Ok((&b"ba"[..], &b"abcdc"[..]));

    assert_eq!(take_until_terminated_and_consume(input, b"c", Lookahead::Tag(b"b")), output);
}

#[test]
fn combinators_test_take_until_terminated_error() {
    let input = &b"abcdcba"[..];
    let output = Err(ParseError::Incomplete);

    assert_eq!(take_until_terminated_and_consume(input, b"a", Lookahead::Tag(b"z")), output);
}

#[test]
fn combinators_test_take_until_terminated_optional() {
    let input = &b"abcdcba"[..];
    let output: Option<(&[u8], &[u8])> =
        take_until_terminated_and_consume(input, b"a", Lookahead::Tag(b"z")).ok();

    assert_eq!(output, None);
}

#[test]
fn test_take_until_terminated_without_consuming() {
    let input = &b"abcdcba"[..];
    let output = Ok((&b"dcba"[..], &b"abc"[..]));

    assert_eq!(take_until_terminated(input, b"d", Lookahead::Tag(b"c")), output);
}

#[test]
fn test_take_until_terminated_ws_lookahead() {
    // The terminator is only confirmed when, after optional whitespace,
    // one of the two literals follows.
    let input = &b"x}y} \t-->z"[..];
    let output = Ok((&b" \t-->z"[..], &b"x}y}"[..]));

    assert_eq!(
        take_until_terminated_and_consume(input, b"}", Lookahead::WsThenEither(b"/-->", b"-->")),
        output
    );
}

#[test]
fn test_fold_into_vector() {
    let accumulator = vec![1u32, 2];
    let folded = fold_into_vector(accumulator, 3);

    assert_eq!(folded, vec![1u32, 2, 3]);
}

#[test]
fn test_is_alphanumeric_extended() {
    assert!(is_alphanumeric_extended(b'a'));
    assert!(is_alphanumeric_extended(b'z'));
    assert!(is_alphanumeric_extended(b'0'));
    assert!(is_alphanumeric_extended(b'9'));
    assert!(is_alphanumeric_extended(b'_'));
    assert!(is_alphanumeric_extended(b'-'));
    assert!(!is_alphanumeric_extended(b'A'));
    assert!(!is_alphanumeric_extended(b'/'));
    assert!(!is_alphanumeric_extended(b' '));
}
