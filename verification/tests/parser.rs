use gutenberg_post_parser::ast::Node;
use gutenberg_post_parser::combinators::Lookahead;
use gutenberg_post_parser::combinators::ParseError;
use gutenberg_post_parser::combinators::take_until_terminated_and_consume;
use gutenberg_post_parser::parser::block;
use gutenberg_post_parser::parser::block_attributes;
use gutenberg_post_parser::parser::block_list;
use gutenberg_post_parser::parser::block_name;
use gutenberg_post_parser::parser::block_name_part;
use gutenberg_post_parser::parser::core_block_name;
use gutenberg_post_parser::parser::namespaced_block_name;
use gutenberg_post_parser::parser::phrase;
use gutenberg_post_parser::parser::whitespaces;

#[test]
fn test_block_list() {
    let input = &b"abc <!-- wp:foo --><!-- wp:bar /--> def <!-- /wp:foo --> ghi"[..];
    let output = Ok((
        &b""[..],
        vec![
            Node::Phrase(&b"abc "[..]),
            Node::Block {
                name: (&b"core"[..], &b"foo"[..]),
                attributes: None,
                children: vec![
                    Node::Block {
                        name: (&b"core"[..], &b"bar"[..]),
                        attributes: None,
                        children: vec![],
                    },
                    Node::Phrase(&b" def "[..]),
                ],
            },
            Node::Phrase(&b" ghi"[..]),
        ],
    ));

    assert_eq!(block_list(input), output);
}

#[test]
fn test_block_list_with_a_regular_comment() {
    let input = &b"<p><!-- more --></p><!-- wp:foo /-->"[..];
    let output = Ok((
        &b""[..],
        vec![
            Node::Phrase(&b"<p><!-- more --></p>"[..]),
            Node::Block {
                name: (&b"core"[..], &b"foo"[..]),
                attributes: None,
                children: vec![],
            },
        ],
    ));

    assert_eq!(block_list(input), output);
}

#[test]
fn test_phrase() {
    let input = &b"foobar"[..];

    assert_eq!(phrase(input), Ok((&b""[..], Node::Phrase(input))));
    assert_eq!(block_list(input), Ok((&b""[..], vec![Node::Phrase(input)])));
}

#[test]
fn test_phrase_comment() {
    let input = &b"<p><!-- more --></p>"[..];

    assert_eq!(phrase(input), Ok((&b""[..], Node::Phrase(input))));
    assert_eq!(block_list(input), Ok((&b""[..], vec![Node::Phrase(input)])));
}

#[test]
fn test_block_balanced_default_namespace_without_attributes() {
    let input = &b"<!-- wp:foo --><!-- /wp:foo -->"[..];
    let output = Ok((
        &b""[..],
        Node::Block { name: (&b"core"[..], &b"foo"[..]), attributes: None, children: vec![] },
    ));

    assert_eq!(block(input), output);
}

#[test]
fn test_block_balanced_coerce_namespace_without_attributes() {
    let input = &b"<!-- wp:ns/foo --><!-- /wp:ns/foo -->"[..];
    let output = Ok((
        &b""[..],
        Node::Block { name: (&b"ns"[..], &b"foo"[..]), attributes: None, children: vec![] },
    ));

    assert_eq!(block(input), output);
}

#[test]
fn test_block_balanced_coerce_namespace_with_attributes() {
    let input = &b"<!-- wp:ns/foo {\"abc\": \"xyz\"} --><!-- /wp:ns/foo -->"[..];
    let output = Ok((
        &b""[..],
        Node::Block {
            name: (&b"ns"[..], &b"foo"[..]),
            attributes: Some(&b"{\"abc\": \"xyz\"}"[..]),
            children: vec![],
        },
    ));

    assert_eq!(block(input), output);
}

#[test]
fn test_block_balanced_with_children() {
    let input = &b"<!-- wp:foo --><!-- wp:bar {\"abc\": true} /--><!-- wp:baz --><!-- wp:qux /--><!-- /wp:baz --><!-- /wp:foo -->"[..];
    let output = Ok((
        &b""[..],
        Node::Block {
            name: (&b"core"[..], &b"foo"[..]),
            attributes: None,
            children: vec![
                Node::Block {
                    name: (&b"core"[..], &b"bar"[..]),
                    attributes: Some(&b"{\"abc\": true}"[..]),
                    children: vec![],
                },
                Node::Block {
                    name: (&b"core"[..], &b"baz"[..]),
                    attributes: None,
                    children: vec![
                        Node::Block {
                            name: (&b"core"[..], &b"qux"[..]),
                            attributes: None,
                            children: vec![],
                        },
                    ],
                },
            ],
        },
    ));

    assert_eq!(block(input), output);
}

#[test]
fn test_block_balanced_with_phrasing_children() {
    let input = &b"<!-- wp:foo --> abc <!-- wp:bar {\"abc\": true} /--> def <!-- wp:baz --> ghi <!-- wp:qux /--> jkl <!-- /wp:baz --> mno <!-- /wp:foo -->"[..];
    let output = Ok((
        &b""[..],
        Node::Block {
            name: (&b"core"[..], &b"foo"[..]),
            attributes: None,
            children: vec![
                Node::Phrase(&b" abc "[..]),
                Node::Block {
                    name: (&b"core"[..], &b"bar"[..]),
                    attributes: Some(&b"{\"abc\": true}"[..]),
                    children: vec![],
                },
                Node::Phrase(&b" def "[..]),
                Node::Block {
                    name: (&b"core"[..], &b"baz"[..]),
                    attributes: None,
                    children: vec![
                        Node::Phrase(&b" ghi "[..]),
                        Node::Block {
                            name: (&b"core"[..], &b"qux"[..]),
                            attributes: None,
                            children: vec![],
                        },
                        Node::Phrase(&b" jkl "[..]),
                    ],
                },
                Node::Phrase(&b" mno "[..]),
            ],
        },
    ));

    assert_eq!(block(input), output);
}

#[test]
fn test_block_void_default_namespace_without_attributes() {
    let input = &b"<!-- wp:foo /-->"[..];
    let output = Ok((
        &b""[..],
        Node::Block { name: (&b"core"[..], &b"foo"[..]), attributes: None, children: vec![] },
    ));

    assert_eq!(block(input), output);
}

#[test]
fn test_block_void_coerce_namespace_without_attributes() {
    let input = &b"<!-- wp:ns/foo /-->"[..];
    let output = Ok((
        &b""[..],
        Node::Block { name: (&b"ns"[..], &b"foo"[..]), attributes: None, children: vec![] },
    ));

    assert_eq!(block(input), output);
}

#[test]
fn test_block_void_coerce_namespace_with_attributes() {
    let input = &b"<!-- wp:ns/foo {\"abc\": \"xyz\"} /-->"[..];
    let output = Ok((
        &b""[..],
        Node::Block {
            name: (&b"ns"[..], &b"foo"[..]),
            attributes: Some(&b"{\"abc\": \"xyz\"}"[..]),
            children: vec![],
        },
    ));

    assert_eq!(block(input), output);
}

#[test]
fn test_namespaced_block_name() {
    let input = &b"foo_bar/baz42 x"[..];
    let output = Ok((&b" x"[..], (&b"foo_bar"[..], &b"baz42"[..])));

    assert_eq!(namespaced_block_name(input), output);
    assert_eq!(block_name(input), output);
}

#[test]
fn test_core_block_name() {
    let input = &b"foo x"[..];
    let output = Ok((&b" x"[..], (&b"core"[..], &b"foo"[..])));

    assert_eq!(core_block_name(input), output);
    assert_eq!(block_name(input), output);
}

#[test]
fn test_block_name_part_shortest() {
    let input = &b"a x"[..];
    let output = Ok((&b" x"[..], &b"a"[..]));

    assert_eq!(block_name_part(input), output);
}

#[test]
fn test_block_name_part_only_alpha() {
    let input = &b"abc xyz"[..];
    let output = Ok((&b" xyz"[..], &b"abc"[..]));

    assert_eq!(block_name_part(input), output);
}

#[test]
fn test_block_name_part_only_alphanumeric() {
    let input = &b"a0b1c xyz"[..];
    let output = Ok((&b" xyz"[..], &b"a0b1c"[..]));

    assert_eq!(block_name_part(input), output);
}

#[test]
fn test_block_name_part() {
    let input = &b"a0b_1c- xyz"[..];
    let output = Ok((&b" xyz"[..], &b"a0b_1c-"[..]));

    assert_eq!(block_name_part(input), output);
}

#[test]
fn test_block_name_part_rejects_leading_digit() {
    let input = &b"1abc"[..];

    assert_eq!(block_name_part(input), Err(ParseError::NoMatch));
}

#[test]
fn test_block_attributes_simple_object() {
    let input = &b"{\"foo\": \"bar\"}-->"[..];
    let output = Ok((&b"-->"[..], &b"{\"foo\": \"bar\"}"[..]));

    assert_eq!(block_attributes(input), output);
}

#[test]
fn test_block_attributes_object() {
    let input = &b"{\"foo\": \"bar\", \"baz\": [1, 2]}-->"[..];
    let output = Ok((&b"-->"[..], &b"{\"foo\": \"bar\", \"baz\": [1, 2]}"[..]));

    assert_eq!(block_attributes(input), output);
}

#[test]
fn test_block_attributes_nested_objects() {
    let input = &b"{\"foo\": {\"bar\": \"baz\"} }-->"[..];
    let output = Ok((&b"-->"[..], &b"{\"foo\": {\"bar\": \"baz\"} }"[..]));

    assert_eq!(block_attributes(input), output);
}

#[test]
fn test_block_attributes_surrounded_by_spaces() {
    let input = &b"{\"foo\": true} \t\r\n-->"[..];
    let output = Ok((&b" \t\r\n-->"[..], &b"{\"foo\": true}"[..]));

    assert_eq!(block_attributes(input), output);
}

#[test]
fn test_block_attributes_object_with_auto_close() {
    let input = &b"{\"foo\": \"bar\", \"baz\": [1, 2]}/-->"[..];
    let output = Ok((&b"/-->"[..], &b"{\"foo\": \"bar\", \"baz\": [1, 2]}"[..]));

    assert_eq!(block_attributes(input), output);
}

#[test]
fn test_block_attributes_unterminated_is_incomplete() {
    let input = &b"{\"foo\": \"bar\""[..];

    assert_eq!(block_attributes(input), Err(ParseError::Incomplete));
}

#[test]
fn test_block_attributes_without_brace_is_no_match() {
    let input = &b"\"foo\"-->"[..];

    assert_eq!(block_attributes(input), Err(ParseError::NoMatch));
}

#[test]
fn test_whitespaces() {
    let input = &b" \n\r\t xyz"[..];
    let output = Ok((&b"xyz"[..], &b" \n\r\t "[..]));

    assert_eq!(whitespaces(input), output);
}

#[test]
fn parser_test_take_until_terminated_ok() {
    let input = &b"abcdcba"[..];
    let output = Ok((&b"cba"[..], &b"abcd"[..]));

    assert_eq!(take_until_terminated_and_consume(input, b"d", Lookahead::Tag(b"c")), output);
}

#[test]
fn parser_test_take_until_terminated_ok_at_position_0() {
    let input = &b"abcdcba"[..];
    let output = Ok((&b"bcdcba"[..], &b"a"[..]));

    assert_eq!(take_until_terminated_and_consume(input, b"a", Lookahead::Tag(b"b")), output);
}

#[test]
fn parser_test_take_until_terminated_ok_at_position_eof_minus_one() {
    let input = &b"abcdcba"[..];
    let output = Ok((&b"a"[..], &b"abcdcb"[..]));

    assert_eq!(take_until_terminated_and_consume(input, b"b", Lookahead::Tag(b"a")), output);
}

#[test]
fn parser_test_take_until_terminated_ok_with_multiple_substring() {
    let input = &b"abcdcba"[..];
    let output = Ok((&b"ba"[..], &b"abcdc"[..]));

    assert_eq!(take_until_terminated_and_consume(input, b"c", Lookahead::Tag(b"b")), output);
}

#[test]
fn parser_test_take_until_terminated_error() {
    let input = &b"abcdcba"[..];
    let output = Err(ParseError::Incomplete);

    assert_eq!(take_until_terminated_and_consume(input, b"a", Lookahead::Tag(b"z")), output);
}

#[test]
fn parser_test_take_until_terminated_optional() {
    let input = &b"abcdcba"[..];
    let output: Option<(&[u8], &[u8])> =
        take_until_terminated_and_consume(input, b"a", Lookahead::Tag(b"z")).ok();

    assert_eq!(output, None);
}
