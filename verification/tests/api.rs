use gutenberg_post_parser::ast::Node;
use gutenberg_post_parser::combinators::ParseError;
use gutenberg_post_parser::encode::count_utf16;
use gutenberg_post_parser::encode::escape_json_literal;
use gutenberg_post_parser::encode::u16_to_u8s;
use gutenberg_post_parser::parser::phrase;
use gutenberg_post_parser::root;

#[test]
fn test_root_with_a_phrase() {
    let input = &b"foo"[..];
    let (remaining, nodes) = root(input).unwrap();

    assert_eq!(remaining, &b""[..]);
    assert_eq!(nodes.len(), 1);
    assert_eq!(nodes[0], Node::Phrase(&b"foo"[..]));
}

#[test]
fn test_root_with_a_block() {
    let input = &b"<!-- wp:foo {bar} /-->"[..];
    let (remaining, nodes) = root(input).unwrap();

    assert_eq!(remaining, &b""[..]);
    assert_eq!(nodes.len(), 1);
    assert_eq!(
        nodes[0],
        Node::Block {
            name: (&b"core"[..], &b"foo"[..]),
            attributes: Some(&b"{bar}"[..]),
            children: vec![],
        }
    );
}

#[test]
fn test_root_with_a_block_with_no_attributes() {
    let input = &b"<!-- wp:foo /-->"[..];
    let (remaining, nodes) = root(input).unwrap();

    assert_eq!(remaining, &b""[..]);
    assert_eq!(nodes.len(), 1);
    assert_eq!(
        nodes[0],
        Node::Block { name: (&b"core"[..], &b"foo"[..]), attributes: None, children: vec![] }
    );
}

#[test]
fn test_root_with_a_block_with_specific_namespace() {
    let input = &b"<!-- wp:foo/bar /-->"[..];
    let (remaining, nodes) = root(input).unwrap();

    assert_eq!(remaining, &b""[..]);
    assert_eq!(nodes.len(), 1);
    assert_eq!(
        nodes[0],
        Node::Block { name: (&b"foo"[..], &b"bar"[..]), attributes: None, children: vec![] }
    );
}

#[test]
fn test_root_default_namespace() {
    let input = &b"<!-- wp:foo /-->"[..];
    let output = Ok((
        &b""[..],
        vec![
            Node::Block { name: (&b"core"[..], &b"foo"[..]), attributes: None, children: vec![] },
        ],
    ));

    assert_eq!(root(input), output);
}

#[test]
fn test_root_explicit_namespace() {
    let input = &b"<!-- wp:ns/foo /-->"[..];
    let output = Ok((
        &b""[..],
        vec![Node::Block { name: (&b"ns"[..], &b"foo"[..]), attributes: None, children: vec![] }],
    ));

    assert_eq!(root(input), output);
}

#[test]
fn test_root_attributes_with_nested_braces() {
    let input = &b"<!-- wp:foo {\"a\":{\"b\":1}} /-->"[..];
    let output = Ok((
        &b""[..],
        vec![
            Node::Block {
                name: (&b"core"[..], &b"foo"[..]),
                attributes: Some(&b"{\"a\":{\"b\":1}}"[..]),
                children: vec![],
            },
        ],
    ));

    assert_eq!(root(input), output);
}

#[test]
fn test_root_balanced_with_mixed_children() {
    let input = &b"<!-- wp:foo --> abc <!-- wp:bar /--> def <!-- /wp:foo -->"[..];
    let output = Ok((
        &b""[..],
        vec![
            Node::Block {
                name: (&b"core"[..], &b"foo"[..]),
                attributes: None,
                children: vec![
                    Node::Phrase(&b" abc "[..]),
                    Node::Block {
                        name: (&b"core"[..], &b"bar"[..]),
                        attributes: None,
                        children: vec![],
                    },
                    Node::Phrase(&b" def "[..]),
                ],
            },
        ],
    ));

    assert_eq!(root(input), output);
}

#[test]
fn test_root_foreign_comment_pass_through() {
    let input = &b"<p><!-- more --></p><!-- wp:foo /-->"[..];
    let output = Ok((
        &b""[..],
        vec![
            Node::Phrase(&b"<p><!-- more --></p>"[..]),
            Node::Block { name: (&b"core"[..], &b"foo"[..]), attributes: None, children: vec![] },
        ],
    ));

    assert_eq!(root(input), output);
}

#[test]
fn test_root_empty_input() {
    let input = &b""[..];

    assert_eq!(root(input), Ok((&b""[..], vec![])));
}

#[test]
fn test_root_malformed_block_stops_cleanly() {
    // A pseudo-block whose name is invalid is neither a block nor a
    // phrase: the axiom rule stops there and returns it unconsumed.
    let input = &b"<!-- wp:123 -->"[..];

    assert_eq!(root(input), Ok((input, vec![])));
}

#[test]
fn test_root_round_trip_concatenation() {
    // Concatenating the source segments of the recognized nodes, in
    // order, reproduces the consumed prefix of the input: here the two
    // phrase spans plus the void block's source text cover the input.
    let input = &b"abc <!-- wp:foo /--> def"[..];
    let (remaining, nodes) = root(input).unwrap();

    assert_eq!(remaining, &b""[..]);
    assert_eq!(nodes.len(), 3);
    assert_eq!(nodes[0], Node::Phrase(&b"abc "[..]));
    assert_eq!(nodes[2], Node::Phrase(&b" def"[..]));
    let mut rebuilt: Vec<u8> = Vec::new();
    rebuilt.extend_from_slice(b"abc ");
    rebuilt.extend_from_slice(b"<!-- wp:foo /-->");
    rebuilt.extend_from_slice(b" def");
    assert_eq!(rebuilt.as_slice(), input);
}

#[test]
fn test_reserialization_idempotence() {
    // Re-encoding the AST in the canonical annotation syntax and parsing
    // it again yields a structurally equal AST.
    let original = &b"<!--  wp:core/foo   {\"a\": 1}   -->x<!-- /wp:core/foo -->"[..];
    let reencoded = &b"<!-- wp:foo {\"a\": 1} -->x<!-- /wp:foo -->"[..];

    let (_, nodes) = root(original).unwrap();
    let (_, renodes) = root(reencoded).unwrap();

    assert_eq!(nodes, renodes);
}

#[test]
fn test_balanced_mismatched_closing_name_is_lenient() {
    // The balanced-block rule recognizes the closing name but does not
    // compare it to the opening name: a mismatched pair still parses,
    // with the opening name retained. This leniency is deliberate.
    let input = &b"<!-- wp:foo -->x<!-- /wp:bar -->"[..];
    let output = Ok((
        &b""[..],
        vec![
            Node::Block {
                name: (&b"core"[..], &b"foo"[..]),
                attributes: None,
                children: vec![Node::Phrase(&b"x"[..])],
            },
        ],
    ));

    assert_eq!(root(input), output);
}

#[test]
fn test_phrase_empty_input_is_no_match() {
    assert_eq!(phrase(&b""[..]), Err(ParseError::NoMatch));
}

#[test]
fn test_into_bytes_void_block_with_attributes() {
    let input = &b"<!-- wp:foo {bar} /-->"[..];
    let (_, nodes) = root(input).unwrap();
    let mut output: Vec<u8> = Vec::new();
    nodes[0].into_bytes(&mut output);

    let mut expected: Vec<u8> = vec![1, 8, 5, 0];
    expected.extend_from_slice(b"core/foo{bar}");
    assert_eq!(output, expected);
}

#[test]
fn test_into_bytes_balanced_block_with_phrase_child() {
    let input = &b"<!-- wp:a -->xy<!-- /wp:a -->"[..];
    let (_, nodes) = root(input).unwrap();
    let mut output: Vec<u8> = Vec::new();
    nodes[0].into_bytes(&mut output);

    let mut expected: Vec<u8> = vec![1, 6, 4, 1];
    expected.extend_from_slice(b"core/anull");
    expected.extend_from_slice(&[2, 0, 2]);
    expected.extend_from_slice(b"xy");
    assert_eq!(output, expected);
}

#[test]
fn test_u16_to_u8s() {
    assert_eq!(u16_to_u8s(0x0000), (0x00, 0x00));
    assert_eq!(u16_to_u8s(0x0102), (0x01, 0x02));
    assert_eq!(u16_to_u8s(0xffff), (0xff, 0xff));
    assert_eq!(u16_to_u8s(256), (1, 0));
}

#[test]
fn test_count_utf16() {
    assert_eq!(count_utf16(""), 0);
    assert_eq!(count_utf16("abc"), 3);
    // U+00E9 is one code unit; U+1F600 needs a surrogate pair.
    assert_eq!(count_utf16("\u{00e9}"), 1);
    assert_eq!(count_utf16("\u{1f600}"), 2);
    assert_eq!(count_utf16("a\u{1f600}b"), 4);
}

#[test]
fn test_escape_json_literal() {
    assert_eq!(escape_json_literal(b"plain"), b"plain".to_vec());
    assert_eq!(escape_json_literal(b"a\nb"), b"a\\nb".to_vec());
    assert_eq!(escape_json_literal(b"a\rb"), b"a\\rb".to_vec());
    assert_eq!(escape_json_literal(b"a\tb"), b"a\\tb".to_vec());
    assert_eq!(escape_json_literal(b"a\"b"), b"a\\\"b".to_vec());
    assert_eq!(escape_json_literal(b"\n\r\t\""), b"\\n\\r\\t\\\"".to_vec());
}
