use rpp_tree::parser::parse_element;
use rpp_tree::parser::Child;
use rpp_tree::parser::Element;
use rpp_tree::parser::ParseError;
use rpp_tree::serialize::serialize_to_string;

fn tok(s: &str) -> Vec<u8> {
    s.as_bytes().to_vec()
}

fn line(words: &[&str]) -> Child {
    Child::Line(words.iter().map(|w| tok(w)).collect())
}

#[test]
fn parse_simple_document() {
    let input = b"<TRACK 1 2\n  x y\n>".to_vec();
    let e = parse_element(&input).unwrap();
    assert_eq!(e.tag, tok("TRACK"));
    assert_eq!(e.attr, vec![tok("1"), tok("2")]);
    assert_eq!(e.children, vec![line(&["x", "y"])]);
}

#[test]
fn parse_nested_document() {
    let input = b"<A\n  <B b1\n    1 2\n  >\n  tail\n>".to_vec();
    let e = parse_element(&input).unwrap();
    assert_eq!(e.tag, tok("A"));
    assert_eq!(e.attr.len(), 0);
    assert_eq!(e.children.len(), 2);
    match &e.children[0] {
        Child::Element(b) => {
            assert_eq!(b.tag, tok("B"));
            assert_eq!(b.attr, vec![tok("b1")]);
            assert_eq!(b.children, vec![line(&["1", "2"])]);
        },
        other => panic!("expected a nested element, got {:?}", other),
    }
    assert_eq!(e.children[1], line(&["tail"]));
}

#[test]
fn parse_allows_blank_space_around_document() {
    let input = b"  \n\t<a\n>\r\n \t".to_vec();
    let e = parse_element(&input).unwrap();
    assert_eq!(e.tag, tok("a"));
}

#[test]
fn parse_accepts_crlf_line_ends() {
    let input = b"<a 1\r\n  x\r\n>".to_vec();
    let e = parse_element(&input).unwrap();
    assert_eq!(e.attr, vec![tok("1")]);
    assert_eq!(e.children, vec![line(&["x"])]);
}

#[test]
fn parse_reads_quoted_attributes_and_tokens() {
    let input = b"<a \"x y\" 'it\"s'\n  `mix \"it's\"` w\n>".to_vec();
    let e = parse_element(&input).unwrap();
    assert_eq!(e.attr, vec![tok("x y"), tok("it\"s")]);
    assert_eq!(e.children, vec![line(&["mix \"it's\"", "w"])]);
}

#[test]
fn unterminated_quote_is_rejected() {
    let input = b"<a\n  'oops\n>".to_vec();
    assert_eq!(parse_element(&input), Err(ParseError::UnterminatedQuote));
}

#[test]
fn missing_closing_marker_is_rejected() {
    let input = b"<a\n  x\n".to_vec();
    assert_eq!(parse_element(&input), Err(ParseError::MissingClosingMarker));
}

#[test]
fn trailing_content_is_rejected() {
    let input = b"<a\n>\njunk".to_vec();
    assert_eq!(parse_element(&input), Err(ParseError::TrailingContent));
}

#[test]
fn missing_tag_is_rejected() {
    let input = b"<\n>".to_vec();
    assert_eq!(parse_element(&input), Err(ParseError::MissingTag));
    let input = b"plain text".to_vec();
    assert_eq!(parse_element(&input), Err(ParseError::MissingTag));
}

#[test]
fn blank_line_inside_element_is_rejected() {
    let input = b"<a\n\n>".to_vec();
    assert_eq!(parse_element(&input), Err(ParseError::UnexpectedDelimiter));
}

#[test]
fn serialize_preserves_attribute_and_child_order() {
    let e = Element {
        tag: tok("t"),
        attr: vec![tok("a"), tok("b"), tok("c")],
        children: vec![line(&["x"]), line(&["y"]), line(&["z"])],
    };
    let text = serialize_to_string(&e);
    assert_eq!(text, b"<t a b c\n  x\n  y\n  z\n>".to_vec());
    let back = parse_element(&text).unwrap();
    assert_eq!(back, e);
}

#[test]
fn serialize_indents_nested_elements() {
    let e = Element {
        tag: tok("A"),
        attr: vec![],
        children: vec![Child::Element(Element {
            tag: tok("B"),
            attr: vec![tok("p")],
            children: vec![line(&["1", "2"])],
        })],
    };
    let text = serialize_to_string(&e);
    assert_eq!(text, b"<A\n  <B p\n    1 2\n  >\n>".to_vec());
}

#[test]
fn round_trip_with_quoting() {
    let e = Element {
        tag: tok("NODE"),
        attr: vec![tok("has space"), tok(""), tok("say \"it's\"")],
        children: vec![line(&["it's", "say \"hi\"", "plain"])],
    };
    let text = serialize_to_string(&e);
    let back = parse_element(&text).unwrap();
    assert_eq!(back, e);
}

#[test]
fn reserialization_is_stable() {
    let e = Element {
        tag: tok("ROOT"),
        attr: vec![tok("v1")],
        children: vec![
            line(&["alpha", "beta gamma"]),
            Child::Element(Element {
                tag: tok("IN"),
                attr: vec![],
                children: vec![line(&[""])],
            }),
        ],
    };
    let text = serialize_to_string(&e);
    let again = serialize_to_string(&parse_element(&text).unwrap());
    assert_eq!(again, text);
}

#[test]
fn deep_nesting_round_trips() {
    let mut e = Element {
        tag: tok("LEAF"),
        attr: vec![tok("a")],
        children: vec![line(&["x"])],
    };
    for _ in 0..50 {
        e = Element {
            tag: tok("NODE"),
            attr: vec![tok("a")],
            children: vec![line(&["x"]), Child::Element(e)],
        };
    }
    let text = serialize_to_string(&e);
    let back = parse_element(&text).unwrap();
    assert_eq!(back, e);
    assert_eq!(serialize_to_string(&back), text);
}

#[test]
fn backtick_normalizes_to_single_quote_on_round_trip() {
    let e = Element {
        tag: tok("T"),
        attr: vec![tok("a`b")],
        children: vec![line(&["x"])],
    };
    let text = serialize_to_string(&e);
    let back = parse_element(&text).unwrap();
    assert_eq!(back.attr, vec![tok("a'b")]);
}

#[test]
fn process_appends_at_indent_level() {
    let e = Element { tag: tok("X"), attr: vec![], children: vec![] };
    let mut buf = b"  ".to_vec();
    rpp_tree::serialize::process(&mut buf, &e, 1);
    assert_eq!(buf, b"    <X\n  >".to_vec());
}

#[test]
fn line_opening_with_marker_must_be_an_element() {
    // A child line whose first byte is '<' is parsed as a nested element;
    // here that element is never closed, so the whole parse fails.
    let input = b"<a\n  <inner x\n>".to_vec();
    assert_eq!(parse_element(&input), Err(ParseError::MissingClosingMarker));
}

#[test]
fn bare_carriage_return_is_not_a_line_end() {
    let input = b"<a\r>".to_vec();
    assert_eq!(parse_element(&input), Err(ParseError::MissingClosingMarker));
}
