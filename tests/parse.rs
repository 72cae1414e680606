use lisp::parse::{at, parse, parse_identifier, parse_int, parse_str, Node, ParseError};

fn integer(payload: i64, at: usize) -> Node {
    Node::Integer { payload, at }
}

fn ident(payload: &str, at: usize) -> Node {
    Node::Identifier { payload: payload.to_string(), at }
}

fn text(payload: &str, at: usize) -> Node {
    Node::String { payload: payload.to_string(), at }
}

fn form(payload: Vec<Node>, at: usize) -> Node {
    Node::Form { payload, at }
}

#[test]
fn test_parse_int() {
    assert_eq!(Ok((Node::Integer { payload: 42, at: 0 }, 2)), parse_int("42", 0));
    assert_eq!(Ok((Node::Integer { payload: 2, at: 1 }, 2)), parse_int("42", 1));
    assert_eq!(Err(ParseError::FailedToParseInteger { at: 1 }), parse_int(" 1x", 1));
}

#[test]
fn test_parse_str() {
    assert_eq!(
        Ok((
            Node::String {
                payload: "foo".to_string(),
                at: 0
            },
            5
        )),
        parse_str("\"foo\"", 0)
    );
}

#[test]
fn test_parse_identifier() {
    assert_eq!(
        Ok((
            Node::Identifier {
                payload: "test".to_string(),
                at: 0
            },
            4
        )),
        parse_identifier("test", 0)
    );
    assert_eq!(
        Ok((
            Node::Identifier {
                payload: "+".to_string(),
                at: 0
            },
            1
        )),
        parse_identifier("+", 0)
    );
    assert_eq!(Err(ParseError::NoIdentifier { at: 1 }), parse_identifier("f ", 1));
}

#[test]
fn test_parse() {
    assert_eq!(Ok(vec![integer(42, 0)]), parse("42"));
    assert_eq!(Ok(vec![form(vec![integer(42, 1)], 0)]), parse("(42)"));
    assert_eq!(
        Ok(vec![form(vec![integer(42, 1), integer(33, 4)], 0)]),
        parse("(42 33)")
    );
    assert_eq!(
        Ok(vec![form(
            vec![integer(42, 1), form(vec![integer(9, 5), integer(33, 7)], 4)],
            0
        )]),
        parse("(42 (9 33))")
    );
    assert_eq!(
        Ok(vec![form(
            vec![
                ident("+", 1),
                integer(42, 3),
                form(vec![ident("-", 7), integer(9, 9), integer(33, 11)], 6)
            ],
            0
        )]),
        parse("(+ 42 (- 9 33))")
    );
    assert_eq!(
        Ok(vec![form(
            vec![
                ident("def", 1),
                ident("inc", 5),
                form(vec![ident("x", 10)], 9),
                form(vec![ident("+", 14), integer(1, 16), ident("x", 18)], 13),
            ],
            0
        )]),
        parse("(def inc (x) (+ 1 x))")
    );
    // the offset of an unclosed form is that of its opening parenthesis
    assert_eq!(Err(ParseError::UnexpectedEndOfInput { at: 0 }), parse("("));
    assert_eq!(Err(ParseError::UnbalancedParentheses { at: 0 }), parse(")"));
}

#[test]
fn empty_and_blank_inputs_have_no_nodes() {
    assert_eq!(Ok(vec![]), parse(""));
    assert_eq!(Ok(vec![]), parse(" \t\n  "));
}

#[test]
fn several_top_level_nodes_in_order() {
    assert_eq!(
        Ok(vec![integer(1, 0), form(vec![ident("+", 3), integer(2, 5)], 2), text("a b", 8)]),
        parse("1 (+ 2) \"a b\"")
    );
}

#[test]
fn offsets_are_bytes_not_characters() {
    // "é" takes two bytes and "→" three
    assert_eq!(
        Ok(vec![form(vec![ident("é", 1), text("→", 4), integer(7, 10)], 0)]),
        parse("(é \"→\" 7)")
    );
    assert_eq!(Err(ParseError::UnbalancedParentheses { at: 3 }), parse("é )"));
}

#[test]
fn unicode_white_space_separates_tokens() {
    assert_eq!(Ok(vec![integer(1, 0), integer(2, 3)]), parse("1\u{a0}2"));
}

#[test]
fn unclosed_inner_form_reports_its_own_parenthesis() {
    assert_eq!(Err(ParseError::UnexpectedEndOfInput { at: 3 }), parse("(a (b"));
}

#[test]
fn unclosed_string_reports_its_quote() {
    assert_eq!(Err(ParseError::UnexpectedEndOfInput { at: 3 }), parse("(a \"bc"));
    assert_eq!(Err(ParseError::UnexpectedEndOfInput { at: 2 }), parse_str("x \"", 2));
}

#[test]
fn strings_keep_parentheses_and_spaces() {
    assert_eq!(Ok(vec![text("(a) ", 0)]), parse("\"(a) \""));
}

#[test]
fn bad_integer_reports_its_token() {
    assert_eq!(Err(ParseError::FailedToParseInteger { at: 5 }), parse("(+ 1 2x)"));
    assert_eq!(Err(ParseError::FailedToParseInteger { at: 0 }), parse("12(3)"));
}

#[test]
fn first_error_in_the_text_wins() {
    assert_eq!(Err(ParseError::FailedToParseInteger { at: 1 }), parse("(1x ) )"));
    assert_eq!(Err(ParseError::UnbalancedParentheses { at: 0 }), parse(") (1x"));
}

#[test]
fn integer_limits() {
    assert_eq!(Ok(vec![integer(i64::MAX, 0)]), parse("9223372036854775807"));
    assert_eq!(
        Err(ParseError::FailedToParseInteger { at: 0 }),
        parse("9223372036854775808")
    );
    assert_eq!(
        Err(ParseError::FailedToParseInteger { at: 0 }),
        parse("99999999999999999999999")
    );
    assert_eq!(Ok(vec![integer(7, 0)]), parse("007"));
}

#[test]
fn signed_literals_read_directly() {
    assert_eq!(Ok((integer(-5, 0), 2)), parse_int("-5", 0));
    assert_eq!(Ok((integer(5, 0), 2)), parse_int("+5", 0));
    assert_eq!(Ok((integer(i64::MIN, 0), 20)), parse_int("-9223372036854775808", 0));
    assert_eq!(Err(ParseError::FailedToParseInteger { at: 0 }), parse_int("-", 0));
    assert_eq!(Err(ParseError::FailedToParseInteger { at: 2 }), parse_int("1 ", 2));
}

#[test]
fn signs_start_identifiers_in_a_text() {
    assert_eq!(Ok(vec![ident("-5", 0)]), parse("-5"));
}

#[test]
fn token_readers_take_byte_offsets() {
    assert_eq!(Ok((integer(12, 2), 4)), parse_int("é12", 2));
    assert_eq!(Ok((ident("ab", 2), 4)), parse_identifier("éab)", 2));
    assert_eq!(Ok((text("→", 2), 7)), parse_str("é\"→\"", 2));
}

#[test]
fn at_gives_each_node_offset() {
    assert_eq!(3, at(&integer(1, 3)));
    assert_eq!(4, at(&ident("x", 4)));
    assert_eq!(5, at(&text("x", 5)));
    assert_eq!(6, at(&form(vec![], 6)));
}

#[test]
fn parsing_is_deterministic() {
    let input = "(a (b \"c\") 12)";
    assert_eq!(parse(input), parse(input));
}
