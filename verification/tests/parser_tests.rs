use lean_parser::error::ParseErrorKind;
use lean_parser::parser::{Parser, ParsingMode};
use lean_parser::recovery::RecoveryStrategy;
use lean_parser::syntax::{Syntax, SyntaxKind, TriviaKind};

fn atom_value(s: &Syntax) -> String {
    match s {
        Syntax::Atom(a) => a.value.clone(),
        _ => panic!("expected an atom, got {:?}", s),
    }
}

#[test]
fn test_keyword() {
    let mut parser = Parser::new("def");
    let result = parser.keyword("def");
    assert!(result.is_ok());

    let mut parser = Parser::new("define");
    let result = parser.keyword("def");
    assert!(result.is_err());
}

#[test]
fn test_whitespace_handling() {
    let mut parser = Parser::new("  \n  hello");
    parser.skip_whitespace();
    let result = parser.identifier();
    assert!(result.is_ok());
}

#[test]
fn test_comments() {
    let mut parser = Parser::new("-- this is a comment\nhello");
    parser.skip_whitespace_and_comments();
    let result = parser.identifier();
    assert!(result.is_ok());

    let mut parser = Parser::new("/- block comment -/ hello");
    parser.skip_whitespace_and_comments();
    let result = parser.identifier();
    assert!(result.is_ok());

    let mut parser = Parser::new("/- nested /- comment -/ -/ hello");
    parser.skip_whitespace_and_comments();
    let result = parser.identifier();
    assert!(result.is_ok());
}

#[test]
fn test_whitespace_preservation() {
    let mut parser = Parser::new("   hello");
    let result = parser.identifier().unwrap();
    if let Syntax::Atom(atom) = result {
        assert_eq!(atom.value.as_str(), "hello");
        assert_eq!(atom.leading_trivia.len(), 1);
        assert_eq!(atom.leading_trivia[0].kind, TriviaKind::Whitespace);
        assert_eq!(atom.leading_trivia[0].text, "   ");
        assert!(atom.trailing_trivia.is_empty());
    } else {
        panic!("Expected atom, got: {:?}", result);
    }
}

#[test]
fn test_line_comment_preservation() {
    let mut parser = Parser::new("-- This is a comment\nhello");
    let result = parser.identifier().unwrap();
    if let Syntax::Atom(atom) = result {
        assert_eq!(atom.value.as_str(), "hello");
        assert_eq!(atom.leading_trivia.len(), 2);
        assert_eq!(atom.leading_trivia[0].kind, TriviaKind::LineComment);
        assert_eq!(atom.leading_trivia[0].text, "-- This is a comment");
        assert_eq!(atom.leading_trivia[1].kind, TriviaKind::Whitespace);
        assert_eq!(atom.leading_trivia[1].text, "\n");
    } else {
        panic!("Expected atom, got: {:?}", result);
    }
}

#[test]
fn test_block_comment_preservation() {
    let mut parser = Parser::new("/- block comment -/ hello");
    let result = parser.identifier().unwrap();
    if let Syntax::Atom(atom) = result {
        assert_eq!(atom.value.as_str(), "hello");
        assert_eq!(atom.leading_trivia.len(), 2);
        assert_eq!(atom.leading_trivia[0].kind, TriviaKind::BlockComment);
        assert_eq!(atom.leading_trivia[0].text, "/- block comment -/");
        assert_eq!(atom.leading_trivia[1].kind, TriviaKind::Whitespace);
        assert_eq!(atom.leading_trivia[1].text, " ");
    } else {
        panic!("Expected atom, got: {:?}", result);
    }
}

#[test]
fn test_doc_comment_preservation() {
    let mut parser = Parser::new("/-- Documentation comment --/ hello");
    let result = parser.identifier().unwrap();
    if let Syntax::Atom(atom) = result {
        assert_eq!(atom.value.as_str(), "hello");
        assert_eq!(atom.leading_trivia.len(), 2);
        assert_eq!(atom.leading_trivia[0].kind, TriviaKind::DocComment);
        assert_eq!(atom.leading_trivia[0].text, "/-- Documentation comment --/");
        assert_eq!(atom.leading_trivia[1].kind, TriviaKind::Whitespace);
        assert_eq!(atom.leading_trivia[1].text, " ");
    } else {
        panic!("Expected atom, got: {:?}", result);
    }
}

#[test]
fn test_mixed_trivia_preservation() {
    let mut parser = Parser::new("  \n-- comment\n  /- block -/  hello");
    let result = parser.identifier().unwrap();
    if let Syntax::Atom(atom) = result {
        assert_eq!(atom.value.as_str(), "hello");
        assert!(atom.leading_trivia.len() >= 4);
        let has_whitespace = atom.leading_trivia.iter().any(|t| t.kind == TriviaKind::Whitespace);
        let has_line_comment = atom.leading_trivia.iter().any(|t| t.kind == TriviaKind::LineComment);
        let has_block_comment = atom.leading_trivia.iter().any(|t| t.kind == TriviaKind::BlockComment);
        assert!(has_whitespace, "Should have whitespace trivia");
        assert!(has_line_comment, "Should have line comment trivia");
        assert!(has_block_comment, "Should have block comment trivia");
    } else {
        panic!("Expected atom, got: {:?}", result);
    }
}

#[test]
fn test_trivia_preservation_across_tokens() {
    let mut parser = Parser::new("hello  /- comment -/  world");
    let first = parser.identifier().unwrap();
    if let Syntax::Atom(atom) = first {
        assert_eq!(atom.value.as_str(), "hello");
    }
    let second = parser.identifier().unwrap();
    if let Syntax::Atom(atom) = second {
        assert_eq!(atom.value.as_str(), "world");
        assert!(!atom.leading_trivia.is_empty(), "Second token should have trivia");
        let has_comment = atom.leading_trivia.iter().any(|t| t.kind == TriviaKind::BlockComment);
        assert!(has_comment, "Should preserve block comment between tokens");
    }
}

#[test]
fn test_no_trivia() {
    let mut parser = Parser::new("hello");
    let result = parser.identifier().unwrap();
    if let Syntax::Atom(atom) = result {
        assert_eq!(atom.value.as_str(), "hello");
        assert!(atom.leading_trivia.is_empty(), "Should have no leading trivia");
        assert!(atom.trailing_trivia.is_empty(), "Should have no trailing trivia");
    } else {
        panic!("Expected atom, got: {:?}", result);
    }
}

#[test]
fn test_skip_to_delimiter() {
    let mut parser = Parser::new("foo bar) baz");
    let result = parser.skip_to_delimiter(')');
    assert!(result.is_ok());
    assert_eq!(parser.peek(), Some(')'));
}

#[test]
fn test_skip_to_next_statement() {
    let mut parser = Parser::new("garbage text def foo := 42");
    let result = parser.skip_to_next_statement();
    assert!(result.is_ok());
    assert!(parser.peek_keyword("def"));
}

#[test]
fn test_parse_delimited_with_recovery() {
    let mut parser = Parser::new("[1, bad syntax, 3, 4 oops, 5]");
    let result = parser.parse_delimited_with_recovery('[', ']', Some(','), |p| p.number());
    assert!(result.is_ok());
    let items = result.unwrap();
    assert!(!items.is_empty());
}

#[test]
fn test_ring_tactic() {
    let mut parser = Parser::new("ring");
    let result = parser.with_mode(ParsingMode::Tactic, |p| p.ring_tactic()).unwrap();
    assert!(matches!(result, Syntax::Node(node) if node.kind == SyntaxKind::CustomTactic));
}

#[test]
fn identifier_positions_are_one_based_columns() {
    let mut parser = Parser::new("hello");
    let result = parser.identifier().unwrap();
    if let Syntax::Atom(atom) = result {
        assert_eq!(atom.range.start.line, 1);
        assert_eq!(atom.range.start.column, 1);
        assert_eq!(atom.range.start.offset, 0);
        assert_eq!(atom.range.end.line, 1);
        assert_eq!(atom.range.end.column, 6);
        assert_eq!(atom.range.end.offset, 5);
    } else {
        panic!("expected an atom");
    }
}

#[test]
fn identifier_with_prime_and_underscore() {
    let mut parser = Parser::new("hello_world");
    assert_eq!(atom_value(&parser.identifier().unwrap()), "hello_world");
    let mut parser = Parser::new("x'");
    let atom = parser.identifier().unwrap();
    assert_eq!(atom_value(&atom), "x'");
    if let Syntax::Atom(a) = atom {
        assert_eq!(a.range.end.column, 3);
        assert_eq!(a.range.end.offset, 2);
    }
}

#[test]
fn identifier_quoted_in_guillemets() {
    let mut parser = Parser::new("«prop:foo bar» x");
    assert_eq!(atom_value(&parser.identifier().unwrap()), "prop:foo bar");
    assert_eq!(parser.peek(), Some(' '));
}

#[test]
fn identifier_unclosed_guillemet_fails_at_end() {
    let mut parser = Parser::new("«abc");
    let err = parser.identifier().unwrap_err();
    match &err.kind {
        ParseErrorKind::Expected(m) => assert_eq!(m, "closing » for quoted identifier"),
        other => panic!("unexpected error {:?}", other),
    }
    assert_eq!(err.position.offset, 5);
}

#[test]
fn identifier_error_on_digit() {
    let mut parser = Parser::new("  42");
    let err = parser.identifier().unwrap_err();
    match &err.kind {
        ParseErrorKind::Expected(m) => assert_eq!(m, "identifier"),
        other => panic!("unexpected error {:?}", other),
    }
    assert_eq!(err.position.offset, 2);
}

#[test]
fn positions_after_newline() {
    let mut parser = Parser::new("\n\n  abc");
    let atom = parser.identifier().unwrap();
    if let Syntax::Atom(a) = atom {
        assert_eq!(a.range.start.line, 1);
        assert_eq!(a.range.start.offset, 0);
    }
    let pos = parser.position();
    assert_eq!(pos.line, 3);
    assert_eq!(pos.column, 6);
    assert_eq!(pos.offset, 7);
}

#[test]
fn trivia_texts_spell_the_skipped_source() {
    let src = " \t-- a\n/- b /- c -/ -/\n/-- d -/x";
    let mut parser = Parser::new(src);
    let atom = parser.identifier().unwrap();
    if let Syntax::Atom(a) = atom {
        let joined: String = a.leading_trivia.iter().map(|t| t.text.clone()).collect();
        assert_eq!(joined, " \t-- a\n/- b /- c -/ -/\n/-- d -/");
        assert_eq!(a.value, "x");
    } else {
        panic!("expected an atom");
    }
}

#[test]
fn keyword_needs_word_boundary_and_does_not_skip() {
    let mut parser = Parser::new("def_x");
    assert!(!parser.peek_keyword("def"));
    let err = parser.keyword("def").unwrap_err();
    match &err.kind {
        ParseErrorKind::Expected(m) => assert_eq!(m, "keyword 'def'"),
        other => panic!("unexpected error {:?}", other),
    }
    let mut parser = Parser::new(" def");
    assert!(parser.keyword("def").is_err());
    let mut parser = Parser::new("def(x)");
    assert!(parser.keyword("def").is_ok());
    assert_eq!(parser.peek(), Some('('));
}

#[test]
fn expect_char_errors() {
    let mut parser = Parser::new("a");
    let err = parser.expect_char('b').unwrap_err();
    match &err.kind {
        ParseErrorKind::Expected(m) => assert_eq!(m, "'b'"),
        other => panic!("unexpected error {:?}", other),
    }
    assert!(parser.expect_char('a').is_ok());
    let err = parser.expect_char('a').unwrap_err();
    assert!(matches!(err.kind, ParseErrorKind::UnexpectedEof));
}

#[test]
fn try_parse_backtracks_on_failure() {
    let mut parser = Parser::new("abc 1");
    let r: Result<(), _> = parser.try_parse(|p| {
        p.advance();
        p.advance();
        p.expect_char('z')
    });
    assert!(r.is_err());
    assert_eq!(parser.position().offset, 0);
    let ok = parser.try_parse(|p| p.identifier());
    assert!(ok.is_ok());
    assert_eq!(parser.position().offset, 3);
}

#[test]
fn save_and_restore_position() {
    let mut parser = Parser::new("hello world");
    parser.save_position();
    parser.identifier().unwrap();
    assert_eq!(parser.position().offset, 5);
    parser.restore_position();
    assert_eq!(parser.position().offset, 0);
    parser.save_position();
    parser.identifier().unwrap();
    parser.commit_position();
    assert_eq!(parser.position().offset, 5);
}

#[test]
fn with_category_restores_the_category() {
    let mut parser = Parser::new("x");
    let seen = parser.with_category("tactic", |p| p.peek());
    assert_eq!(seen, Some('x'));
    let mode = parser.with_mode(ParsingMode::Tactic, |p| p.mode());
    assert_eq!(mode, ParsingMode::Tactic);
    assert_eq!(parser.mode(), ParsingMode::Term);
}

#[test]
fn peek_attribute_list_cases() {
    assert!(Parser::new("[simp]").peek_attribute_list());
    assert!(Parser::new("[ \t_x]").peek_attribute_list());
    assert!(Parser::new("[é]").peek_attribute_list());
    assert!(!Parser::new("[1]").peek_attribute_list());
    assert!(!Parser::new("(simp)").peek_attribute_list());
}

#[test]
fn numbers_of_each_radix() {
    let cases = [
        ("42", "42", 2usize),
        ("3.14", "3.14", 4),
        ("1e10", "1e10", 4),
        ("2.5E-3x", "2.5E-3", 6),
        ("0xFF", "0xFF", 4),
        ("0XaB", "0xaB", 4),
        ("0b101", "0b101", 5),
        ("0o17", "0o17", 4),
        ("1.", "1", 1),
    ];
    for (src, text, end) in cases {
        let mut parser = Parser::new(src);
        let n = parser.number().unwrap();
        assert_eq!(atom_value(&n), text, "input {}", src);
        assert_eq!(parser.position().offset, end, "input {}", src);
    }
}

#[test]
fn number_errors() {
    let mut parser = Parser::new("x");
    let err = parser.number().unwrap_err();
    assert!(matches!(&err.kind, ParseErrorKind::Expected(m) if m == "number"));
    let mut parser = Parser::new("0x");
    let err = parser.number().unwrap_err();
    assert!(matches!(&err.kind, ParseErrorKind::Custom(m) if m == "hexadecimal literal must have at least one digit"));
    let mut parser = Parser::new("0bz");
    let err = parser.number().unwrap_err();
    assert!(matches!(&err.kind, ParseErrorKind::Custom(m) if m == "binary literal must have at least one digit"));
    let mut parser = Parser::new("0o8");
    let err = parser.number().unwrap_err();
    assert!(matches!(&err.kind, ParseErrorKind::Custom(m) if m == "octal literal must have at least one digit"));
}

#[test]
fn string_literals() {
    let mut parser = Parser::new("\"hello world\"");
    let s = parser.string_literal().unwrap();
    assert_eq!(atom_value(&s), "hello world");
    assert_eq!(parser.position().offset, 13);
    let mut parser = Parser::new("\"hello\\nworld\"");
    let s = parser.string_literal().unwrap();
    assert_eq!(atom_value(&s), "hello\nworld");
    assert_eq!(parser.position().offset, 14);
    let mut parser = Parser::new("\"a\\qb\"");
    let err = parser.string_literal().unwrap_err();
    assert!(matches!(&err.kind, ParseErrorKind::Custom(_)));
    let mut parser = Parser::new("\"abc");
    assert_eq!(atom_value(&parser.string_literal().unwrap()), "abc");
    let mut parser = Parser::new("abc");
    assert!(parser.string_literal().is_err());
}

#[test]
fn char_and_raw_string_literals() {
    let mut parser = Parser::new("'a'");
    assert_eq!(atom_value(&parser.char_literal().unwrap()), "a");
    let mut parser = Parser::new("'\\n'");
    assert_eq!(atom_value(&parser.char_literal().unwrap()), "\n");
    let mut parser = Parser::new("'ab'");
    assert!(parser.char_literal().is_err());
    let mut parser = Parser::new("r#\"a\"b\"#");
    assert!(parser.peek_raw_string());
    assert_eq!(atom_value(&parser.raw_string_literal().unwrap()), "a\"b");
    let mut parser = Parser::new("r\"x\\n\"");
    assert_eq!(atom_value(&parser.raw_string_literal().unwrap()), "x\\n");
}

#[test]
fn peeks_for_literal_forms() {
    assert!(Parser::new("s!\"a\"").peek_interpolated_string());
    assert!(!Parser::new("s!a").peek_interpolated_string());
    assert!(Parser::new("0x1").peek_special_number());
    assert!(Parser::new("0B1").peek_special_number());
    assert!(!Parser::new("01").peek_special_number());
}

#[test]
fn recovery_strategies() {
    let mut parser = Parser::new("oops theorem t");
    let err = lean_parser::error::ParseError::expected("term", parser.position());
    let r = parser.recover_from_error(err, RecoveryStrategy::SkipToNextStatement).unwrap();
    assert!(matches!(&r, Syntax::Node(n) if n.kind == SyntaxKind::Error));
    assert!(parser.peek_keyword("theorem"));
    assert_eq!(parser.errors().len(), 1);

    let mut parser = Parser::new("a (b) c] d");
    let r = parser.skip_to_delimiter(']').unwrap();
    assert!(matches!(&r, Syntax::Node(n) if n.kind == SyntaxKind::Error && n.range.end.offset == 7));
    assert_eq!(parser.peek(), Some(']'));

    let mut parser = Parser::new("x y then z");
    parser.skip_to_tokens(&["then", "else"]).unwrap();
    assert!(parser.peek_keyword("then"));

    let mut parser = Parser::new("rest");
    let r = parser.insert_missing_token(")").unwrap();
    assert!(matches!(&r, Syntax::Atom(a) if a.value == ")" && a.range.start.offset == 0 && a.range.end.offset == 0));

    let mut parser = Parser::new("abc\ndef");
    parser.synchronize();
    assert_eq!(parser.peek(), Some('\n'));
    assert!(parser.should_attempt_recovery());
}

#[test]
fn parse_delimited_records_errors_and_keeps_good_items() {
    let mut parser = Parser::new("[1, bad syntax, 3, 4 oops, 5]");
    let items = parser.parse_delimited_with_recovery('[', ']', Some(','), |p| p.number()).unwrap();
    let texts: Vec<String> = items.iter().map(atom_value).collect();
    assert_eq!(texts, vec!["1", "3", "4", "5"]);
    assert!(parser.errors().len() >= 2);
    assert!(parser.input().is_at_end());

    let mut parser = Parser::new("(1 2)");
    let err = parser.parse_delimited_with_recovery('[', ']', Some(','), |p| p.number()).unwrap_err();
    assert!(matches!(&err.kind, ParseErrorKind::Expected(m) if m == "'['"));
}

#[test]
fn delimited_recovery_keeps_the_good_items() {
    let mut parser = Parser::new("[1, bad syntax, 3, 4 oops, 5]");
    let items = parser
        .parse_delimited_with_recovery('[', ']', Some(','), |p| p.number())
        .unwrap();
    let values: Vec<String> = items.iter().map(atom_value).collect();
    assert_eq!(values, vec!["1", "3", "4", "5"]);
    // `bad` and `oops`, and a separator found missing after each of
    // `bad`, `4` and `oops` (the one skipped past is not seen again).
    assert_eq!(parser.errors().len(), 5);
    assert!(parser.input().is_at_end());
}

#[test]
fn delimited_list_without_close_fails_at_the_end() {
    let mut parser = Parser::new("[1, 2");
    let result = parser.parse_delimited_with_recovery('[', ']', Some(','), |p| p.number());
    match result {
        Err(e) => {
            assert!(matches!(e.kind, ParseErrorKind::UnexpectedEof));
            assert_eq!(e.position.offset, 5);
        }
        Ok(_) => panic!("expected an error"),
    }
    let mut parser = Parser::new("1, 2]");
    let result = parser.parse_delimited_with_recovery('[', ']', Some(','), |p| p.number());
    assert!(result.is_err());
    assert_eq!(parser.position().offset, 0);
}

#[test]
fn positions_count_utf8_bytes() {
    let mut parser = Parser::new("αb");
    parser.advance();
    let p = parser.position();
    assert_eq!((p.line, p.column, p.offset), (1, 2, 2));
    parser.advance();
    let p = parser.position();
    assert_eq!((p.line, p.column, p.offset), (1, 3, 3));
}
