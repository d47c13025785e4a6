use axiomatic::error::{CompError, Position};
use axiomatic::lexer::{Lexer, Token, TokenKind};

fn lex(code: &str) -> (Vec<Token>, Vec<CompError>) {
    Lexer::new(code).tokenize()
}

fn kinds(tokens: &[Token]) -> Vec<TokenKind> {
    tokens.iter().map(|t| t.kind.clone()).collect()
}

fn ident(s: &str) -> TokenKind {
    TokenKind::Ident(String::from(s))
}

#[test]
fn keywords_and_identifiers() {
    let (tokens, errors) = lex("axiom schema forall exist axioms Forall _x");
    assert!(errors.is_empty());
    assert_eq!(
        kinds(&tokens),
        vec![
            TokenKind::Axiom,
            TokenKind::Schema,
            TokenKind::ForAll,
            TokenKind::Exist,
            ident("axioms"),
            ident("Forall"),
            ident("_x"),
            TokenKind::EOF
        ]
    );
}

#[test]
fn positions_count_lines_and_all_characters() {
    let (tokens, errors) = lex("a\n  bc");
    assert!(errors.is_empty());
    assert_eq!(tokens[0].pos, Position { line: 1, column: 1, index: 0 });
    assert_eq!(tokens[1].pos, Position { line: 2, column: 5, index: 4 });
    assert_eq!(tokens[1].len, 2);
    // EOF stands at the end of the text
    assert_eq!(tokens[2].kind, TokenKind::EOF);
    assert_eq!(tokens[2].pos, Position { line: 2, column: 7, index: 6 });
    assert_eq!(tokens[2].len, 0);
}

#[test]
fn tokens_read_their_own_text() {
    let code = "x1 -> ~(a /\\ b) \\/ c = d, e. f: g + h - i * j / k";
    let (tokens, errors) = lex(code);
    assert!(errors.is_empty());
    let chars: Vec<char> = code.chars().collect();
    for t in &tokens {
        if t.kind == TokenKind::EOF {
            assert_eq!(t.pos.index, chars.len());
            continue;
        }
        let text: String = chars[t.pos.index..t.pos.index + t.len].iter().collect();
        assert_eq!(text, t.kind.display_text());
    }
}

#[test]
fn tokens_in_order_and_eof_last() {
    let (tokens, errors) = lex("  p(q) ->  r  ");
    assert!(errors.is_empty());
    for w in tokens.windows(2) {
        assert!(w[0].pos.index + w[0].len <= w[1].pos.index);
        assert_ne!(w[0].kind, TokenKind::EOF);
    }
    assert_eq!(tokens.last().unwrap().kind, TokenKind::EOF);
}

#[test]
fn clean_text_is_tokens_and_white_space() {
    let code = " \tP( x )\n-> Q ";
    let (tokens, errors) = lex(code);
    assert!(errors.is_empty());
    let chars: Vec<char> = code.chars().collect();
    let mut at = 0;
    for t in &tokens {
        for c in &chars[at..t.pos.index] {
            assert!(c.is_whitespace());
        }
        at = t.pos.index + t.len;
    }
}

#[test]
fn numbers_and_their_limit() {
    let (tokens, errors) = lex("007 9223372036854775807");
    assert!(errors.is_empty());
    assert_eq!(
        kinds(&tokens),
        vec![TokenKind::Number(7), TokenKind::Number(i64::MAX), TokenKind::EOF]
    );
    assert_eq!(tokens[0].len, 3);

    let (tokens, errors) = lex("9223372036854775808 x");
    assert_eq!(errors.len(), 1);
    assert_eq!(
        errors[0].message,
        "number '9223372036854775808' is too large for 64-bit number"
    );
    assert_eq!(errors[0].pos, Position { line: 1, column: 1, index: 0 });
    assert_eq!(errors[0].len, 19);
    // after the error one more character (the space) is skipped
    assert_eq!(kinds(&tokens), vec![ident("x"), TokenKind::EOF]);
}

#[test]
fn unexpected_character_skips_the_next_one() {
    let (tokens, errors) = lex("@xy z");
    assert_eq!(errors.len(), 1);
    assert_eq!(errors[0].message, "unexpected character '@'");
    assert_eq!(errors[0].pos, Position { line: 1, column: 1, index: 0 });
    assert_eq!(errors[0].len, 1);
    assert_eq!(kinds(&tokens), vec![ident("y"), ident("z"), TokenKind::EOF]);
}

#[test]
fn lone_backslash_is_reported_without_being_consumed() {
    let (tokens, errors) = lex("\\ a");
    assert_eq!(errors.len(), 1);
    assert_eq!(errors[0].message, "unexpected character '\\'");
    assert_eq!(errors[0].pos, Position { line: 1, column: 1, index: 0 });
    assert_eq!(kinds(&tokens), vec![ident("a"), TokenKind::EOF]);
    // the position after the error keeps the column of the backslash
    assert_eq!(tokens[0].pos, Position { line: 1, column: 2, index: 2 });
}

#[test]
fn error_at_the_end_stops_without_eof() {
    let (tokens, errors) = lex("a @");
    assert_eq!(errors.len(), 1);
    assert_eq!(kinds(&tokens), vec![ident("a")]);

    let (tokens, errors) = lex("\\");
    assert_eq!(errors.len(), 1);
    assert!(tokens.is_empty());
}

#[test]
fn operators_take_the_longest_match() {
    let (tokens, errors) = lex("- -> / /\\ \\/ -/");
    assert!(errors.is_empty());
    assert_eq!(
        kinds(&tokens),
        vec![
            TokenKind::Minus,
            TokenKind::Impl,
            TokenKind::Slash,
            TokenKind::And,
            TokenKind::Or,
            TokenKind::Minus,
            TokenKind::Slash,
            TokenKind::EOF
        ]
    );
    assert_eq!(tokens[1].len, 2);
    assert_eq!(tokens[3].len, 2);
    assert_eq!(tokens[4].len, 2);
}

#[test]
fn unicode_letters_continue_identifiers() {
    let (tokens, errors) = lex("a\u{e9}1 b");
    assert!(errors.is_empty());
    assert_eq!(kinds(&tokens), vec![ident("a\u{e9}1"), ident("b"), TokenKind::EOF]);
    assert_eq!(tokens[0].len, 3);
}

#[test]
fn unicode_white_space_separates_tokens() {
    let (tokens, errors) = lex("a\u{a0}b");
    assert!(errors.is_empty());
    assert_eq!(kinds(&tokens), vec![ident("a"), ident("b"), TokenKind::EOF]);
}

#[test]
fn non_ascii_letter_cannot_start_an_identifier() {
    let (_tokens, errors) = lex("\u{3b1}");
    assert_eq!(errors.len(), 1);
    assert_eq!(errors[0].message, "unexpected character '\u{3b1}'");
}

#[test]
fn token_display_text() {
    let t = Token::new(ident("abc"), Position { line: 1, column: 3, index: 2 }, 3);
    assert_eq!(t.display_text(), "Ident(\"abc\") at 1: 3 (len=3)");
    let t = Token::new(TokenKind::Number(-5), Position { line: 12, column: 140, index: 139 }, 2);
    assert_eq!(t.display_text(), "Number(-5) at 12:140 (len=2)");
    assert_eq!(TokenKind::And.display_text(), "/\\");
    assert_eq!(TokenKind::Or.display_text(), "\\/");
    assert_eq!(TokenKind::Dot.display_text(), ",");
    assert_eq!(TokenKind::Number(i64::MIN).display_text(), "-9223372036854775808");
    assert_eq!(TokenKind::EOF.debug_text(), "EOF");
    assert_eq!(ident("x\"y").debug_text(), "Ident(\"x\\\"y\")");
}

#[test]
fn kinds_compare_by_value() {
    assert!(ident("a").same_as(&ident("a")));
    assert!(!ident("a").same_as(&ident("b")));
    assert!(TokenKind::Number(3).same_as(&TokenKind::Number(3)));
    assert!(!TokenKind::Number(3).same_as(&TokenKind::Number(4)));
    assert!(!TokenKind::Plus.same_as(&TokenKind::Minus));
    let t = Token::new(ident("q"), Position::new(), 1);
    assert_eq!(t.duplicate(), t);
}

#[test]
fn token_text_reads_back_alone() {
    for text in ["forall", "->", "/\\", "x_1", ":"] {
        let (tokens, errors) = lex(text);
        assert!(errors.is_empty());
        assert_eq!(tokens.len(), 2);
        assert_eq!(tokens[0].pos, Position::new());
        assert_eq!(tokens[0].len, text.chars().count());
        assert_eq!(tokens[0].kind.display_text(), text);
        assert!(matches!(tokens[1].kind, TokenKind::EOF));
        assert_eq!(tokens[1].pos.column, text.chars().count() + 1);
        assert_eq!(tokens[1].pos.index, text.chars().count());
    }
}

#[test]
fn number_text_reads_back_alone() {
    for (text, value) in [("0", 0i64), ("42", 42), ("9223372036854775807", i64::MAX)] {
        let (tokens, errors) = lex(text);
        assert!(errors.is_empty());
        assert_eq!(kinds(&tokens), vec![TokenKind::Number(value), TokenKind::EOF]);
        assert_eq!(tokens[0].len, text.len());
        assert_eq!(tokens[1].pos.column, text.len() + 1);
    }
}

#[test]
fn a_space_between_texts_keeps_their_tokens() {
    let pairs = [("forall x:", "P(x)"), ("a-", "-b"), ("12", "34"), ("x /", "/ y")];
    for (a, b) in pairs {
        let (ta, ea) = lex(a);
        let (tb, eb) = lex(b);
        assert!(ea.is_empty() && eb.is_empty());
        let joined = format!("{} {}", a, b);
        let (tj, ej) = lex(&joined);
        assert!(ej.is_empty());
        let mut expected = kinds(&ta);
        expected.pop();
        expected.extend(kinds(&tb));
        assert_eq!(kinds(&tj), expected);
    }
}

#[test]
fn plain_identifier_debug_text() {
    assert_eq!(ident("x_1").debug_text(), "Ident(\"x_1\")");
}
