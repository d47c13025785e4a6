use axiomatic::lexer::{Lexer, TokenKind};

#[test]
fn test_lexer_without_errors() {
    let code = "axiom schema abc_ABC forall,\r exist: ~(5+5)*5=30\n    -5 1/5 A /\\ B ~A \\/ C A -> C.";
    let lex = Lexer::new(&code);
    let (tokens, _errors) = lex.tokenize();

    assert_eq!(
        tokens
            .iter()
            .map(|t| t.kind.clone())
            .collect::<Vec<TokenKind>>(),
        vec![
            TokenKind::Axiom,
            TokenKind::Schema,
            TokenKind::Ident(String::from("abc_ABC")),
            TokenKind::ForAll,
            TokenKind::Dot,
            TokenKind::Exist,
            TokenKind::Colon,
            TokenKind::Not,
            TokenKind::LParen,
            TokenKind::Number(5),
            TokenKind::Plus,
            TokenKind::Number(5),
            TokenKind::RParen,
            TokenKind::Star,
            TokenKind::Number(5),
            TokenKind::Eq,
            TokenKind::Number(30),
            TokenKind::Minus,
            TokenKind::Number(5),
            TokenKind::Number(1),
            TokenKind::Slash,
            TokenKind::Number(5),
            TokenKind::Ident(String::from("A")),
            TokenKind::And,
            TokenKind::Ident(String::from("B")),
            TokenKind::Not,
            TokenKind::Ident(String::from("A")),
            TokenKind::Or,
            TokenKind::Ident(String::from("C")),
            TokenKind::Ident(String::from("A")),
            TokenKind::Impl,
            TokenKind::Ident(String::from("C")),
            TokenKind::Point,
            TokenKind::EOF
        ]
    );
}

#[test]
fn test_lexer_with_errors() {
    let code = "@ 22222222222222222222222222222222";
    let lex = Lexer::new(&code);
    let (_tokens, errors) = lex.tokenize();

    assert_eq!(
        errors
            .iter()
            .map(|e| e.message.clone())
            .collect::<Vec<String>>(),
        vec![
            String::from("unexpected character '@'"),
            String::from(
                "number '22222222222222222222222222222222' is too large for 64-bit number"
            )
        ]
    );
}
