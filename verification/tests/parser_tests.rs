use axiomatic::lexer::Lexer;
use axiomatic::parser::{Parser, AST};

#[test]
fn test_parser_without_errors() {
    let code = "schema IND: P(0) /\\ forall n: (P(n) -> P(S(n))) -> forall n: P(n)";
    let lex = Lexer::new(&code);
    let (tokens, _) = lex.tokenize();

    println!("{:?}", tokens);

    let mut parser = Parser::new(tokens);
    let (ast, errors) = parser.parse();

    println!("{:?}", errors);

    assert_eq!(
        ast,
        AST::Schema(
            String::from("IND"),
            Box::new(AST::Impl(
                Box::new(AST::And(
                    Box::new(AST::Predicate(
                        String::from("P"),
                        vec![AST::Const(String::from("0"))]
                    )),
                    Box::new(AST::Impl(
                        Box::new(AST::Predicate(
                            String::from("P"),
                            vec![AST::VariableForAll(String::from("n"))]
                        )),
                        Box::new(AST::Predicate(
                            String::from("P"),
                            vec![AST::Function(
                                String::from("S"),
                                vec![AST::VariableForAll(String::from("n"))]
                            )]
                        ))
                    ))
                )),
                Box::new(AST::Predicate(
                    String::from("P"),
                    vec![AST::VariableForAll(String::from("n"))]
                ))
            ))
        )
    );
}
