use axiomatic::error::CompError;
use axiomatic::lexer::Lexer;
use axiomatic::parser::{Parser, AST};

fn parse(code: &str) -> (AST, Vec<CompError>) {
    let (tokens, lex_errors) = Lexer::new(code).tokenize();
    assert!(lex_errors.is_empty());
    Parser::new(tokens).parse()
}

fn messages(errors: &[CompError]) -> Vec<String> {
    errors.iter().map(|e| e.message.clone()).collect()
}

fn s(x: &str) -> String {
    String::from(x)
}

fn b(a: AST) -> Box<AST> {
    Box::new(a)
}

fn pred(name: &str, args: Vec<AST>) -> AST {
    AST::Predicate(s(name), args)
}

fn konst(x: &str) -> AST {
    AST::Const(s(x))
}

fn var(x: &str) -> AST {
    AST::VariableForAll(s(x))
}

#[test]
fn simple_axiom() {
    let (ast, errors) = parse("axiom A: P(x)");
    assert!(errors.is_empty());
    assert_eq!(ast, AST::Axiom(s("A"), b(pred("P", vec![konst("x")]))));
}

#[test]
fn quantified_names_become_variables() {
    let (ast, errors) = parse("axiom A: forall x: P(x, y)");
    assert!(errors.is_empty());
    assert_eq!(ast, AST::Axiom(s("A"), b(pred("P", vec![var("x"), konst("y")]))));

    // names bound by `exist` are read as variables the same way
    let (ast, errors) = parse("schema S: exist y: Q(y)");
    assert!(errors.is_empty());
    assert_eq!(ast, AST::Schema(s("S"), b(pred("Q", vec![var("y")]))));
}

#[test]
fn several_names_and_a_parenthesised_body() {
    let (ast, errors) = parse("axiom A: forall x, y: (P(x, y))");
    assert!(errors.is_empty());
    assert_eq!(ast, AST::Axiom(s("A"), b(pred("P", vec![var("x"), var("y")]))));
}

#[test]
fn arithmetic_binds_tighter_with_star() {
    let (ast, errors) = parse("axiom A: P(1 + 2 * x - 3 / y)");
    assert!(errors.is_empty());
    let times = AST::Function(s("*"), vec![konst("2"), konst("x")]);
    let plus = AST::Function(s("+"), vec![konst("1"), times]);
    let div = AST::Function(s("/"), vec![konst("3"), konst("y")]);
    let minus = AST::Function(s("-"), vec![plus, div]);
    assert_eq!(ast, AST::Axiom(s("A"), b(pred("P", vec![minus]))));
}

#[test]
fn connectives_nest_by_precedence() {
    let (ast, errors) = parse("axiom A: ~P(a) \\/ Q(b) /\\ R(c) -> S(d)");
    assert!(errors.is_empty());
    let or = AST::Or(b(AST::Not(b(pred("P", vec![konst("a")])))), b(pred("Q", vec![konst("b")])));
    let and = AST::And(b(or), b(pred("R", vec![konst("c")])));
    let imp = AST::Impl(b(and), b(pred("S", vec![konst("d")])));
    assert_eq!(ast, AST::Axiom(s("A"), b(imp)));
}

#[test]
fn function_arguments_nest() {
    let (ast, errors) = parse("axiom A: P(f(x, g(y)))");
    assert!(errors.is_empty());
    let g = AST::Function(s("g"), vec![konst("y")]);
    let f = AST::Function(s("f"), vec![konst("x"), g]);
    assert_eq!(ast, AST::Axiom(s("A"), b(pred("P", vec![f]))));
}

#[test]
fn numbers_are_written_in_decimal() {
    let (ast, errors) = parse("axiom A: P(007)");
    assert!(errors.is_empty());
    assert_eq!(ast, AST::Axiom(s("A"), b(pred("P", vec![konst("7")]))));
}

#[test]
fn missing_keyword() {
    let (ast, errors) = parse("P(x)");
    assert_eq!(ast, AST::CriticalError);
    assert_eq!(
        messages(&errors),
        vec![
            s("Critical Error: expected 'axiom' or 'schema', got 'P'"),
            s("Unexcepted token after expression: LParen at 1: 2 (len=1)")
        ]
    );
}

#[test]
fn missing_name() {
    let (ast, errors) = parse("axiom : P(x)");
    assert_eq!(ast, AST::CriticalError);
    assert_eq!(
        messages(&errors),
        vec![
            s("Critical Error: Expected identificator, got ':'"),
            s("Unexcepted token after expression: Ident(\"P\") at 1: 9 (len=1)")
        ]
    );
    assert_eq!(errors[0].pos.column, 7);
}

#[test]
fn missing_colon() {
    let (ast, errors) = parse("axiom A P(x)");
    assert_eq!(ast, AST::Axiom(s("A"), b(AST::CriticalError)));
    assert_eq!(
        messages(&errors),
        vec![
            s("Expected ':', got 'P'"),
            s("Critical Error: Expected identificator, got '('"),
            s("Unexcepted token after expression: Ident(\"x\") at 1:11 (len=1)")
        ]
    );
}

#[test]
fn missing_factor() {
    let (ast, errors) = parse("axiom A: P(+)");
    assert_eq!(ast, AST::Axiom(s("A"), b(pred("P", vec![AST::CriticalError]))));
    assert_eq!(
        messages(&errors),
        vec![s("Critical Error: expected number or identificator or expression in parens, got '+'")]
    );
}

#[test]
fn quantifier_without_name() {
    let (ast, errors) = parse("axiom A: forall : P(x)");
    assert_eq!(ast, AST::Axiom(s("A"), b(AST::CriticalError)));
    assert_eq!(
        messages(&errors),
        vec![
            s("Critical Error: Expected identificator, got ':'"),
            s("Unexcepted token after expression: Ident(\"P\") at 1:19 (len=1)")
        ]
    );
}

#[test]
fn bad_name_in_a_quantifier_group() {
    let (ast, errors) = parse("axiom A: forall x, 1: P(x)");
    assert_eq!(ast, AST::Axiom(s("A"), b(pred("P", vec![var("x")]))));
    assert_eq!(messages(&errors), vec![s("Expected 'identificator', got '1'")]);
}

#[test]
fn trailing_token() {
    let (ast, errors) = parse("axiom A: P(x) Q");
    assert_eq!(ast, AST::Axiom(s("A"), b(pred("P", vec![konst("x")]))));
    assert_eq!(
        messages(&errors),
        vec![s("Unexcepted token after expression: Ident(\"Q\") at 1:15 (len=1)")]
    );
}

#[test]
fn parsing_again_keeps_earlier_errors() {
    let (tokens, _) = Lexer::new("axiom A: P(x) Q").tokenize();
    let mut parser = Parser::new(tokens);
    let (_, first) = parser.parse();
    assert_eq!(first.len(), 1);
    let (ast, second) = parser.parse();
    assert_eq!(ast, AST::CriticalError);
    assert_eq!(
        messages(&second),
        vec![
            s("Unexcepted token after expression: Ident(\"Q\") at 1:15 (len=1)"),
            s("Critical Error: expected 'axiom' or 'schema', got 'Q'")
        ]
    );
}

#[test]
fn a_critical_error_is_always_reported() {
    for code in ["P", "axiom", "axiom A:", "axiom A: P(", "axiom A: forall", "axiom A: P(x) /\\"] {
        let (tokens, _) = Lexer::new(code).tokenize();
        let (ast, errors) = Parser::new(tokens).parse();
        let text = format!("{:?}", ast);
        if text.contains("CriticalError") {
            assert!(!errors.is_empty(), "{}", code);
        }
    }
}

#[test]
fn empty_token_list_reads_as_eof() {
    let (ast, errors) = Parser::new(Vec::new()).parse();
    assert_eq!(ast, AST::CriticalError);
    assert_eq!(messages(&errors), vec![s("Critical Error: expected 'axiom' or 'schema', got 'EOF'")]);
    assert_eq!(errors[0].len, 0);
}

#[test]
fn trees_clone_to_equal_trees() {
    let (ast, _) = parse("axiom A: forall x: P(f(x), 1 + 2) -> ~Q(x)");
    assert_eq!(ast.clone(), ast);
}
