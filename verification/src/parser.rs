//! The parser: reads the tokens of one axiom or schema into a syntax tree,
//! recording an error for every token it cannot place.
//!
//! Grammar (each QUANTORS is a run of quantifier groups
//! `(forall | exist) IDENT (, IDENT)* :`, followed by the next level or by a
//! parenthesised formula):
//!
//! ```text
//! expression -> axiom IDENT : fol | schema IDENT : fol
//! fol        -> QUANTORS term ('->' QUANTORS term)*
//! term       -> QUANTORS term_or ('/\' QUANTORS term_or)*
//! term_or    -> QUANTORS literal ('\/' QUANTORS literal)*
//! literal    -> ('~')? IDENT '(' arg (',' arg)* ')'
//! arg        -> IDENT '(' arg (',' arg)* ')' | arith
//! arith      -> arith_term (('+' | '-') arith_term)*
//! arith_term -> factor (('*' | '/') factor)*
//! factor     -> NUMBER | IDENT | '(' fol ')'
//! ```
use vstd::prelude::*;
use vstd::hash_map::StringHashMap;
use crate::error::{CompError, ErrorModel, Position, errors_view, start_loc};
use crate::parser_laws::{
    lemma_arg, lemma_arith, lemma_arith_term, lemma_expression, lemma_factor, lemma_fol, lemma_level,
    lemma_literal, lemma_quantors, lemma_term, lemma_term_or,
};
use crate::lexer::{KindModel, Token, TokenKind, TokenModel, kind_text, token_text, tokens_view};
use crate::text::{push_signed_decimal, signed_decimal};

verus! {

// ============================================================================
// Syntax trees
// ============================================================================

/// A syntax tree.
#[derive(Debug, PartialEq)]
pub enum AST {
    Const(String),
    VariableForAll(String),
    VariableExist(String),
    Function(String, Vec<AST>),
    Predicate(String, Vec<AST>),
    Not(Box<AST>),
    Or(Box<AST>, Box<AST>),
    And(Box<AST>, Box<AST>),
    Impl(Box<AST>, Box<AST>),
    Axiom(String, Box<AST>),
    Schema(String, Box<AST>),
    CriticalError,
}

/// A syntax tree as plain values.
pub enum Tree {
    Const(Seq<char>),
    VariableForAll(Seq<char>),
    VariableExist(Seq<char>),
    Function(Seq<char>, Seq<Tree>),
    Predicate(Seq<char>, Seq<Tree>),
    Not(Box<Tree>),
    Or(Box<Tree>, Box<Tree>),
    And(Box<Tree>, Box<Tree>),
    Impl(Box<Tree>, Box<Tree>),
    Axiom(Seq<char>, Box<Tree>),
    Schema(Seq<char>, Box<Tree>),
    CriticalError,
}

/// The plain value of a syntax tree.
pub open spec fn ast_view(a: AST) -> Tree
    decreases a,
{
    match a {
        AST::Const(s) => Tree::Const(s@),
        AST::VariableForAll(s) => Tree::VariableForAll(s@),
        AST::VariableExist(s) => Tree::VariableExist(s@),
        AST::Function(s, args) => Tree::Function(s@, asts_view(args@)),
        AST::Predicate(s, args) => Tree::Predicate(s@, asts_view(args@)),
        AST::Not(x) => Tree::Not(Box::new(ast_view(*x))),
        AST::Or(x, y) => Tree::Or(Box::new(ast_view(*x)), Box::new(ast_view(*y))),
        AST::And(x, y) => Tree::And(Box::new(ast_view(*x)), Box::new(ast_view(*y))),
        AST::Impl(x, y) => Tree::Impl(Box::new(ast_view(*x)), Box::new(ast_view(*y))),
        AST::Axiom(s, x) => Tree::Axiom(s@, Box::new(ast_view(*x))),
        AST::Schema(s, x) => Tree::Schema(s@, Box::new(ast_view(*x))),
        AST::CriticalError => Tree::CriticalError,
    }
}

/// The plain values of a sequence of syntax trees.
pub open spec fn asts_view(s: Seq<AST>) -> Seq<Tree>
    decreases s,
{
    if s.len() == 0 {
        seq![]
    } else {
        asts_view(s.drop_last()).push(ast_view(s.last()))
    }
}

impl View for AST {
    type V = Tree;

    open spec fn view(&self) -> Tree {
        ast_view(*self)
    }
}


impl Clone for AST {
    /// A copy of the tree.
    fn clone(&self) -> (r: Self)
        ensures
            r@ == self@,
        decreases self,
    {
        match self {
            AST::Const(s) => AST::Const(s.clone()),
            AST::VariableForAll(s) => AST::VariableForAll(s.clone()),
            AST::VariableExist(s) => AST::VariableExist(s.clone()),
            AST::Function(s, args) => AST::Function(s.clone(), clone_all(args)),
            AST::Predicate(s, args) => AST::Predicate(s.clone(), clone_all(args)),
            AST::Not(x) => AST::Not(Box::new((**x).clone())),
            AST::Or(x, y) => AST::Or(Box::new((**x).clone()), Box::new((**y).clone())),
            AST::And(x, y) => AST::And(Box::new((**x).clone()), Box::new((**y).clone())),
            AST::Impl(x, y) => AST::Impl(Box::new((**x).clone()), Box::new((**y).clone())),
            AST::Axiom(s, x) => AST::Axiom(s.clone(), Box::new((**x).clone())),
            AST::Schema(s, x) => AST::Schema(s.clone(), Box::new((**x).clone())),
            AST::CriticalError => AST::CriticalError,
        }
    }
}

/// Copies of a list of trees.
fn clone_all(args: &Vec<AST>) -> (r: Vec<AST>)
    ensures
        asts_view(r@) == asts_view(args@),
    decreases args,
{
    let mut out: Vec<AST> = Vec::new();
    for i in 0..args.len()
        invariant
            asts_view(out@) == asts_view(args@.take(i as int)),
    {
        proof {
            assert(decreases_to!(args => args@[i as int]));
        }
        let c = args[i].clone();
        proof {
            lemma_asts_push(out@, c);
            lemma_asts_push(args@.take(i as int), args@[i as int]);
            assert(args@.take(i + 1) =~= args@.take(i as int).push(args@[i as int]));
        }
        out.push(c);
    }
    assert(args@.take(args@.len() as int) =~= args@);
    out
}

// ============================================================================
// What the parser reads, as plain functions of the tokens
// ============================================================================

/// The parser's state while reading: the cursor, the errors so far, and the
/// variables bound by quantifiers (each with whether `forall` bound it).
pub struct PState {
    pub pos: nat,
    pub errors: Seq<ErrorModel>,
    pub vars: Map<Seq<char>, bool>,
}

/// The levels of the grammar that a run of quantifiers can stand before.
#[derive(Debug, Clone, Copy, PartialEq, Eq, Structural)]
pub enum Level {
    Term,
    TermOr,
    Literal,
}

/// What the parser sees past the last token.
pub open spec fn eof_token() -> TokenModel {
    TokenModel { kind: KindModel::EOF, pos: start_loc(), len: 0 }
}

/// The token at `pos`, or EOF past the end.
pub open spec fn peek(ts: Seq<TokenModel>, pos: nat) -> TokenModel {
    if pos < ts.len() {
        ts[pos as int]
    } else {
        eof_token()
    }
}

/// The kind of the token at the cursor.
pub open spec fn peek_kind(ts: Seq<TokenModel>, st: PState) -> KindModel {
    peek(ts, st.pos).kind
}

/// Moves past one token. Past the last token every position reads as EOF,
/// and the cursor still moves on.
pub open spec fn advance(ts: Seq<TokenModel>, st: PState) -> PState {
    PState { pos: st.pos + 1, ..st }
}

/// Records an error with `msg` at the token under the cursor.
pub open spec fn report(ts: Seq<TokenModel>, st: PState, msg: Seq<char>) -> PState {
    let t = peek(ts, st.pos);
    PState { errors: st.errors.push(ErrorModel { message: msg, pos: t.pos, len: t.len }), ..st }
}

/// Binds a variable.
pub open spec fn bind(st: PState, name: Seq<char>, for_all: bool) -> PState {
    PState { vars: st.vars.insert(name, for_all), ..st }
}

/// The message for a token that is not the one expected.
pub open spec fn expected_message(expected: KindModel, got: KindModel) -> Seq<char> {
    "Expected '"@ + kind_text(expected) + "', got '"@ + kind_text(got) + "'"@
}

/// The message when an expression does not begin with `axiom` or `schema`.
pub open spec fn keyword_message(got: KindModel) -> Seq<char> {
    "Critical Error: expected 'axiom' or 'schema', got '"@ + kind_text(got) + "'"@
}

/// The message when an identifier is missing.
pub open spec fn ident_message(got: KindModel) -> Seq<char> {
    "Critical Error: Expected identificator, got '"@ + kind_text(got) + "'"@
}

/// The message when a factor is missing.
pub open spec fn factor_message(got: KindModel) -> Seq<char> {
    "Critical Error: expected number or identificator or expression in parens, got '"@ + kind_text(
        got,
    ) + "'"@
}

/// The message for a token left over after the expression.
pub open spec fn trailing_message(t: TokenModel) -> Seq<char> {
    "Unexcepted token after expression: "@ + token_text(t)
}

/// Checks that the token under the cursor is `expected`. With `get_error`,
/// the token is consumed either way, and a mismatch is recorded.
pub open spec fn expect(ts: Seq<TokenModel>, st: PState, expected: KindModel, get_error: bool) -> (bool, PState) {
    if peek_kind(ts, st) == expected {
        (true, if get_error { advance(ts, st) } else { st })
    } else {
        (
            false,
            if get_error {
                advance(ts, report(ts, st, expected_message(expected, peek_kind(ts, st))))
            } else {
                st
            },
        )
    }
}

/// How much is left to read: what every step of the parser decreases.
pub open spec fn remaining(ts: Seq<TokenModel>, st: PState) -> nat {
    if st.pos <= ts.len() {
        (ts.len() - st.pos) as nat
    } else {
        0
    }
}

/// The furthest the cursor can get while reading from `pos`: each token
/// left can be followed by three steps past the end (for tokens that are
/// expected but missing), and from past the end each rule takes one step.
pub open spec fn reach_from(ts: Seq<TokenModel>, pos: nat) -> nat {
    if pos <= ts.len() {
        (ts.len() + 3 * (ts.len() - pos)) as nat
    } else {
        pos
    }
}

/// `reach_from` for the cursor of a state.
pub open spec fn reach(ts: Seq<TokenModel>, st: PState) -> nat {
    reach_from(ts, st.pos)
}

/// Reading a token that is not EOF moves from within the tokens, and takes
/// three off the reach.
proof fn lemma_reach_step(ts: Seq<TokenModel>, pos: nat)
    requires
        !(peek(ts, pos).kind is EOF),
    ensures
        pos < ts.len(),
        reach_from(ts, pos + 1) + 3 == reach_from(ts, pos),
{
}

/// The rank of a level, for the order in which the rules call each other
/// without reading.
pub open spec fn level_rank(l: Level) -> nat {
    match l {
        Level::Term => 13,
        Level::TermOr => 10,
        Level::Literal => 7,
    }
}

/// Reads the rule of a level.
#[verifier::opaque]
pub open spec fn parse_level(ts: Seq<TokenModel>, st: PState, l: Level) -> (Tree, PState)
    decreases remaining(ts, st), level_rank(l) + 1,
{
    match l {
        Level::Term => parse_term(ts, st),
        Level::TermOr => parse_term_or(ts, st),
        Level::Literal => parse_literal(ts, st),
    }
}

/// The names after the first in a quantifier group: `(, IDENT)*`.
#[verifier::opaque]
pub open spec fn quantor_names(ts: Seq<TokenModel>, st: PState, for_all: bool) -> PState
    decreases remaining(ts, st),
{
    if peek_kind(ts, st) is Dot {
        let st1 = advance(ts, st);
        let st2 = match peek_kind(ts, st1) {
            KindModel::Ident(name) => advance(ts, bind(st1, name, for_all)),
            _ => expect(ts, st1, KindModel::Ident("identificator"@), true).1,
        };
        quantor_names(ts, st2, for_all)
    } else {
        st
    }
}

/// QUANTORS before level `l`: quantifier groups, each binding its
/// variables, then either a parenthesised formula or the rule of `l`.
#[verifier::opaque]
pub open spec fn parse_quantors(ts: Seq<TokenModel>, st: PState, l: Level) -> (Tree, PState)
    decreases remaining(ts, st), level_rank(l) + 2,
{
    let k = peek_kind(ts, st);
    if k is ForAll || k is Exist {
        let for_all = k is ForAll;
        let st1 = advance(ts, st);
        match peek_kind(ts, st1) {
            KindModel::Ident(name) => {
                let st2 = quantor_names(ts, advance(ts, bind(st1, name, for_all)), for_all);
                let st3 = expect(ts, st2, KindModel::Colon, true).1;
                proof {
                    lemma_quantor_names_advances(ts, advance(ts, bind(st1, name, for_all)), for_all);
                }
                if peek_kind(ts, st3) is LParen {
                    let st4 = expect(ts, st3, KindModel::LParen, true).1;
                    let (inner, st5) = parse_fol(ts, st4);
                    (inner, expect(ts, st5, KindModel::RParen, true).1)
                } else {
                    parse_quantors(ts, st3, l)
                }
            },
            got => (Tree::CriticalError, advance(ts, report(ts, st1, ident_message(got)))),
        }
    } else {
        parse_level(ts, st, l)
    }
}

/// `fol -> QUANTORS term ('->' QUANTORS term)*`
#[verifier::opaque]
pub open spec fn parse_fol(ts: Seq<TokenModel>, st: PState) -> (Tree, PState)
    decreases remaining(ts, st), 16nat,
{
    let (left, st1) = parse_quantors(ts, st, Level::Term);
    if st1.pos >= st.pos {
        fol_rest(ts, left, st1)
    } else {
        (left, st1)
    }
}

/// The `('->' QUANTORS term)*` part of `fol`, after `left`.
#[verifier::opaque]
pub open spec fn fol_rest(ts: Seq<TokenModel>, left: Tree, st: PState) -> (Tree, PState)
    decreases remaining(ts, st), 0nat,
{
    if peek_kind(ts, st) is Impl {
        let st1 = advance(ts, st);
        let (right, st2) = parse_quantors(ts, st1, Level::Term);
        let tree = Tree::Impl(Box::new(left), Box::new(right));
        if st2.pos >= st1.pos {
            fol_rest(ts, tree, st2)
        } else {
            (tree, st2)
        }
    } else {
        (left, st)
    }
}

/// `term -> QUANTORS term_or ('/\' QUANTORS term_or)*`
#[verifier::opaque]
pub open spec fn parse_term(ts: Seq<TokenModel>, st: PState) -> (Tree, PState)
    decreases remaining(ts, st), 13nat,
{
    let (left, st1) = parse_quantors(ts, st, Level::TermOr);
    if st1.pos >= st.pos {
        term_rest(ts, left, st1)
    } else {
        (left, st1)
    }
}

/// The `('/\' QUANTORS term_or)*` part of `term`, after `left`.
#[verifier::opaque]
pub open spec fn term_rest(ts: Seq<TokenModel>, left: Tree, st: PState) -> (Tree, PState)
    decreases remaining(ts, st), 0nat,
{
    if peek_kind(ts, st) is And {
        let st1 = advance(ts, st);
        let (right, st2) = parse_quantors(ts, st1, Level::TermOr);
        let tree = Tree::And(Box::new(left), Box::new(right));
        if st2.pos >= st1.pos {
            term_rest(ts, tree, st2)
        } else {
            (tree, st2)
        }
    } else {
        (left, st)
    }
}

/// `term_or -> QUANTORS literal ('\/' QUANTORS literal)*`
#[verifier::opaque]
pub open spec fn parse_term_or(ts: Seq<TokenModel>, st: PState) -> (Tree, PState)
    decreases remaining(ts, st), 10nat,
{
    let (left, st1) = parse_quantors(ts, st, Level::Literal);
    if st1.pos >= st.pos {
        term_or_rest(ts, left, st1)
    } else {
        (left, st1)
    }
}

/// The `('\/' QUANTORS literal)*` part of `term_or`, after `left`.
#[verifier::opaque]
pub open spec fn term_or_rest(ts: Seq<TokenModel>, left: Tree, st: PState) -> (Tree, PState)
    decreases remaining(ts, st), 0nat,
{
    if peek_kind(ts, st) is Or {
        let st1 = advance(ts, st);
        let (right, st2) = parse_quantors(ts, st1, Level::Literal);
        let tree = Tree::Or(Box::new(left), Box::new(right));
        if st2.pos >= st1.pos {
            term_or_rest(ts, tree, st2)
        } else {
            (tree, st2)
        }
    } else {
        (left, st)
    }
}

/// `literal -> ('~')? IDENT '(' arg (',' arg)* ')'`
#[verifier::opaque]
pub open spec fn parse_literal(ts: Seq<TokenModel>, st: PState) -> (Tree, PState)
    decreases remaining(ts, st), 7nat,
{
    let is_not = peek_kind(ts, st) is Not;
    let st0 = if is_not { advance(ts, st) } else { st };
    match peek_kind(ts, st0) {
        KindModel::Ident(name) => {
            let st1 = expect(ts, advance(ts, st0), KindModel::LParen, true).1;
            let (first, st2) = parse_arg(ts, st1);
            let (args, st3) = if st2.pos >= st1.pos {
                arg_rest(ts, seq![first], st2)
            } else {
                (seq![first], st2)
            };
            let st4 = expect(ts, st3, KindModel::RParen, true).1;
            let pred = Tree::Predicate(name, args);
            (if is_not { Tree::Not(Box::new(pred)) } else { pred }, st4)
        },
        got => (Tree::CriticalError, advance(ts, report(ts, st0, ident_message(got)))),
    }
}

/// The `(',' arg)*` part of an argument list, after `args`.
#[verifier::opaque]
pub open spec fn arg_rest(ts: Seq<TokenModel>, args: Seq<Tree>, st: PState) -> (Seq<Tree>, PState)
    decreases remaining(ts, st), 0nat,
{
    if peek_kind(ts, st) is Dot {
        let st1 = advance(ts, st);
        let (a, st2) = parse_arg(ts, st1);
        if st2.pos >= st1.pos {
            arg_rest(ts, args.push(a), st2)
        } else {
            (args.push(a), st2)
        }
    } else {
        (args, st)
    }
}

/// `arg -> IDENT '(' arg (',' arg)* ')' | arith`
#[verifier::opaque]
pub open spec fn parse_arg(ts: Seq<TokenModel>, st: PState) -> (Tree, PState)
    decreases remaining(ts, st), 6nat,
{
    match peek_kind(ts, st) {
        KindModel::Ident(name) => {
            if peek(ts, st.pos + 1).kind is LParen {
                let st1 = advance(ts, advance(ts, st));
                let (first, st2) = parse_arg(ts, st1);
                let (args, st3) = if st2.pos >= st1.pos {
                    arg_rest(ts, seq![first], st2)
                } else {
                    (seq![first], st2)
                };
                (Tree::Function(name, args), expect(ts, st3, KindModel::RParen, true).1)
            } else {
                parse_arith(ts, st)
            }
        },
        _ => parse_arith(ts, st),
    }
}

/// The tree for a binary arithmetic operation.
pub open spec fn binary(op: Seq<char>, left: Tree, right: Tree) -> Tree {
    Tree::Function(op, seq![left, right])
}

/// `arith -> arith_term (('+' | '-') arith_term)*`
#[verifier::opaque]
pub open spec fn parse_arith(ts: Seq<TokenModel>, st: PState) -> (Tree, PState)
    decreases remaining(ts, st), 5nat,
{
    let (left, st1) = parse_arith_term(ts, st);
    if st1.pos >= st.pos {
        arith_rest(ts, left, st1)
    } else {
        (left, st1)
    }
}

/// The `(('+' | '-') arith_term)*` part of `arith`, after `left`.
#[verifier::opaque]
pub open spec fn arith_rest(ts: Seq<TokenModel>, left: Tree, st: PState) -> (Tree, PState)
    decreases remaining(ts, st), 0nat,
{
    let k = peek_kind(ts, st);
    if k is Plus || k is Minus {
        let st1 = advance(ts, st);
        let (right, st2) = parse_arith_term(ts, st1);
        let tree = binary(if k is Plus { "+"@ } else { "-"@ }, left, right);
        if st2.pos >= st1.pos {
            arith_rest(ts, tree, st2)
        } else {
            (tree, st2)
        }
    } else {
        (left, st)
    }
}

/// `arith_term -> factor (('*' | '/') factor)*`
#[verifier::opaque]
pub open spec fn parse_arith_term(ts: Seq<TokenModel>, st: PState) -> (Tree, PState)
    decreases remaining(ts, st), 4nat,
{
    let (left, st1) = parse_factor(ts, st);
    if st1.pos >= st.pos {
        arith_term_rest(ts, left, st1)
    } else {
        (left, st1)
    }
}

/// The `(('*' | '/') factor)*` part of `arith_term`, after `left`.
#[verifier::opaque]
pub open spec fn arith_term_rest(ts: Seq<TokenModel>, left: Tree, st: PState) -> (Tree, PState)
    decreases remaining(ts, st), 0nat,
{
    let k = peek_kind(ts, st);
    if k is Star || k is Slash {
        let st1 = advance(ts, st);
        let (right, st2) = parse_factor(ts, st1);
        let tree = binary(if k is Star { "*"@ } else { "/"@ }, left, right);
        if st2.pos >= st1.pos {
            arith_term_rest(ts, tree, st2)
        } else {
            (tree, st2)
        }
    } else {
        (left, st)
    }
}

/// `factor -> NUMBER | IDENT | '(' fol ')'`. An identifier bound by a
/// quantifier is a variable (both quantifiers give `VariableForAll`), any
/// other is a constant.
#[verifier::opaque]
pub open spec fn parse_factor(ts: Seq<TokenModel>, st: PState) -> (Tree, PState)
    decreases remaining(ts, st), 3nat,
{
    match peek_kind(ts, st) {
        KindModel::Number(n) => (Tree::Const(signed_decimal(n as int)), advance(ts, st)),
        KindModel::Ident(name) => (
            if st.vars.contains_key(name) {
                Tree::VariableForAll(name)
            } else {
                Tree::Const(name)
            },
            advance(ts, st),
        ),
        KindModel::LParen => {
            let (inner, st1) = parse_fol(ts, advance(ts, st));
            (inner, expect(ts, st1, KindModel::RParen, true).1)
        },
        got => (Tree::CriticalError, advance(ts, report(ts, st, factor_message(got)))),
    }
}

/// `expression -> axiom IDENT : fol | schema IDENT : fol`, with no variable
/// bound at the start.
#[verifier::opaque]
pub open spec fn parse_expression(ts: Seq<TokenModel>, st: PState) -> (Tree, PState) {
    let k = peek_kind(ts, st);
    if !(k is Axiom) && !(k is Schema) {
        (Tree::CriticalError, advance(ts, report(ts, st, keyword_message(k))))
    } else {
        let st1 = advance(ts, st);
        match peek_kind(ts, st1) {
            KindModel::Ident(name) => {
                let st2 = expect(ts, advance(ts, st1), KindModel::Colon, true).1;
                let (body, st3) = parse_fol(ts, PState { vars: Map::empty(), ..st2 });
                (
                    if k is Axiom {
                        Tree::Axiom(name, Box::new(body))
                    } else {
                        Tree::Schema(name, Box::new(body))
                    },
                    st3,
                )
            },
            got => (Tree::CriticalError, advance(ts, report(ts, st1, ident_message(got)))),
        }
    }
}

/// What `parse` gives from cursor `pos` with errors `errors` already
/// recorded: the tree, the cursor afterwards, and all errors, including one
/// for a token left over after the expression.
pub open spec fn parse_tokens(ts: Seq<TokenModel>, pos: nat, errors: Seq<ErrorModel>) -> (Tree, nat, Seq<ErrorModel>) {
    let (tree, st) = parse_expression(ts, PState { pos, errors, vars: Map::empty() });
    let t = peek(ts, st.pos);
    (
        tree,
        st.pos,
        if t.kind is EOF {
            st.errors
        } else {
            st.errors.push(ErrorModel { message: trailing_message(t), pos: t.pos, len: t.len })
        },
    )
}

/// `parse_literal` when no identifier is found.
pub proof fn lemma_literal_without_name(
    ts: Seq<TokenModel>,
    st: PState,
    is_not: bool,
    st0: PState,
    got: KindModel,
    st1: PState,
)
    requires
        is_not == (peek_kind(ts, st) is Not),
        st0 == if is_not { advance(ts, st) } else { st },
        peek_kind(ts, st0) == got,
        !(got is Ident),
        st1 == advance(ts, report(ts, st0, ident_message(got))),
    ensures
        parse_literal(ts, st) == (Tree::CriticalError, st1),
{
    reveal_with_fuel(parse_literal, 1);
}

/// How `parse_literal` composes its steps when an identifier is found.
pub proof fn lemma_literal_steps(
    ts: Seq<TokenModel>,
    st: PState,
    is_not: bool,
    st0: PState,
    name: Seq<char>,
    st1: PState,
    first: Tree,
    st2: PState,
    args: Seq<Tree>,
    st3: PState,
    st4: PState,
)
    requires
        is_not == (peek_kind(ts, st) is Not),
        st0 == if is_not { advance(ts, st) } else { st },
        peek_kind(ts, st0) == KindModel::Ident(name),
        st1 == expect(ts, advance(ts, st0), KindModel::LParen, true).1,
        (first, st2) == parse_arg(ts, st1),
        st2.pos >= st1.pos,
        (args, st3) == arg_rest(ts, seq![first], st2),
        st4 == expect(ts, st3, KindModel::RParen, true).1,
    ensures
        parse_literal(ts, st) == (
            if is_not {
                Tree::Not(Box::new(Tree::Predicate(name, args)))
            } else {
                Tree::Predicate(name, args)
            },
            st4,
        ),
{
    reveal_with_fuel(parse_literal, 1);
    reveal_with_fuel(parse_arg, 1);
    reveal_with_fuel(arg_rest, 1);
}

/// The names of a quantifier group never move the cursor back.
pub proof fn lemma_quantor_names_advances(ts: Seq<TokenModel>, st: PState, for_all: bool)
    ensures
        quantor_names(ts, st, for_all).pos >= st.pos,
    decreases remaining(ts, st),
{
    reveal_with_fuel(quantor_names, 1);
    if peek_kind(ts, st) is Dot {
        let st1 = advance(ts, st);
        let st2 = match peek_kind(ts, st1) {
            KindModel::Ident(name) => advance(ts, bind(st1, name, for_all)),
            _ => expect(ts, st1, KindModel::Ident("identificator"@), true).1,
        };
        lemma_quantor_names_advances(ts, st2, for_all);
    }
}


// ============================================================================
// The parser
// ============================================================================

/// A parser over a list of tokens: the tokens, the cursor, and the errors
/// recorded so far.
pub struct Parser {
    tokens: Vec<Token>,
    pos: usize,
    errors: Vec<CompError>,
}

/// A copy of an error.
fn duplicate_error(e: &CompError) -> (r: CompError)
    ensures
        r@ == e@,
{
    CompError::new(e.message.clone(), e.pos, e.len)
}

/// A message: `prefix`, then the text of `got`, then a closing quote.
fn quoted_kind_message(prefix: &str, got: &TokenKind) -> (s: String)
    ensures
        s@ == prefix@ + kind_text(got@) + "'"@,
{
    let mut s = String::new();
    s.append(prefix);
    let t = got.display_text();
    s.append(t.as_str());
    s.append("'");
    s
}

/// The name of a binary arithmetic operation.
fn op_name(op: &str) -> (s: String)
    ensures
        s@ == op@,
{
    let mut s = String::new();
    s.append(op);
    assert(s@ =~= op@);
    s
}

/// The tree of a binary arithmetic operation.
fn binary_ast(op: &str, left: AST, right: AST) -> (r: AST)
    ensures
        r@ == binary(op@, left@, right@),
{
    let ghost l = left;
    let mut operands: Vec<AST> = Vec::new();
    operands.push(left);
    operands.push(right);
    proof {
        lemma_asts_push(Seq::<AST>::empty(), l);
        lemma_asts_push(seq![l], right);
        assert(Seq::<AST>::empty().push(l) =~= seq![l]);
        assert(operands@ =~= seq![l].push(right));
        assert(asts_view(operands@) =~= seq![l@, right@]);
    }
    AST::Function(op_name(op), operands)
}

/// The view of a list of trees with one more at the end.
proof fn lemma_asts_push(s: Seq<AST>, a: AST)
    ensures
        asts_view(s.push(a)) == asts_view(s).push(a@),
{
    assert(s.push(a).drop_last() =~= s);
}

impl Parser {
    /// The tokens, as plain values.
    pub closed spec fn token_models(&self) -> Seq<TokenModel> {
        tokens_view(self.tokens@)
    }

    /// The cursor.
    pub closed spec fn cursor(&self) -> nat {
        self.pos as nat
    }

    /// The errors recorded so far.
    pub closed spec fn found_errors(&self) -> Seq<ErrorModel> {
        errors_view(self.errors@)
    }

    /// The parser's state with the variables `vars` bound.
    closed spec fn at(&self, vars: Map<Seq<char>, bool>) -> PState {
        PState { pos: self.pos as nat, errors: errors_view(self.errors@), vars }
    }

    /// How far the cursor can get from where it stands.
    closed spec fn reach(&self) -> nat {
        reach_from(self.token_models(), self.pos as nat)
    }

    /// How many tokens are left.
    closed spec fn left(&self) -> nat {
        if self.pos <= self.tokens@.len() {
            (self.tokens@.len() - self.pos) as nat
        } else {
            0
        }
    }

    /// A parser at the first of `tokens`, with no error recorded.
    pub fn new(tokens: Vec<Token>) -> (p: Self)
        ensures
            p.token_models() == tokens_view(tokens@),
            p.cursor() == 0,
            p.found_errors() == Seq::<ErrorModel>::empty(),
    {
        let p = Parser { tokens, pos: 0, errors: Vec::new() };
        assert(errors_view(p.errors@) =~= Seq::<ErrorModel>::empty());
        p
    }

    /// Parses one expression, then records an error if a token other than
    /// EOF is left. Gives the tree and all errors recorded.
    pub fn parse(&mut self) -> (r: (AST, Vec<CompError>))
        requires
            reach_from(old(self).token_models(), old(self).cursor()) < usize::MAX,
        ensures
            ({
                let (tree, pos, errs) = parse_tokens(
                    old(self).token_models(),
                    old(self).cursor(),
                    old(self).found_errors(),
                );
                &&& r.0@ == tree
                &&& errors_view(r.1@) == errs
                &&& final(self).token_models() == old(self).token_models()
                &&& final(self).cursor() == pos
                &&& final(self).found_errors() == errs
            }),
    {
        let ast = self.parse_expression();
        let new_peek = self.peek();
        if !matches!(new_peek.kind, TokenKind::EOF) {
            let mut message = String::new();
            message.append("Unexcepted token after expression: ");
            let shown = new_peek.display_text();
            message.append(shown.as_str());
            let ghost es = self.errors@;
            self.errors.push(CompError::new(message, new_peek.pos, new_peek.len));
            proof {
                assert(errors_view(self.errors@) =~= errors_view(es).push(self.errors@.last()@));
            }
        }
        let mut out: Vec<CompError> = Vec::new();
        for i in 0..self.errors.len()
            invariant
                errors_view(out@) == errors_view(self.errors@).take(i as int),
        {
            let ghost before = out@;
            out.push(duplicate_error(&self.errors[i]));
            proof {
                assert(errors_view(out@) =~= errors_view(before).push(self.errors@[i as int]@));
                assert(errors_view(self.errors@).take(i + 1) =~= errors_view(
                    self.errors@,
                ).take(i as int).push(self.errors@[i as int]@));
            }
        }
        assert(errors_view(self.errors@).take(self.errors@.len() as int) =~= errors_view(
            self.errors@,
        ));
        (ast, out)
    }

    /// The token under the cursor, or EOF past the end.
    fn peek(&self) -> (t: Token)
        ensures
            t@ == peek(self.token_models(), self.pos as nat),
    {
        if self.pos < self.tokens.len() {
            self.tokens[self.pos].duplicate()
        } else {
            Token::new(TokenKind::EOF, Position::new(), 0)
        }
    }

    /// Moves past the token under the cursor and gives it.
    fn next(&mut self, Ghost(m): Ghost<Map<Seq<char>, bool>>) -> (t: Token)
        requires
            old(self).pos < usize::MAX,
        ensures
            final(self).tokens@ == old(self).tokens@,
            final(self).errors@ == old(self).errors@,
            final(self).pos == old(self).pos + 1,
            t@ == peek(old(self).token_models(), old(self).pos as nat),
            final(self).at(m) == advance(old(self).token_models(), old(self).at(m)),
    {
        let token = self.peek();
        self.pos += 1;
        token
    }

    /// Records an error with `message` at the token under the cursor.
    fn report(&mut self, message: String, Ghost(m): Ghost<Map<Seq<char>, bool>>)
        ensures
            final(self).tokens@ == old(self).tokens@,
            final(self).pos == old(self).pos,
            final(self).at(m) == report(old(self).token_models(), old(self).at(m), message@),
    {
        let t = self.peek();
        let ghost es = self.errors@;
        self.errors.push(CompError::new(message, t.pos, t.len));
        proof {
            assert(errors_view(self.errors@) =~= errors_view(es).push(self.errors@.last()@));
        }
    }

    /// Checks that the token under the cursor is `expected`. With
    /// `get_error`, the token is consumed either way, and a mismatch is
    /// recorded.
    fn expect(&mut self, expected: TokenKind, get_error: bool, Ghost(m): Ghost<Map<Seq<char>, bool>>) -> (r: bool)
        requires
            get_error ==> old(self).pos < usize::MAX,
        ensures
            final(self).tokens@ == old(self).tokens@,
            old(self).pos <= final(self).pos,
            expect(old(self).token_models(), old(self).at(m), expected@, get_error) == (r, final(self).at(m)),
    {
        if self.peek().kind.same_as(&expected) {
            if get_error {
                self.next(Ghost(m));
            }
            true
        } else {
            if get_error {
                let got = self.peek().kind;
                let message = self.expected_message(&expected, &got);
                self.report(message, Ghost(m));
                self.next(Ghost(m));
            }
            false
        }
    }

    // ================== the rules ====================

    /// `expression -> axiom IDENT : fol | schema IDENT : fol`
    fn parse_expression(&mut self) -> (r: AST)
        requires
            old(self).reach() < usize::MAX,
        ensures
            final(self).reach() <= old(self).reach() + 1,
            final(self).tokens@ == old(self).tokens@,
            ({
                let (tree, st) = parse_expression(old(self).token_models(), old(self).at(Map::empty()));
                &&& r@ == tree
                &&& final(self).pos == st.pos
                &&& final(self).found_errors() == st.errors
            }),
    {
        proof {
            lemma_expression(self.token_models(), self.at(Map::empty()));
        }
        reveal(parse_expression);
        reveal_with_fuel(parse_fol, 1);
        // the first word decides what is read
        if !self.expect(TokenKind::Axiom, false, Ghost(Map::empty())) && !self.expect(TokenKind::Schema, false, Ghost(Map::empty())) {
            let got = self.peek().kind;
            let message = quoted_kind_message("Critical Error: expected 'axiom' or 'schema', got '", &got);
            self.report(message, Ghost(Map::empty()));
            self.next(Ghost(Map::empty()));
            return AST::CriticalError;
        }
        let is_axiom = matches!(self.peek().kind, TokenKind::Axiom);
        self.next(Ghost(Map::empty()));
        let ident = match self.peek().kind {
            TokenKind::Ident(s) => s,
            got => {
                let message = quoted_kind_message("Critical Error: Expected identificator, got '", &got);
                self.report(message, Ghost(Map::empty()));
                self.next(Ghost(Map::empty()));
                return AST::CriticalError;
            },
        };
        self.next(Ghost(Map::empty()));
        self.expect(TokenKind::Colon, true, Ghost(Map::empty()));
        let mut vars: StringHashMap<bool> = StringHashMap::new();
        let body = self.parse_fol(&mut vars);
        if is_axiom {
            AST::Axiom(ident, Box::new(body))
        } else {
            AST::Schema(ident, Box::new(body))
        }
    }

    /// The rule of level `l`.
    fn parse_level(&mut self, vars: &mut StringHashMap<bool>, l: Level) -> (r: AST)
        requires
            old(self).reach() < usize::MAX,
        ensures
            final(self).reach() <= old(self).reach() + 1,
            final(self).tokens@ == old(self).tokens@,
            old(self).pos <= final(self).pos,
            (r@, final(self).at(final(vars)@)) == parse_level(old(self).token_models(), old(self).at(old(vars)@), l),
        decreases old(self).left(), level_rank(l) + 1,
    {
        proof {
            lemma_level(self.token_models(), self.at(vars@), l);
        }
        reveal_with_fuel(parse_level, 1);
        reveal_with_fuel(parse_term, 1);
        reveal_with_fuel(parse_term_or, 1);
        reveal_with_fuel(parse_literal, 1);
        match l {
            Level::Term => self.parse_term(vars),
            Level::TermOr => self.parse_term_or(vars),
            Level::Literal => self.parse_literal(vars),
        }
    }

    /// QUANTORS before level `l`.
    fn parse_quantors(&mut self, vars: &mut StringHashMap<bool>, l: Level) -> (r: AST)
        requires
            old(self).reach() < usize::MAX,
        ensures
            final(self).reach() <= old(self).reach() + 1,
            final(self).tokens@ == old(self).tokens@,
            old(self).pos <= final(self).pos,
            (r@, final(self).at(final(vars)@)) == parse_quantors(old(self).token_models(), old(self).at(old(vars)@), l),
        decreases old(self).left(), level_rank(l) + 2,
    {
        proof {
            lemma_quantors(self.token_models(), self.at(vars@), l);
        }
        reveal_with_fuel(parse_quantors, 1);
        reveal_with_fuel(quantor_names, 1);
        reveal_with_fuel(parse_fol, 1);
        reveal_with_fuel(parse_level, 1);
        let ghost ts = self.token_models();
        let ghost goal = parse_quantors(ts, self.at(vars@), l);
        if !self.expect(TokenKind::ForAll, false, Ghost(vars@)) && !self.expect(TokenKind::Exist, false, Ghost(vars@)) {
            return self.parse_level(vars, l);
        }
        loop
            invariant
                self.tokens@ == old(self).tokens@,
                ts == self.token_models(),
                old(self).pos <= self.pos,
                old(self).reach() < usize::MAX,
                self.reach() <= old(self).reach(),
                parse_quantors(ts, self.at(vars@), l) == goal,
                goal == parse_quantors(old(self).token_models(), old(self).at(old(vars)@), l),
            ensures
                self.tokens@ == old(self).tokens@,
                old(self).pos <= self.pos,
                self.reach() <= old(self).reach(),
                parse_quantors(ts, self.at(vars@), l) == goal,
                goal == parse_quantors(old(self).token_models(), old(self).at(old(vars)@), l),
                !(peek_kind(ts, self.at(vars@)) is ForAll),
                !(peek_kind(ts, self.at(vars@)) is Exist),
            decreases self.left(),
        {
            reveal_with_fuel(parse_quantors, 1);
            reveal_with_fuel(parse_fol, 1);
            let ghost st = self.at(vars@);
            let for_all = match self.peek().kind {
                TokenKind::ForAll => true,
                TokenKind::Exist => false,
                _ => {
                    break;
                },
            };
            self.next(Ghost(vars@));
            let ghost st1 = self.at(vars@);
            // the first name of the group
            match self.peek().kind {
                TokenKind::Ident(ident) => {
                    proof {
                        assert(bind(st1, ident@, for_all) == self.at(vars@.insert(ident@, for_all)));
                    }
                    vars.insert(ident, for_all);
                    self.next(Ghost(vars@));
                },
                got => {
                    let message = quoted_kind_message("Critical Error: Expected identificator, got '", &got);
                    self.report(message, Ghost(vars@));
                    self.next(Ghost(vars@));
                    proof {
                        assert(parse_quantors(ts, st, l) == (Tree::CriticalError, self.at(vars@)));
                    }
                    return AST::CriticalError;
                },
            }
            // the names after it
            let ghost names_start = self.at(vars@);
            loop
                invariant
                    self.tokens@ == old(self).tokens@,
                    ts == self.token_models(),
                    st.pos < self.pos,
                    old(self).reach() < usize::MAX,
                    self.reach() + 6 <= old(self).reach(),
                    quantor_names(ts, self.at(vars@), for_all) == quantor_names(ts, names_start, for_all),
                ensures
                    self.tokens@ == old(self).tokens@,
                    st.pos < self.pos,
                    self.reach() + 6 <= old(self).reach(),
                    self.at(vars@) == quantor_names(ts, names_start, for_all),
                decreases self.left(),
            {
                reveal_with_fuel(quantor_names, 1);
                if !matches!(self.peek().kind, TokenKind::Dot) {
                    break;
                }
                self.next(Ghost(vars@));
                match self.peek().kind {
                    TokenKind::Ident(ident) => {
                        vars.insert(ident, for_all);
                        self.next(Ghost(vars@));
                    },
                    _ => {
                        let mut name = String::new();
                        name.append("identificator");
                        self.expect(TokenKind::Ident(name), true, Ghost(vars@));
                    },
                }
            }
            self.expect(TokenKind::Colon, true, Ghost(vars@));
            let ghost st3 = self.at(vars@);
            if matches!(self.peek().kind, TokenKind::LParen) {
                self.expect(TokenKind::LParen, true, Ghost(vars@));
                let result = self.parse_fol(vars);
                self.expect(TokenKind::RParen, true, Ghost(vars@));
                proof {
                    assert(parse_quantors(ts, st, l) == (result@, self.at(vars@)));
                }
                return result;
            }
            proof {
                assert(parse_quantors(ts, st, l) == parse_quantors(ts, st3, l));
            }
        }
        self.parse_level(vars, l)
    }

    /// `fol -> QUANTORS term ('->' QUANTORS term)*`
    fn parse_fol(&mut self, vars: &mut StringHashMap<bool>) -> (r: AST)
        requires
            old(self).reach() < usize::MAX,
        ensures
            final(self).reach() <= old(self).reach() + 1,
            final(self).tokens@ == old(self).tokens@,
            old(self).pos <= final(self).pos,
            (r@, final(self).at(final(vars)@)) == parse_fol(old(self).token_models(), old(self).at(old(vars)@)),
        decreases old(self).left(), 16nat,
    {
        proof {
            lemma_fol(self.token_models(), self.at(vars@));
        }
        reveal_with_fuel(parse_fol, 1);
        reveal_with_fuel(fol_rest, 1);
        reveal_with_fuel(parse_quantors, 1);
        let ghost ts = self.token_models();
        let mut left = self.parse_quantors(vars, Level::Term);
        let ghost goal = fol_rest(ts, left@, self.at(vars@));
        while matches!(self.peek().kind, TokenKind::Impl)
            invariant
                self.tokens@ == old(self).tokens@,
                ts == self.token_models(),
                old(self).pos <= self.pos,
                old(self).reach() < usize::MAX,
                self.reach() <= old(self).reach() + 1,
                fol_rest(ts, left@, self.at(vars@)) == goal,
            decreases self.left(),
        {
            reveal_with_fuel(parse_fol, 1);
            reveal_with_fuel(fol_rest, 1);
            reveal_with_fuel(parse_quantors, 1);
            self.next(Ghost(vars@));
            let right = self.parse_quantors(vars, Level::Term);
            left = AST::Impl(Box::new(left), Box::new(right));
        }
        left
    }

    /// `term -> QUANTORS term_or ('/\' QUANTORS term_or)*`
    fn parse_term(&mut self, vars: &mut StringHashMap<bool>) -> (r: AST)
        requires
            old(self).reach() < usize::MAX,
        ensures
            final(self).reach() <= old(self).reach() + 1,
            final(self).tokens@ == old(self).tokens@,
            old(self).pos <= final(self).pos,
            (r@, final(self).at(final(vars)@)) == parse_term(old(self).token_models(), old(self).at(old(vars)@)),
        decreases old(self).left(), 13nat,
    {
        proof {
            lemma_term(self.token_models(), self.at(vars@));
        }
        reveal_with_fuel(parse_term, 1);
        reveal_with_fuel(term_rest, 1);
        reveal_with_fuel(parse_quantors, 1);
        let ghost ts = self.token_models();
        let mut left = self.parse_quantors(vars, Level::TermOr);
        let ghost goal = term_rest(ts, left@, self.at(vars@));
        while matches!(self.peek().kind, TokenKind::And)
            invariant
                self.tokens@ == old(self).tokens@,
                ts == self.token_models(),
                old(self).pos <= self.pos,
                old(self).reach() < usize::MAX,
                self.reach() <= old(self).reach() + 1,
                term_rest(ts, left@, self.at(vars@)) == goal,
            decreases self.left(),
        {
            reveal_with_fuel(parse_term, 1);
            reveal_with_fuel(term_rest, 1);
            reveal_with_fuel(parse_quantors, 1);
            self.next(Ghost(vars@));
            let right = self.parse_quantors(vars, Level::TermOr);
            left = AST::And(Box::new(left), Box::new(right));
        }
        left
    }

    /// `term_or -> QUANTORS literal ('\/' QUANTORS literal)*`
    fn parse_term_or(&mut self, vars: &mut StringHashMap<bool>) -> (r: AST)
        requires
            old(self).reach() < usize::MAX,
        ensures
            final(self).reach() <= old(self).reach() + 1,
            final(self).tokens@ == old(self).tokens@,
            old(self).pos <= final(self).pos,
            (r@, final(self).at(final(vars)@)) == parse_term_or(old(self).token_models(), old(self).at(old(vars)@)),
        decreases old(self).left(), 10nat,
    {
        proof {
            lemma_term_or(self.token_models(), self.at(vars@));
        }
        reveal_with_fuel(parse_term_or, 1);
        reveal_with_fuel(term_or_rest, 1);
        reveal_with_fuel(parse_quantors, 1);
        let ghost ts = self.token_models();
        let mut left = self.parse_quantors(vars, Level::Literal);
        let ghost goal = term_or_rest(ts, left@, self.at(vars@));
        while matches!(self.peek().kind, TokenKind::Or)
            invariant
                self.tokens@ == old(self).tokens@,
                ts == self.token_models(),
                old(self).pos <= self.pos,
                old(self).reach() < usize::MAX,
                self.reach() <= old(self).reach() + 1,
                term_or_rest(ts, left@, self.at(vars@)) == goal,
            decreases self.left(),
        {
            reveal_with_fuel(parse_term_or, 1);
            reveal_with_fuel(term_or_rest, 1);
            reveal_with_fuel(parse_quantors, 1);
            self.next(Ghost(vars@));
            let right = self.parse_quantors(vars, Level::Literal);
            left = AST::Or(Box::new(left), Box::new(right));
        }
        left
    }

    /// `literal -> ('~')? IDENT '(' arg (',' arg)* ')'`
    fn parse_literal(&mut self, vars: &mut StringHashMap<bool>) -> (r: AST)
        requires
            old(self).reach() < usize::MAX,
        ensures
            final(self).reach() <= old(self).reach() + 1,
            final(self).tokens@ == old(self).tokens@,
            old(self).pos <= final(self).pos,
            (r@, final(self).at(final(vars)@)) == parse_literal(old(self).token_models(), old(self).at(old(vars)@)),
        decreases old(self).left(), 7nat,
    {
        proof {
            lemma_literal(self.token_models(), self.at(vars@));
        }
        let ghost ts = self.token_models();
        let ghost st = self.at(vars@);
        let mut is_not = false;
        if matches!(self.peek().kind, TokenKind::Not) {
            is_not = true;
            self.next(Ghost(vars@));
        }
        let ghost st0 = self.at(vars@);
        let ident = match self.peek().kind {
            TokenKind::Ident(s) => s,
            got => {
                let message = quoted_kind_message("Critical Error: Expected identificator, got '", &got);
                self.report(message, Ghost(vars@));
                self.next(Ghost(vars@));
                proof {
                    lemma_literal_without_name(ts, st, is_not, st0, got@, self.at(vars@));
                }
                return AST::CriticalError;
            },
        };
        let ghost name = ident@;
        self.next(Ghost(vars@));
        self.expect(TokenKind::LParen, true, Ghost(vars@));
        let ghost st1 = self.at(vars@);
        assert(st1 == expect(ts, advance(ts, st0), KindModel::LParen, true).1);
        let mut args: Vec<AST> = Vec::new();
        let first = self.parse_arg(vars);
        let ghost first_tree = first@;
        let ghost st2 = self.at(vars@);
        args.push(first);
        proof {
            reveal_with_fuel(arg_rest, 1);
            lemma_asts_push(Seq::<AST>::empty(), first);
            assert(asts_view(args@) =~= seq![first_tree]);
        }
        let ghost goal = arg_rest(ts, seq![first_tree], st2);
        while matches!(self.peek().kind, TokenKind::Dot)
            invariant
                self.tokens@ == old(self).tokens@,
                ts == self.token_models(),
                old(self).pos < st1.pos <= self.pos,
                old(self).reach() < usize::MAX,
                self.reach() + 1 <= old(self).reach(),
                arg_rest(ts, asts_view(args@), self.at(vars@)) == goal,
            decreases self.left(),
        {
            reveal_with_fuel(arg_rest, 1);
            reveal_with_fuel(parse_arg, 1);
            self.next(Ghost(vars@));
            let a = self.parse_arg(vars);
            proof {
                lemma_asts_push(args@, a);
            }
            args.push(a);
        }
        let ghost args_tree = asts_view(args@);
        let ghost st3 = self.at(vars@);
        proof {
            reveal_with_fuel(arg_rest, 1);
            assert(goal == (args_tree, st3));
        }
        self.expect(TokenKind::RParen, true, Ghost(vars@));
        let ghost st4 = self.at(vars@);
        assert(st4 == expect(ts, st3, KindModel::RParen, true).1);
        let pred = AST::Predicate(ident, args);
        assert(pred@ == Tree::Predicate(name, args_tree));
        let r = if is_not {
            AST::Not(Box::new(pred))
        } else {
            pred
        };
        proof {
            let pred = Tree::Predicate(name, args_tree);
            assert(r@ == if is_not { Tree::Not(Box::new(pred)) } else { pred });
            lemma_literal_steps(ts, st, is_not, st0, name, st1, first_tree, st2, args_tree, st3, st4);
        }
        r
    }

    /// `arg -> IDENT '(' arg (',' arg)* ')' | arith`
    fn parse_arg(&mut self, vars: &mut StringHashMap<bool>) -> (r: AST)
        requires
            old(self).reach() < usize::MAX,
        ensures
            final(self).reach() <= old(self).reach() + 1,
            final(self).tokens@ == old(self).tokens@,
            old(self).pos <= final(self).pos,
            (r@, final(self).at(final(vars)@)) == parse_arg(old(self).token_models(), old(self).at(old(vars)@)),
        decreases old(self).left(), 6nat,
    {
        proof {
            lemma_arg(self.token_models(), self.at(vars@));
        }
        reveal_with_fuel(parse_arg, 1);
        reveal_with_fuel(arg_rest, 1);
        reveal_with_fuel(parse_arith, 1);
        let ghost ts = self.token_models();
        if let TokenKind::Ident(ident) = self.peek().kind {
            // an identifier followed by '(' is a function application
            self.next(Ghost(vars@));
            let is_f = matches!(self.peek().kind, TokenKind::LParen);
            self.pos -= 1;
            if is_f {
                self.next(Ghost(vars@));
                self.next(Ghost(vars@));
                let mut args: Vec<AST> = Vec::new();
                let first = self.parse_arg(vars);
                args.push(first);
                let ghost goal = arg_rest(ts, asts_view(args@), self.at(vars@));
                proof {
                    assert(asts_view(args@) =~= seq![first@]) by {
                        lemma_asts_push(Seq::<AST>::empty(), first);
                    }
                }
                while matches!(self.peek().kind, TokenKind::Dot)
                    invariant
                        self.tokens@ == old(self).tokens@,
                        ts == self.token_models(),
                        old(self).pos < self.pos,
                        old(self).reach() < usize::MAX,
                        self.reach() + 3 <= old(self).reach(),
                        arg_rest(ts, asts_view(args@), self.at(vars@)) == goal,
                    decreases self.left(),
                {
                    reveal_with_fuel(parse_arg, 1);
                    reveal_with_fuel(arg_rest, 1);
                    reveal_with_fuel(parse_arith, 1);
                    self.next(Ghost(vars@));
                    let a = self.parse_arg(vars);
                    proof {
                        lemma_asts_push(args@, a);
                    }
                    args.push(a);
                }
                self.expect(TokenKind::RParen, true, Ghost(vars@));
                return AST::Function(ident, args);
            }
        }
        self.parse_arith(vars)
    }

    /// `arith -> arith_term (('+' | '-') arith_term)*`
    fn parse_arith(&mut self, vars: &mut StringHashMap<bool>) -> (r: AST)
        requires
            old(self).reach() < usize::MAX,
        ensures
            final(self).reach() <= old(self).reach() + 1,
            final(self).tokens@ == old(self).tokens@,
            old(self).pos <= final(self).pos,
            (r@, final(self).at(final(vars)@)) == parse_arith(old(self).token_models(), old(self).at(old(vars)@)),
        decreases old(self).left(), 5nat,
    {
        proof {
            lemma_arith(self.token_models(), self.at(vars@));
        }
        reveal_with_fuel(parse_arith, 1);
        reveal_with_fuel(arith_rest, 1);
        reveal_with_fuel(parse_arith_term, 1);
        let ghost ts = self.token_models();
        let mut left = self.parse_arith_term(vars);
        let ghost goal = arith_rest(ts, left@, self.at(vars@));
        while matches!(self.peek().kind, TokenKind::Plus | TokenKind::Minus)
            invariant
                self.tokens@ == old(self).tokens@,
                ts == self.token_models(),
                old(self).pos <= self.pos,
                old(self).reach() < usize::MAX,
                self.reach() <= old(self).reach() + 1,
                arith_rest(ts, left@, self.at(vars@)) == goal,
            decreases self.left(),
        {
            reveal_with_fuel(parse_arith, 1);
            reveal_with_fuel(arith_rest, 1);
            reveal_with_fuel(parse_arith_term, 1);
            let ghost st0 = self.at(vars@);
            let ghost left0 = left@;
            let is_plus = matches!(self.peek().kind, TokenKind::Plus);
            proof {
                lemma_reach_step(ts, self.pos as nat);
            }
            self.next(Ghost(vars@));
            let right = self.parse_arith_term(vars);
            left = binary_ast(if is_plus { "+" } else { "-" }, left, right);
            proof {
                assert(arith_rest(ts, left0, st0) == arith_rest(ts, left@, self.at(vars@)));
            }
        }
        left
    }

    /// `arith_term -> factor (('*' | '/') factor)*`
    fn parse_arith_term(&mut self, vars: &mut StringHashMap<bool>) -> (r: AST)
        requires
            old(self).reach() < usize::MAX,
        ensures
            final(self).reach() <= old(self).reach() + 1,
            final(self).tokens@ == old(self).tokens@,
            old(self).pos <= final(self).pos,
            (r@, final(self).at(final(vars)@)) == parse_arith_term(old(self).token_models(), old(self).at(old(vars)@)),
        decreases old(self).left(), 4nat,
    {
        proof {
            lemma_arith_term(self.token_models(), self.at(vars@));
        }
        reveal_with_fuel(parse_arith_term, 1);
        reveal_with_fuel(arith_term_rest, 1);
        reveal_with_fuel(parse_factor, 1);
        let ghost ts = self.token_models();
        let mut left = self.parse_factor(vars);
        let ghost goal = arith_term_rest(ts, left@, self.at(vars@));
        while matches!(self.peek().kind, TokenKind::Star | TokenKind::Slash)
            invariant
                self.tokens@ == old(self).tokens@,
                ts == self.token_models(),
                old(self).pos <= self.pos,
                old(self).reach() < usize::MAX,
                self.reach() <= old(self).reach() + 1,
                arith_term_rest(ts, left@, self.at(vars@)) == goal,
            decreases self.left(),
        {
            reveal_with_fuel(parse_arith_term, 1);
            reveal_with_fuel(arith_term_rest, 1);
            reveal_with_fuel(parse_factor, 1);
            let ghost st0 = self.at(vars@);
            let ghost left0 = left@;
            let is_star = matches!(self.peek().kind, TokenKind::Star);
            proof {
                lemma_reach_step(ts, self.pos as nat);
            }
            self.next(Ghost(vars@));
            let right = self.parse_factor(vars);
            left = binary_ast(if is_star { "*" } else { "/" }, left, right);
            proof {
                assert(arith_term_rest(ts, left0, st0) == arith_term_rest(ts, left@, self.at(vars@)));
            }
        }
        left
    }

    /// `factor -> NUMBER | IDENT | '(' fol ')'`
    fn parse_factor(&mut self, vars: &mut StringHashMap<bool>) -> (r: AST)
        requires
            old(self).reach() < usize::MAX,
        ensures
            final(self).reach() <= old(self).reach() + 1,
            final(self).tokens@ == old(self).tokens@,
            old(self).pos <= final(self).pos,
            (r@, final(self).at(final(vars)@)) == parse_factor(old(self).token_models(), old(self).at(old(vars)@)),
        decreases old(self).left(), 3nat,
    {
        proof {
            lemma_factor(self.token_models(), self.at(vars@));
        }
        reveal_with_fuel(parse_factor, 1);
        reveal_with_fuel(parse_fol, 1);
        match self.peek().kind {
            TokenKind::Number(i) => {
                self.next(Ghost(vars@));
                let mut text = String::new();
                push_signed_decimal(&mut text, i);
                AST::Const(text)
            },
            TokenKind::Ident(s) => {
                self.next(Ghost(vars@));
                match vars.get(s.as_str()) {
                    Some(value) => match *value {
                        true => AST::VariableForAll(s),
                        false => AST::VariableForAll(s),
                    },
                    None => AST::Const(s),
                }
            },
            TokenKind::LParen => {
                self.next(Ghost(vars@));
                let inner = self.parse_fol(vars);
                self.expect(TokenKind::RParen, true, Ghost(vars@));
                inner
            },
            got => {
                let message = quoted_kind_message(
                    "Critical Error: expected number or identificator or expression in parens, got '",
                    &got,
                );
                self.report(message, Ghost(vars@));
                self.next(Ghost(vars@));
                AST::CriticalError
            },
        }
    }

    /// The message for `got` standing where `expected` should.
    fn expected_message(&self, expected: &TokenKind, got: &TokenKind) -> (s: String)
        ensures
            s@ == expected_message(expected@, got@),
    {
        let mut s = String::new();
        s.append("Expected '");
        let e = expected.display_text();
        s.append(e.as_str());
        s.append("', got '");
        let g = got.display_text();
        s.append(g.as_str());
        s.append("'");
        s
    }
}

} // verus!
