//! What holds of every parse: earlier errors are kept, the cursor only moves
//! forward and within its reach, and every `CriticalError` in the
//! tree comes with a recorded error.
use vstd::prelude::*;
use crate::error::ErrorModel;
use crate::lexer::{KindModel, TokenModel};
use crate::parser::{
    Level, PState, Tree, advance, arg_rest, arith_rest, arith_term_rest, bind, expect, fol_rest,
    parse_arg, parse_arith, parse_arith_term, parse_expression, parse_factor, parse_fol,
    parse_level, parse_literal, parse_quantors, parse_term, parse_term_or, parse_tokens, peek,
    reach, reach_from,
    peek_kind, quantor_names, remaining, report, term_or_rest, term_rest, level_rank, ident_message,
    lemma_literal_steps, lemma_literal_without_name,
};

verus! {

/// Whether a tree holds a `CriticalError` anywhere.
pub open spec fn has_critical(t: Tree) -> bool
    decreases t,
{
    match t {
        Tree::CriticalError => true,
        Tree::Function(_, args) => any_critical(args),
        Tree::Predicate(_, args) => any_critical(args),
        Tree::Not(x) => has_critical(*x),
        Tree::Or(x, y) => has_critical(*x) || has_critical(*y),
        Tree::And(x, y) => has_critical(*x) || has_critical(*y),
        Tree::Impl(x, y) => has_critical(*x) || has_critical(*y),
        Tree::Axiom(_, x) => has_critical(*x),
        Tree::Schema(_, x) => has_critical(*x),
        _ => false,
    }
}

/// Whether some tree of a list holds a `CriticalError`.
pub open spec fn any_critical(s: Seq<Tree>) -> bool
    decreases s,
{
    if s.len() == 0 {
        false
    } else {
        any_critical(s.drop_last()) || has_critical(s.last())
    }
}

/// `a` is where `b` begins.
pub open spec fn begins(a: Seq<ErrorModel>, b: Seq<ErrorModel>) -> bool {
    a.len() <= b.len() && forall|i: int| 0 <= i < a.len() ==> #[trigger] b[i] == a[i]
}

/// From state `st` to `st2`: the cursor does not move back, its reach grows
/// by at most `extra`, and the errors of `st` are kept.
pub open spec fn moves_on(ts: Seq<TokenModel>, st: PState, st2: PState, extra: nat) -> bool {
    &&& st.pos <= st2.pos
    &&& reach(ts, st2) <= reach(ts, st) + extra
    &&& begins(st.errors, st2.errors)
}

/// A step from `st` to `st2` that reads `tree`: it moves on, its reach grows
/// by at most one, and if the tree holds a `CriticalError`, an error was
/// recorded.
pub open spec fn reads_well(ts: Seq<TokenModel>, st: PState, tree: Tree, st2: PState) -> bool {
    &&& moves_on(ts, st, st2, 1)
    &&& has_critical(tree) ==> st2.errors.len() > st.errors.len()
}

/// Like `reads_well`, for a rule that continues after `left`: its reach does
/// not grow.
pub open spec fn extends_well(ts: Seq<TokenModel>, left: Tree, st: PState, tree: Tree, st2: PState) -> bool {
    &&& moves_on(ts, st, st2, 0)
    &&& has_critical(tree) ==> has_critical(left) || st2.errors.len() > st.errors.len()
}

// ============================================================================
// The laws
// ============================================================================

/// Parsing keeps the errors recorded before it: the errors it gives begin
/// with them.
pub proof fn law_parse_keeps_earlier_errors(ts: Seq<TokenModel>, pos: nat, errors: Seq<ErrorModel>)
    ensures
        begins(errors, parse_tokens(ts, pos, errors).2),
{
    lemma_parse_tokens(ts, pos, errors);
}

/// Parsing only moves the cursor forward, and at most one step past its
/// reach: from a cursor within the tokens, that is the end of the tokens
/// plus three steps for each token left, plus one.
pub proof fn law_parse_moves_forward(ts: Seq<TokenModel>, pos: nat, errors: Seq<ErrorModel>)
    ensures
        pos <= parse_tokens(ts, pos, errors).1,
        parse_tokens(ts, pos, errors).1 <= reach_from(ts, pos) + 1,
{
    lemma_parse_tokens(ts, pos, errors);
}

/// Every `CriticalError` in the tree comes with a recorded error: a parse
/// that records no error gives a tree without one.
pub proof fn law_critical_errors_are_reported(ts: Seq<TokenModel>, pos: nat, errors: Seq<ErrorModel>)
    ensures
        has_critical(parse_tokens(ts, pos, errors).0) ==> parse_tokens(ts, pos, errors).2.len() > errors.len(),
        parse_tokens(ts, pos, Seq::empty()).2.len() == 0 ==> !has_critical(parse_tokens(ts, pos, Seq::empty()).0),
{
    lemma_parse_tokens(ts, pos, errors);
    lemma_parse_tokens(ts, pos, Seq::empty());
}

// ============================================================================
// Their proofs
// ============================================================================

proof fn lemma_parse_tokens(ts: Seq<TokenModel>, pos: nat, errors: Seq<ErrorModel>)
    ensures
        ({
            let (tree, pos2, errors2) = parse_tokens(ts, pos, errors);
            &&& pos <= pos2
            &&& pos2 <= reach_from(ts, pos) + 1
            &&& begins(errors, errors2)
            &&& has_critical(tree) ==> errors2.len() > errors.len()
        }),
{
    let st = PState { pos, errors, vars: Map::empty() };
    lemma_expression(ts, st);
}

pub(crate) proof fn lemma_expression(ts: Seq<TokenModel>, st: PState)
    ensures
        reads_well(ts, st, parse_expression(ts, st).0, parse_expression(ts, st).1),
{
    reveal(parse_expression);
    reveal_with_fuel(parse_fol, 1);
    let k = peek_kind(ts, st);
    if (k is Axiom) || (k is Schema) {
        let st1 = advance(ts, st);
        if let KindModel::Ident(name) = peek_kind(ts, st1) {
            let st2 = expect(ts, advance(ts, st1), KindModel::Colon, true).1;
            lemma_fol(ts, PState { vars: Map::empty(), ..st2 });
        }
    }
}

proof fn lemma_names(ts: Seq<TokenModel>, st: PState, for_all: bool)
    ensures
        moves_on(ts, st, quantor_names(ts, st, for_all), 0),
    decreases remaining(ts, st),
{
    reveal_with_fuel(quantor_names, 1);
    if peek_kind(ts, st) is Dot {
        let st1 = advance(ts, st);
        let st2 = match peek_kind(ts, st1) {
            KindModel::Ident(name) => advance(ts, bind(st1, name, for_all)),
            _ => expect(ts, st1, KindModel::Ident("identificator"@), true).1,
        };
        lemma_names(ts, st2, for_all);
    }
}

pub(crate) proof fn lemma_level(ts: Seq<TokenModel>, st: PState, l: Level)
    ensures
        reads_well(ts, st, parse_level(ts, st, l).0, parse_level(ts, st, l).1),
    decreases remaining(ts, st), level_rank(l) + 1,
{
    reveal_with_fuel(parse_level, 1);
    reveal_with_fuel(parse_term, 1);
    reveal_with_fuel(parse_term_or, 1);
    reveal_with_fuel(parse_literal, 1);
    match l {
        Level::Term => lemma_term(ts, st),
        Level::TermOr => lemma_term_or(ts, st),
        Level::Literal => lemma_literal(ts, st),
    }
}

pub(crate) proof fn lemma_quantors(ts: Seq<TokenModel>, st: PState, l: Level)
    ensures
        reads_well(ts, st, parse_quantors(ts, st, l).0, parse_quantors(ts, st, l).1),
    decreases remaining(ts, st), level_rank(l) + 2,
{
    reveal_with_fuel(parse_quantors, 1);
    reveal_with_fuel(parse_fol, 1);
    reveal_with_fuel(parse_level, 1);
    let k = peek_kind(ts, st);
    if k is ForAll || k is Exist {
        let for_all = k is ForAll;
        let st1 = advance(ts, st);
        if let KindModel::Ident(name) = peek_kind(ts, st1) {
            let st2a = advance(ts, bind(st1, name, for_all));
            lemma_names(ts, st2a, for_all);
            let st2 = quantor_names(ts, st2a, for_all);
            let st3 = expect(ts, st2, KindModel::Colon, true).1;
            if peek_kind(ts, st3) is LParen {
                let st4 = expect(ts, st3, KindModel::LParen, true).1;
                lemma_fol(ts, st4);
            } else {
                lemma_quantors(ts, st3, l);
            }
        }
    } else {
        lemma_level(ts, st, l);
    }
}

pub(crate) proof fn lemma_fol(ts: Seq<TokenModel>, st: PState)
    ensures
        reads_well(ts, st, parse_fol(ts, st).0, parse_fol(ts, st).1),
    decreases remaining(ts, st), 16nat,
{
    reveal_with_fuel(parse_fol, 1);
    reveal_with_fuel(parse_quantors, 1);
    reveal_with_fuel(fol_rest, 1);
    lemma_quantors(ts, st, Level::Term);
    let (left, st1) = parse_quantors(ts, st, Level::Term);
    if st1.pos >= st.pos {
        lemma_fol_rest(ts, left, st1);
    }
}

proof fn lemma_fol_rest(ts: Seq<TokenModel>, left: Tree, st: PState)
    ensures
        extends_well(ts, left, st, fol_rest(ts, left, st).0, fol_rest(ts, left, st).1),
    decreases remaining(ts, st), 0nat,
{
    reveal_with_fuel(fol_rest, 1);
    reveal_with_fuel(parse_quantors, 1);
    if peek_kind(ts, st) is Impl {
        let st1 = advance(ts, st);
        lemma_quantors(ts, st1, Level::Term);
        let (right, st2) = parse_quantors(ts, st1, Level::Term);
        if st2.pos >= st1.pos {
            lemma_fol_rest(ts, Tree::Impl(Box::new(left), Box::new(right)), st2);
        }
    }
}

pub(crate) proof fn lemma_term(ts: Seq<TokenModel>, st: PState)
    ensures
        reads_well(ts, st, parse_term(ts, st).0, parse_term(ts, st).1),
    decreases remaining(ts, st), 13nat,
{
    reveal_with_fuel(parse_term, 1);
    reveal_with_fuel(parse_quantors, 1);
    reveal_with_fuel(term_rest, 1);
    lemma_quantors(ts, st, Level::TermOr);
    let (left, st1) = parse_quantors(ts, st, Level::TermOr);
    if st1.pos >= st.pos {
        lemma_term_rest(ts, left, st1);
    }
}

proof fn lemma_term_rest(ts: Seq<TokenModel>, left: Tree, st: PState)
    ensures
        extends_well(ts, left, st, term_rest(ts, left, st).0, term_rest(ts, left, st).1),
    decreases remaining(ts, st), 0nat,
{
    reveal_with_fuel(term_rest, 1);
    reveal_with_fuel(parse_quantors, 1);
    if peek_kind(ts, st) is And {
        let st1 = advance(ts, st);
        lemma_quantors(ts, st1, Level::TermOr);
        let (right, st2) = parse_quantors(ts, st1, Level::TermOr);
        if st2.pos >= st1.pos {
            lemma_term_rest(ts, Tree::And(Box::new(left), Box::new(right)), st2);
        }
    }
}

pub(crate) proof fn lemma_term_or(ts: Seq<TokenModel>, st: PState)
    ensures
        reads_well(ts, st, parse_term_or(ts, st).0, parse_term_or(ts, st).1),
    decreases remaining(ts, st), 10nat,
{
    reveal_with_fuel(parse_term_or, 1);
    reveal_with_fuel(parse_quantors, 1);
    reveal_with_fuel(term_or_rest, 1);
    lemma_quantors(ts, st, Level::Literal);
    let (left, st1) = parse_quantors(ts, st, Level::Literal);
    if st1.pos >= st.pos {
        lemma_term_or_rest(ts, left, st1);
    }
}

proof fn lemma_term_or_rest(ts: Seq<TokenModel>, left: Tree, st: PState)
    ensures
        extends_well(ts, left, st, term_or_rest(ts, left, st).0, term_or_rest(ts, left, st).1),
    decreases remaining(ts, st), 0nat,
{
    reveal_with_fuel(term_or_rest, 1);
    reveal_with_fuel(parse_quantors, 1);
    if peek_kind(ts, st) is Or {
        let st1 = advance(ts, st);
        lemma_quantors(ts, st1, Level::Literal);
        let (right, st2) = parse_quantors(ts, st1, Level::Literal);
        if st2.pos >= st1.pos {
            lemma_term_or_rest(ts, Tree::Or(Box::new(left), Box::new(right)), st2);
        }
    }
}

pub(crate) proof fn lemma_literal(ts: Seq<TokenModel>, st: PState)
    ensures
        reads_well(ts, st, parse_literal(ts, st).0, parse_literal(ts, st).1),
    decreases remaining(ts, st), 7nat,
{
    let is_not = peek_kind(ts, st) is Not;
    let st0 = if is_not { advance(ts, st) } else { st };
    match peek_kind(ts, st0) {
        KindModel::Ident(name) => {
            let st1 = expect(ts, advance(ts, st0), KindModel::LParen, true).1;
            lemma_arg(ts, st1);
            let (first, st2) = parse_arg(ts, st1);
            lemma_any_single(first);
            lemma_arg_rest(ts, seq![first], st2);
            let (args, st3) = arg_rest(ts, seq![first], st2);
            let st4 = expect(ts, st3, KindModel::RParen, true).1;
            lemma_literal_steps(ts, st, is_not, st0, name, st1, first, st2, args, st3, st4);
            let pred = Tree::Predicate(name, args);
            assert(has_critical(pred) == any_critical(args));
            assert(has_critical(Tree::Not(Box::new(pred))) == has_critical(pred));
            assert(begins(st.errors, st1.errors));
            assert(begins(st1.errors, st2.errors));
            assert(begins(st2.errors, st3.errors));
            assert(begins(st3.errors, st4.errors));
        },
        got => {
            lemma_literal_without_name(ts, st, is_not, st0, got, advance(ts, report(ts, st0, ident_message(got))));
        },
    }
}

proof fn lemma_arg_rest(ts: Seq<TokenModel>, args: Seq<Tree>, st: PState)
    ensures
        moves_on(ts, st, arg_rest(ts, args, st).1, 0),
        any_critical(arg_rest(ts, args, st).0) ==> any_critical(args) || arg_rest(ts, args, st).1.errors.len()
            > st.errors.len(),
    decreases remaining(ts, st), 0nat,
{
    reveal_with_fuel(arg_rest, 1);
    reveal_with_fuel(parse_arg, 1);
    if peek_kind(ts, st) is Dot {
        let st1 = advance(ts, st);
        lemma_arg(ts, st1);
        let (a, st2) = parse_arg(ts, st1);
        lemma_any_push(args, a);
        if st2.pos >= st1.pos {
            lemma_arg_rest(ts, args.push(a), st2);
        }
    }
}

pub(crate) proof fn lemma_arg(ts: Seq<TokenModel>, st: PState)
    ensures
        reads_well(ts, st, parse_arg(ts, st).0, parse_arg(ts, st).1),
    decreases remaining(ts, st), 6nat,
{
    reveal_with_fuel(parse_arg, 1);
    reveal_with_fuel(arg_rest, 1);
    reveal_with_fuel(parse_arith, 1);
    if let KindModel::Ident(name) = peek_kind(ts, st) {
        if peek(ts, st.pos + 1).kind is LParen {
            let st1 = advance(ts, advance(ts, st));
            lemma_arg(ts, st1);
            let (first, st2) = parse_arg(ts, st1);
            lemma_any_single(first);
            if st2.pos >= st1.pos {
                lemma_arg_rest(ts, seq![first], st2);
            }
        } else {
            lemma_arith(ts, st);
        }
    } else {
        lemma_arith(ts, st);
    }
}

/// The operands of a binary operation hold a `CriticalError` exactly when
/// one of them does.
proof fn lemma_binary_critical(op: Seq<char>, left: Tree, right: Tree)
    ensures
        has_critical(Tree::Function(op, seq![left, right])) == (has_critical(left) || has_critical(right)),
{
    lemma_any_single(left);
    lemma_any_push(seq![left], right);
    assert(seq![left].push(right) =~= seq![left, right]);
}

/// A list with one more tree holds a `CriticalError` when the list or the
/// tree does.
proof fn lemma_any_push(s: Seq<Tree>, a: Tree)
    ensures
        any_critical(s.push(a)) == (any_critical(s) || has_critical(a)),
{
    assert(s.push(a).drop_last() =~= s);
}

/// A list of one tree holds a `CriticalError` when the tree does.
proof fn lemma_any_single(a: Tree)
    ensures
        any_critical(seq![a]) == has_critical(a),
{
    lemma_any_push(Seq::empty(), a);
    assert(Seq::<Tree>::empty().push(a) =~= seq![a]);
}

pub(crate) proof fn lemma_arith(ts: Seq<TokenModel>, st: PState)
    ensures
        reads_well(ts, st, parse_arith(ts, st).0, parse_arith(ts, st).1),
    decreases remaining(ts, st), 5nat,
{
    reveal_with_fuel(parse_arith, 1);
    reveal_with_fuel(parse_arith_term, 1);
    reveal_with_fuel(arith_rest, 1);
    lemma_arith_term(ts, st);
    let (left, st1) = parse_arith_term(ts, st);
    if st1.pos >= st.pos {
        lemma_arith_rest(ts, left, st1);
    }
}

proof fn lemma_arith_rest(ts: Seq<TokenModel>, left: Tree, st: PState)
    ensures
        extends_well(ts, left, st, arith_rest(ts, left, st).0, arith_rest(ts, left, st).1),
    decreases remaining(ts, st), 0nat,
{
    reveal_with_fuel(arith_rest, 1);
    reveal_with_fuel(parse_arith_term, 1);
    let k = peek_kind(ts, st);
    if k is Plus || k is Minus {
        let st1 = advance(ts, st);
        lemma_arith_term(ts, st1);
        let (right, st2) = parse_arith_term(ts, st1);
        let op = if k is Plus { "+"@ } else { "-"@ };
        lemma_binary_critical(op, left, right);
        if st2.pos >= st1.pos {
            lemma_arith_rest(ts, Tree::Function(op, seq![left, right]), st2);
        }
    }
}

pub(crate) proof fn lemma_arith_term(ts: Seq<TokenModel>, st: PState)
    ensures
        reads_well(ts, st, parse_arith_term(ts, st).0, parse_arith_term(ts, st).1),
    decreases remaining(ts, st), 4nat,
{
    reveal_with_fuel(parse_arith_term, 1);
    reveal_with_fuel(parse_factor, 1);
    reveal_with_fuel(arith_term_rest, 1);
    lemma_factor(ts, st);
    let (left, st1) = parse_factor(ts, st);
    if st1.pos >= st.pos {
        lemma_arith_term_rest(ts, left, st1);
    }
}

proof fn lemma_arith_term_rest(ts: Seq<TokenModel>, left: Tree, st: PState)
    ensures
        extends_well(ts, left, st, arith_term_rest(ts, left, st).0, arith_term_rest(ts, left, st).1),
    decreases remaining(ts, st), 0nat,
{
    reveal_with_fuel(arith_term_rest, 1);
    reveal_with_fuel(parse_factor, 1);
    let k = peek_kind(ts, st);
    if k is Star || k is Slash {
        let st1 = advance(ts, st);
        lemma_factor(ts, st1);
        let (right, st2) = parse_factor(ts, st1);
        let op = if k is Star { "*"@ } else { "/"@ };
        lemma_binary_critical(op, left, right);
        if st2.pos >= st1.pos {
            lemma_arith_term_rest(ts, Tree::Function(op, seq![left, right]), st2);
        }
    }
}

pub(crate) proof fn lemma_factor(ts: Seq<TokenModel>, st: PState)
    ensures
        reads_well(ts, st, parse_factor(ts, st).0, parse_factor(ts, st).1),
    decreases remaining(ts, st), 3nat,
{
    reveal_with_fuel(parse_factor, 1);
    reveal_with_fuel(parse_fol, 1);
    if peek_kind(ts, st) is LParen {
        lemma_fol(ts, advance(ts, st));
    }
}

} // verus!
