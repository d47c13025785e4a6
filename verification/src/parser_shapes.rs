//! What the parser builds from token lists of a known shape: every argument
//! of a list is kept, and a chain of implications nests to the left.
use vstd::prelude::*;
use crate::error::ErrorModel;
use crate::lexer::{KindModel, TokenModel};
use crate::lexer_join::kinds;
use crate::parser::{
    Level, PState, Tree, advance, arg_rest, arith_rest, arith_term_rest, expect, fol_rest,
    parse_arg, parse_arith, parse_arith_term, parse_expression, parse_factor, parse_fol,
    parse_level, parse_literal, parse_quantors, parse_term, parse_term_or, parse_tokens, peek,
    peek_kind, quantor_names, term_or_rest, term_rest,
};

verus! {

// ============================================================================
// Shapes of token lists
// ============================================================================

/// The tokens of a list of names separated by commas: `a0 , a1 , ... , an`.
pub open spec fn arg_kinds(names: Seq<Seq<char>>) -> Seq<KindModel>
    decreases names.len(),
{
    if names.len() == 0 {
        seq![]
    } else if names.len() == 1 {
        seq![KindModel::Ident(names[0])]
    } else {
        arg_kinds(names.drop_last()) + seq![KindModel::Dot, KindModel::Ident(names.last())]
    }
}

/// The tokens of an application `f ( a0 , ... , an )`.
pub open spec fn call_kinds(f: Seq<char>, names: Seq<Seq<char>>) -> Seq<KindModel> {
    seq![KindModel::Ident(f), KindModel::LParen] + arg_kinds(names) + seq![KindModel::RParen]
}

/// The tokens of `axiom name : body`, then EOF.
pub open spec fn axiom_kinds(name: Seq<char>, body: Seq<KindModel>) -> Seq<KindModel> {
    seq![KindModel::Axiom, KindModel::Ident(name), KindModel::Colon] + body + seq![KindModel::EOF]
}

/// What a name stands for as an argument: a variable where a quantifier
/// bound it (`forall` or `exist` alike), else a constant.
pub open spec fn atom(vars: Map<Seq<char>, bool>, a: Seq<char>) -> Tree {
    if vars.contains_key(a) {
        Tree::VariableForAll(a)
    } else {
        Tree::Const(a)
    }
}

/// What a list of names stands for as arguments.
pub open spec fn atoms(vars: Map<Seq<char>, bool>, names: Seq<Seq<char>>) -> Seq<Tree> {
    names.map_values(|a: Seq<char>| atom(vars, a))
}

/// The constants named by a list of names.
pub open spec fn consts(names: Seq<Seq<char>>) -> Seq<Tree> {
    names.map_values(|a: Seq<char>| Tree::Const(a))
}

/// The connectives between formulas: `->`, `/\` and `\/`.
pub open spec fn connective(op: KindModel) -> bool {
    op is Impl || op is And || op is Or
}

/// The tokens of `p0(x0) op p1(x1) op ... op pn(xn)`.
pub open spec fn chain_kinds(op: KindModel, ps: Seq<Seq<char>>, xs: Seq<Seq<char>>) -> Seq<KindModel>
    decreases ps.len(),
{
    if ps.len() == 0 {
        seq![]
    } else if ps.len() == 1 {
        call_kinds(ps[0], seq![xs[0]])
    } else {
        chain_kinds(op, ps.drop_last(), xs.drop_last()) + seq![op] + call_kinds(
            ps.last(),
            seq![xs[ps.len() - 1]],
        )
    }
}

/// The predicate `p(x)` with a constant argument.
pub open spec fn unary(p: Seq<char>, x: Seq<char>) -> Tree {
    Tree::Predicate(p, seq![Tree::Const(x)])
}

/// Two formulas joined by a connective.
pub open spec fn join(op: KindModel, left: Tree, right: Tree) -> Tree {
    match op {
        KindModel::And => Tree::And(Box::new(left), Box::new(right)),
        KindModel::Or => Tree::Or(Box::new(left), Box::new(right)),
        _ => Tree::Impl(Box::new(left), Box::new(right)),
    }
}

/// `p0(x0) op ... op pn(xn)` nested to the left:
/// `op(...op(op(p0(x0), p1(x1)), p2(x2))..., pn(xn))`.
pub open spec fn left_chain(op: KindModel, ps: Seq<Seq<char>>, xs: Seq<Seq<char>>) -> Tree
    decreases ps.len(),
{
    if ps.len() <= 1 {
        unary(ps[0], xs[0])
    } else {
        join(op, left_chain(op, ps.drop_last(), xs.drop_last()), unary(ps.last(), xs[ps.len() - 1]))
    }
}

/// The tokens of `n0 op0 n1 op1 ... nm`, for names and operators.
pub open spec fn arith_kinds(ops: Seq<KindModel>, names: Seq<Seq<char>>) -> Seq<KindModel>
    decreases ops.len(),
{
    if ops.len() == 0 {
        seq![KindModel::Ident(names[0])]
    } else {
        arith_kinds(ops.drop_last(), names.drop_last()) + seq![
            ops.last(),
            KindModel::Ident(names[ops.len() as int]),
        ]
    }
}

/// The name of the function that an arithmetic operator applies.
pub open spec fn op_symbol(op: KindModel) -> Seq<char> {
    match op {
        KindModel::Plus => "+"@,
        KindModel::Minus => "-"@,
        KindModel::Star => "*"@,
        _ => "/"@,
    }
}

/// `n0 op0 n1 ... nm` nested to the left:
/// `opm(...op1(op0(n0, n1), n2)..., nm)`, each operation a function of two
/// arguments.
pub open spec fn arith_chain(ops: Seq<KindModel>, names: Seq<Seq<char>>) -> Tree
    decreases ops.len(),
{
    if ops.len() == 0 {
        Tree::Const(names[0])
    } else {
        Tree::Function(
            op_symbol(ops.last()),
            seq![arith_chain(ops.drop_last(), names.drop_last()), Tree::Const(names[ops.len() as int])],
        )
    }
}

/// Operators of one precedence: `+` and `-`, or `*` and `/`.
pub open spec fn same_rank(ops: Seq<KindModel>, additive: bool) -> bool {
    forall|i: int|
        0 <= i < ops.len() ==> if additive {
            #[trigger] ops[i] is Plus || ops[i] is Minus
        } else {
            ops[i] is Star || ops[i] is Slash
        }
}

/// The tokens of a quantifier group `q n0 , n1 , ... , nm :`.
pub open spec fn group_kinds(q: KindModel, names: Seq<Seq<char>>) -> Seq<KindModel> {
    seq![q] + arg_kinds(names) + seq![KindModel::Colon]
}

/// The variables named by a list of names.
pub open spec fn variables(names: Seq<Seq<char>>) -> Seq<Tree> {
    names.map_values(|a: Seq<char>| Tree::VariableForAll(a))
}

// ============================================================================
// The laws
// ============================================================================

/// `axiom name : p(a0, ..., an)` parses, with no error and the cursor on
/// EOF, into the predicate with every argument, in order.
pub proof fn law_predicate_keeps_all_arguments(
    ts: Seq<TokenModel>,
    name: Seq<char>,
    p: Seq<char>,
    names: Seq<Seq<char>>,
)
    requires
        names.len() >= 1,
        kinds(ts) == axiom_kinds(name, call_kinds(p, names)),
    ensures
        parse_tokens(ts, 0, Seq::empty()) == (
            Tree::Axiom(name, Box::new(Tree::Predicate(p, consts(names)))),
            (ts.len() - 1) as nat,
            Seq::<ErrorModel>::empty(),
        ),
{
    let m = names.len() as int;
    lemma_kinds_index(ts);
    lemma_arg_kinds(names);
    let ks = axiom_kinds(name, call_kinds(p, names));
    assert(ts.len() == 6 + 2 * m);
    assert forall|i: int| 0 <= i < m implies #[trigger] ts[5 + 2 * i].kind == KindModel::Ident(names[i]) by {
        assert(ks[5 + 2 * i] == arg_kinds(names)[2 * i]);
    }
    assert forall|i: int| 0 <= i < m - 1 implies #[trigger] ts[6 + 2 * i].kind == KindModel::Dot by {
        assert(ks[6 + 2 * i] == arg_kinds(names)[2 * i + 1]);
    }
    assert(ts[3].kind == ks[3]);
    assert(ts[4].kind == ks[4]);
    assert(ts[4 + 2 * m].kind == ks[4 + 2 * m]);
    assert(ts[5 + 2 * m].kind == ks[5 + 2 * m]);
    let st0 = PState { pos: 0, errors: Seq::empty(), vars: Map::empty() };
    let st3 = PState { pos: 3, ..st0 };
    lemma_literal_call(ts, st3, p, names);
    lemma_free_atoms(names);
    lemma_term_from_literal(ts, st3);
    lemma_fol_single(ts, st3);
    lemma_expression_axiom(ts, st0, name);
}

/// `axiom name : p(f(a0, ..., an))` parses, with no error and the cursor on
/// EOF, into `p` applied to the function `f` with every argument, in order.
pub proof fn law_function_keeps_all_arguments(
    ts: Seq<TokenModel>,
    name: Seq<char>,
    p: Seq<char>,
    f: Seq<char>,
    names: Seq<Seq<char>>,
)
    requires
        names.len() >= 1,
        kinds(ts) == axiom_kinds(
            name,
            seq![KindModel::Ident(p), KindModel::LParen] + call_kinds(f, names) + seq![KindModel::RParen],
        ),
    ensures
        parse_tokens(ts, 0, Seq::empty()) == (
            Tree::Axiom(name, Box::new(Tree::Predicate(p, seq![Tree::Function(f, consts(names))]))),
            (ts.len() - 1) as nat,
            Seq::<ErrorModel>::empty(),
        ),
{
    let m = names.len() as int;
    lemma_kinds_index(ts);
    lemma_arg_kinds(names);
    let body = seq![KindModel::Ident(p), KindModel::LParen] + call_kinds(f, names) + seq![KindModel::RParen];
    let ks = axiom_kinds(name, body);
    assert(ts.len() == 9 + 2 * m);
    assert forall|i: int| 0 <= i < m implies #[trigger] ts[7 + 2 * i].kind == KindModel::Ident(names[i]) by {
        assert(ks[7 + 2 * i] == arg_kinds(names)[2 * i]);
    }
    assert forall|i: int| 0 <= i < m - 1 implies #[trigger] ts[8 + 2 * i].kind == KindModel::Dot by {
        assert(ks[8 + 2 * i] == arg_kinds(names)[2 * i + 1]);
    }
    assert(ts[3].kind == ks[3]);
    assert(ts[4].kind == ks[4]);
    assert(ts[5].kind == ks[5]);
    assert(ts[6].kind == ks[6]);
    assert(ts[6 + 2 * m].kind == ks[6 + 2 * m]);
    assert(ts[7 + 2 * m].kind == ks[7 + 2 * m]);
    assert(ts[8 + 2 * m].kind == ks[8 + 2 * m]);
    let st0 = PState { pos: 0, errors: Seq::empty(), vars: Map::empty() };
    let st3 = PState { pos: 3, ..st0 };
    lemma_function_call(ts, PState { pos: 5, ..st0 }, f, names);
    lemma_free_atoms(names);
    lemma_literal_of_function(ts, st3, p, f, names);
    lemma_term_from_literal(ts, st3);
    lemma_fol_single(ts, st3);
    lemma_expression_axiom(ts, st0, name);
}

/// `axiom name : p0(x0) -> p1(x1) -> ... -> pn(xn)` parses, with no error
/// and the cursor on EOF, into the implications nested to the left: every
/// `->` is read and gives one `Impl`.
pub proof fn law_implications_nest_left(
    ts: Seq<TokenModel>,
    name: Seq<char>,
    ps: Seq<Seq<char>>,
    xs: Seq<Seq<char>>,
)
    requires
        ps.len() >= 1,
        ps.len() == xs.len(),
        kinds(ts) == axiom_kinds(name, chain_kinds(KindModel::Impl, ps, xs)),
    ensures
        parse_tokens(ts, 0, Seq::empty()) == (
            Tree::Axiom(name, Box::new(left_chain(KindModel::Impl, ps, xs))),
            (ts.len() - 1) as nat,
            Seq::<ErrorModel>::empty(),
        ),
{
    lemma_chain_axiom(KindModel::Impl, ts, name, ps, xs);
}

/// `axiom name : p0(x0) /\ p1(x1) /\ ... /\ pn(xn)` parses, with no error
/// and the cursor on EOF, into the conjunctions nested to the left: every
/// `/\` is read and gives one `And`.
pub proof fn law_conjunctions_nest_left(
    ts: Seq<TokenModel>,
    name: Seq<char>,
    ps: Seq<Seq<char>>,
    xs: Seq<Seq<char>>,
)
    requires
        ps.len() >= 1,
        ps.len() == xs.len(),
        kinds(ts) == axiom_kinds(name, chain_kinds(KindModel::And, ps, xs)),
    ensures
        parse_tokens(ts, 0, Seq::empty()) == (
            Tree::Axiom(name, Box::new(left_chain(KindModel::And, ps, xs))),
            (ts.len() - 1) as nat,
            Seq::<ErrorModel>::empty(),
        ),
{
    lemma_chain_axiom(KindModel::And, ts, name, ps, xs);
}

/// `axiom name : p0(x0) \/ p1(x1) \/ ... \/ pn(xn)` parses, with no error
/// and the cursor on EOF, into the disjunctions nested to the left: every
/// `\/` is read and gives one `Or`.
pub proof fn law_disjunctions_nest_left(
    ts: Seq<TokenModel>,
    name: Seq<char>,
    ps: Seq<Seq<char>>,
    xs: Seq<Seq<char>>,
)
    requires
        ps.len() >= 1,
        ps.len() == xs.len(),
        kinds(ts) == axiom_kinds(name, chain_kinds(KindModel::Or, ps, xs)),
    ensures
        parse_tokens(ts, 0, Seq::empty()) == (
            Tree::Axiom(name, Box::new(left_chain(KindModel::Or, ps, xs))),
            (ts.len() - 1) as nat,
            Seq::<ErrorModel>::empty(),
        ),
{
    lemma_chain_axiom(KindModel::Or, ts, name, ps, xs);
}

/// `axiom name : p(n0 op0 n1 ... nm)`, where the operators are all `+` and
/// `-` or all `*` and `/`, parses with no error and the cursor on EOF into
/// `p` applied to the operations nested to the left: every operator is read
/// and gives one operation.
pub proof fn law_operations_nest_left(
    ts: Seq<TokenModel>,
    name: Seq<char>,
    p: Seq<char>,
    ops: Seq<KindModel>,
    names: Seq<Seq<char>>,
    additive: bool,
)
    requires
        names.len() == ops.len() + 1,
        same_rank(ops, additive),
        kinds(ts) == axiom_kinds(
            name,
            seq![KindModel::Ident(p), KindModel::LParen] + arith_kinds(ops, names) + seq![KindModel::RParen],
        ),
    ensures
        parse_tokens(ts, 0, Seq::empty()) == (
            Tree::Axiom(name, Box::new(Tree::Predicate(p, seq![arith_chain(ops, names)]))),
            (ts.len() - 1) as nat,
            Seq::<ErrorModel>::empty(),
        ),
{
    let m = names.len() as int;
    lemma_kinds_index(ts);
    lemma_arith_kinds(ops, names);
    let body = seq![KindModel::Ident(p), KindModel::LParen] + arith_kinds(ops, names) + seq![KindModel::RParen];
    let ks = axiom_kinds(name, body);
    assert(ts.len() == 6 + 2 * m);
    assert forall|i: int| 0 <= i < m implies #[trigger] ts[5 + 2 * i].kind == KindModel::Ident(names[i]) by {
        assert(ks[5 + 2 * i] == arith_kinds(ops, names)[2 * i]);
    }
    assert forall|i: int| 0 <= i < m - 1 implies #[trigger] ts[6 + 2 * i].kind == ops[i] by {
        assert(ks[6 + 2 * i] == arith_kinds(ops, names)[2 * i + 1]);
    }
    assert(ts[3].kind == ks[3]);
    assert(ts[4].kind == ks[4]);
    assert(ts[4 + 2 * m].kind == ks[4 + 2 * m]);
    assert(ts[5 + 2 * m].kind == ks[5 + 2 * m]);
    let st0 = PState { pos: 0, errors: Seq::empty(), vars: Map::empty() };
    let st3 = PState { pos: 3, ..st0 };
    lemma_literal_of_operations(ts, st3, p, ops, names, additive);
    lemma_term_from_literal(ts, st3);
    lemma_fol_single(ts, st3);
    lemma_expression_axiom(ts, st0, name);
}

/// `axiom name : q n0, ..., nm : p(n0, ..., nm)`, for `q` either `forall`
/// or `exist`, parses with no error and the cursor on EOF into `p` applied
/// to the variables: every name of the group is bound (both quantifiers
/// give `VariableForAll`).
pub proof fn law_quantifier_binds_every_name(
    ts: Seq<TokenModel>,
    name: Seq<char>,
    q: KindModel,
    p: Seq<char>,
    names: Seq<Seq<char>>,
)
    requires
        q is ForAll || q is Exist,
        names.len() >= 1,
        kinds(ts) == axiom_kinds(name, group_kinds(q, names) + call_kinds(p, names)),
    ensures
        parse_tokens(ts, 0, Seq::empty()) == (
            Tree::Axiom(name, Box::new(Tree::Predicate(p, variables(names)))),
            (ts.len() - 1) as nat,
            Seq::<ErrorModel>::empty(),
        ),
{
    let m = names.len() as int;
    lemma_kinds_index(ts);
    lemma_arg_kinds(names);
    let ks = axiom_kinds(name, group_kinds(q, names) + call_kinds(p, names));
    assert(ts.len() == 7 + 4 * m);
    assert forall|i: int| 0 <= i < m implies #[trigger] ts[4 + 2 * i].kind == KindModel::Ident(names[i]) by {
        assert(ks[4 + 2 * i] == arg_kinds(names)[2 * i]);
    }
    assert forall|i: int| 0 <= i < m - 1 implies #[trigger] ts[5 + 2 * i].kind == KindModel::Dot by {
        assert(ks[5 + 2 * i] == arg_kinds(names)[2 * i + 1]);
    }
    let c = 4 + 2 * m;
    assert forall|i: int| 0 <= i < m implies #[trigger] ts[c + 2 + 2 * i].kind == KindModel::Ident(names[i]) by {
        assert(ks[c + 2 + 2 * i] == arg_kinds(names)[2 * i]);
    }
    assert forall|i: int| 0 <= i < m - 1 implies #[trigger] ts[c + 3 + 2 * i].kind == KindModel::Dot by {
        assert(ks[c + 3 + 2 * i] == arg_kinds(names)[2 * i + 1]);
    }
    assert(ts[0].kind == ks[0]);
    assert(ts[1].kind == ks[1]);
    assert(ts[2].kind == ks[2]);
    assert(ts[3].kind == ks[3]);
    assert(ts[3 + 2 * m].kind == ks[3 + 2 * m]);
    assert(ts[c].kind == ks[c]);
    assert(ts[c + 1].kind == ks[c + 1]);
    assert(ts[c + 2 * m + 1].kind == ks[c + 2 * m + 1]);
    assert(ts[c + 2 * m + 2].kind == ks[c + 2 * m + 2]);
    let st0 = PState { pos: 0, errors: Seq::empty(), vars: Map::empty() };
    let st3 = PState { pos: 3, ..st0 };
    lemma_group_then_literal(ts, st3, q, p, names);
    lemma_fol_single(ts, st3);
    lemma_expression_axiom(ts, st0, name);
}

// ============================================================================
// Their proofs
// ============================================================================

/// The kind of each token is its entry in `kinds`.
proof fn lemma_kinds_index(ts: Seq<TokenModel>)
    ensures
        kinds(ts).len() == ts.len(),
        forall|i: int| 0 <= i < ts.len() ==> #[trigger] ts[i].kind == kinds(ts)[i],
{
}

/// Where nothing is bound, names stand for constants.
proof fn lemma_free_atoms(names: Seq<Seq<char>>)
    ensures
        atoms(Map::empty(), names) == consts(names),
{
    assert(atoms(Map::empty(), names) =~= consts(names));
}

/// Where the names and commas of an argument list stand.
proof fn lemma_arg_kinds(names: Seq<Seq<char>>)
    requires
        names.len() >= 1,
    ensures
        arg_kinds(names).len() == 2 * names.len() - 1,
        forall|i: int| 0 <= i < names.len() ==> #[trigger] arg_kinds(names)[2 * i] == KindModel::Ident(names[i]),
        forall|i: int| 0 <= i < names.len() - 1 ==> #[trigger] arg_kinds(names)[2 * i + 1] == KindModel::Dot,
    decreases names.len(),
{
    if names.len() > 1 {
        let init = names.drop_last();
        lemma_arg_kinds(init);
        assert forall|i: int| 0 <= i < names.len() implies #[trigger] arg_kinds(names)[2 * i] == KindModel::Ident(
            names[i],
        ) by {
            if i < init.len() {
                assert(arg_kinds(init)[2 * i] == KindModel::Ident(init[i]));
            }
        }
        assert forall|i: int| 0 <= i < names.len() - 1 implies #[trigger] arg_kinds(names)[2 * i + 1]
            == KindModel::Dot by {
            if i < init.len() - 1 {
                assert(arg_kinds(init)[2 * i + 1] == KindModel::Dot);
            }
        }
    }
}

/// A name followed by a comma or a closing parenthesis is a constant
/// argument.
proof fn lemma_plain_arg(ts: Seq<TokenModel>, st: PState, a: Seq<char>)
    requires
        peek_kind(ts, st) == KindModel::Ident(a),
        peek(ts, st.pos + 1).kind is Dot || peek(ts, st.pos + 1).kind is RParen,
    ensures
        parse_arg(ts, st) == (atom(st.vars, a), advance(ts, st)),
{
    reveal_with_fuel(parse_quantors, 4);
    reveal_with_fuel(parse_level, 4);
    reveal_with_fuel(parse_term, 4);
    reveal_with_fuel(parse_term_or, 4);
    reveal_with_fuel(parse_literal, 4);
    reveal_with_fuel(arg_rest, 4);
    reveal_with_fuel(parse_arg, 4);
    reveal_with_fuel(parse_arith, 4);
    reveal_with_fuel(arith_rest, 4);
    reveal_with_fuel(parse_arith_term, 4);
    reveal_with_fuel(arith_term_rest, 4);
    reveal_with_fuel(parse_factor, 4);
    reveal_with_fuel(parse_fol, 4);
    reveal_with_fuel(fol_rest, 4);
    reveal_with_fuel(term_rest, 4);
    reveal_with_fuel(term_or_rest, 4);
}

/// The rest of an argument list whose names start at `b`: from the comma
/// before name `k` on, every name is added, and reading stops on the closing
/// parenthesis.
proof fn lemma_arg_list(ts: Seq<TokenModel>, st: PState, b: nat, names: Seq<Seq<char>>, k: nat)
    requires
        1 <= k <= names.len(),
        b + 2 * names.len() <= ts.len(),
        forall|i: int| 0 <= i < names.len() ==> #[trigger] ts[b + 2 * i].kind == KindModel::Ident(names[i]),
        forall|i: int| 0 <= i < names.len() - 1 ==> #[trigger] ts[b + 2 * i + 1].kind == KindModel::Dot,
        ts[b + 2 * names.len() - 1].kind == KindModel::RParen,
        st.pos == b + 2 * k - 1,
    ensures
        arg_rest(ts, atoms(st.vars, names.take(k as int)), st) == (
            atoms(st.vars, names),
            PState { pos: (b + 2 * names.len() - 1) as nat, ..st },
        ),
    decreases names.len() - k,
{
    reveal_with_fuel(parse_quantors, 2);
    reveal_with_fuel(parse_level, 2);
    reveal_with_fuel(parse_term, 2);
    reveal_with_fuel(parse_term_or, 2);
    reveal_with_fuel(parse_literal, 2);
    reveal_with_fuel(arg_rest, 2);
    reveal_with_fuel(parse_arg, 2);
    reveal_with_fuel(parse_arith, 2);
    reveal_with_fuel(arith_rest, 2);
    reveal_with_fuel(parse_arith_term, 2);
    reveal_with_fuel(arith_term_rest, 2);
    reveal_with_fuel(parse_factor, 2);
    reveal_with_fuel(parse_fol, 2);
    reveal_with_fuel(fol_rest, 2);
    reveal_with_fuel(term_rest, 2);
    reveal_with_fuel(term_or_rest, 2);
    let m = names.len() as int;
    if k < m {
        assert(ts[b + 2 * (k - 1) + 1].kind == KindModel::Dot);
        let st1 = advance(ts, st);
        assert(ts[(b + 2 * k) as int].kind == KindModel::Ident(names[k as int]));
        if k + 1 < m {
            assert(ts[(b + 2 * k + 1) as int].kind == KindModel::Dot);
        }
        lemma_plain_arg(ts, st1, names[k as int]);
        lemma_arg_list(ts, advance(ts, st1), b, names, k + 1);
        assert(atoms(st.vars, names.take(k as int)).push(atom(st.vars, names[k as int])) =~= atoms(
            st.vars,
            names.take((k + 1) as int),
        ));
    } else {
        assert(names.take(k as int) =~= names);
    }
}

/// `p ( a0 , ... , an )` at the cursor is read as a predicate with every
/// argument, up to just after the closing parenthesis.
proof fn lemma_literal_call(ts: Seq<TokenModel>, st: PState, p: Seq<char>, names: Seq<Seq<char>>)
    requires
        names.len() >= 1,
        st.pos + 2 * names.len() + 2 <= ts.len(),
        ts[st.pos as int].kind == KindModel::Ident(p),
        ts[(st.pos + 1) as int].kind == KindModel::LParen,
        forall|i: int| 0 <= i < names.len() ==> #[trigger] ts[st.pos + 2 + 2 * i].kind == KindModel::Ident(names[i]),
        forall|i: int| 0 <= i < names.len() - 1 ==> #[trigger] ts[st.pos + 3 + 2 * i].kind == KindModel::Dot,
        ts[(st.pos + 2 * names.len() + 1) as int].kind == KindModel::RParen,
    ensures
        parse_literal(ts, st) == (
            Tree::Predicate(p, atoms(st.vars, names)),
            PState { pos: st.pos + 2 * names.len() + 2, ..st },
        ),
{
    reveal_with_fuel(parse_quantors, 2);
    reveal_with_fuel(parse_level, 2);
    reveal_with_fuel(parse_term, 2);
    reveal_with_fuel(parse_term_or, 2);
    reveal_with_fuel(parse_literal, 2);
    reveal_with_fuel(arg_rest, 2);
    reveal_with_fuel(parse_arg, 2);
    reveal_with_fuel(parse_arith, 2);
    reveal_with_fuel(arith_rest, 2);
    reveal_with_fuel(parse_arith_term, 2);
    reveal_with_fuel(arith_term_rest, 2);
    reveal_with_fuel(parse_factor, 2);
    reveal_with_fuel(parse_fol, 2);
    reveal_with_fuel(fol_rest, 2);
    reveal_with_fuel(term_rest, 2);
    reveal_with_fuel(term_or_rest, 2);
    let m = names.len() as int;
    let b = st.pos + 2;
    let st1 = expect(ts, advance(ts, st), KindModel::LParen, true).1;
    assert(st1 == PState { pos: b, ..st });
    let i0: int = 0;
    assert(ts[st.pos + 2 + 2 * i0].kind == KindModel::Ident(names[0]));
    assert(ts[b + 2 * i0].kind == KindModel::Ident(names[0]));
    if m > 1 {
        assert(ts[st.pos + 3 + 2 * i0].kind == KindModel::Dot);
        assert(ts[b + 2 * i0 + 1].kind == KindModel::Dot);
    }
    lemma_plain_arg(ts, st1, names[0]);
    let st2 = advance(ts, st1);
    assert forall|i: int| 0 <= i < m implies #[trigger] ts[b + 2 * i].kind == KindModel::Ident(names[i]) by {
        assert(ts[st.pos + 2 + 2 * i].kind == KindModel::Ident(names[i]));
    }
    assert forall|i: int| 0 <= i < m - 1 implies #[trigger] ts[b + 2 * i + 1].kind == KindModel::Dot by {
        assert(ts[st.pos + 3 + 2 * i].kind == KindModel::Dot);
    }
    lemma_arg_list(ts, st2, b, names, 1);
    assert(atoms(st.vars, names.take(1)) =~= seq![atom(st.vars, names[0])]);
}

/// `f ( a0 , ... , an )` as an argument is read as a function with every
/// argument, up to just after its closing parenthesis.
proof fn lemma_function_call(ts: Seq<TokenModel>, st: PState, f: Seq<char>, names: Seq<Seq<char>>)
    requires
        names.len() >= 1,
        st.pos + 2 * names.len() + 2 <= ts.len(),
        ts[st.pos as int].kind == KindModel::Ident(f),
        ts[(st.pos + 1) as int].kind == KindModel::LParen,
        forall|i: int| 0 <= i < names.len() ==> #[trigger] ts[st.pos + 2 + 2 * i].kind == KindModel::Ident(names[i]),
        forall|i: int| 0 <= i < names.len() - 1 ==> #[trigger] ts[st.pos + 3 + 2 * i].kind == KindModel::Dot,
        ts[(st.pos + 2 * names.len() + 1) as int].kind == KindModel::RParen,
    ensures
        parse_arg(ts, st) == (
            Tree::Function(f, atoms(st.vars, names)),
            PState { pos: st.pos + 2 * names.len() + 2, ..st },
        ),
{
    reveal_with_fuel(parse_quantors, 2);
    reveal_with_fuel(parse_level, 2);
    reveal_with_fuel(parse_term, 2);
    reveal_with_fuel(parse_term_or, 2);
    reveal_with_fuel(parse_literal, 2);
    reveal_with_fuel(arg_rest, 2);
    reveal_with_fuel(parse_arg, 2);
    reveal_with_fuel(parse_arith, 2);
    reveal_with_fuel(arith_rest, 2);
    reveal_with_fuel(parse_arith_term, 2);
    reveal_with_fuel(arith_term_rest, 2);
    reveal_with_fuel(parse_factor, 2);
    reveal_with_fuel(parse_fol, 2);
    reveal_with_fuel(fol_rest, 2);
    reveal_with_fuel(term_rest, 2);
    reveal_with_fuel(term_or_rest, 2);
    let m = names.len() as int;
    let b = st.pos + 2;
    let st1 = advance(ts, advance(ts, st));
    assert(st1 == PState { pos: b, ..st });
    let i0: int = 0;
    assert(ts[st.pos + 2 + 2 * i0].kind == KindModel::Ident(names[0]));
    assert(ts[b + 2 * i0].kind == KindModel::Ident(names[0]));
    if m > 1 {
        assert(ts[st.pos + 3 + 2 * i0].kind == KindModel::Dot);
        assert(ts[b + 2 * i0 + 1].kind == KindModel::Dot);
    }
    lemma_plain_arg(ts, st1, names[0]);
    let st2 = advance(ts, st1);
    assert forall|i: int| 0 <= i < m implies #[trigger] ts[b + 2 * i].kind == KindModel::Ident(names[i]) by {
        assert(ts[st.pos + 2 + 2 * i].kind == KindModel::Ident(names[i]));
    }
    assert forall|i: int| 0 <= i < m - 1 implies #[trigger] ts[b + 2 * i + 1].kind == KindModel::Dot by {
        assert(ts[st.pos + 3 + 2 * i].kind == KindModel::Dot);
    }
    lemma_arg_list(ts, st2, b, names, 1);
    assert(atoms(st.vars, names.take(1)) =~= seq![atom(st.vars, names[0])]);
}

/// `p ( f ( a0 , ... , an ) )` at the cursor is read as `p` applied to the
/// function.
proof fn lemma_literal_of_function(
    ts: Seq<TokenModel>,
    st: PState,
    p: Seq<char>,
    f: Seq<char>,
    names: Seq<Seq<char>>,
)
    requires
        names.len() >= 1,
        st.pos + 2 * names.len() + 5 <= ts.len(),
        ts[st.pos as int].kind == KindModel::Ident(p),
        ts[(st.pos + 1) as int].kind == KindModel::LParen,
        ts[(st.pos + 2) as int].kind == KindModel::Ident(f),
        ts[(st.pos + 3) as int].kind == KindModel::LParen,
        ts[(st.pos + 2 * names.len() + 4) as int].kind == KindModel::RParen,
        parse_arg(ts, PState { pos: st.pos + 2, ..st }) == (
            Tree::Function(f, consts(names)),
            PState { pos: st.pos + 2 * names.len() + 4, ..st },
        ),
    ensures
        parse_literal(ts, st) == (
            Tree::Predicate(p, seq![Tree::Function(f, consts(names))]),
            PState { pos: st.pos + 2 * names.len() + 5, ..st },
        ),
{
    reveal_with_fuel(parse_quantors, 2);
    reveal_with_fuel(parse_level, 2);
    reveal_with_fuel(parse_term, 2);
    reveal_with_fuel(parse_term_or, 2);
    reveal_with_fuel(parse_literal, 2);
    reveal_with_fuel(arg_rest, 2);
    reveal_with_fuel(parse_arg, 2);
    reveal_with_fuel(parse_arith, 2);
    reveal_with_fuel(arith_rest, 2);
    reveal_with_fuel(parse_arith_term, 2);
    reveal_with_fuel(arith_term_rest, 2);
    reveal_with_fuel(parse_factor, 2);
    reveal_with_fuel(parse_fol, 2);
    reveal_with_fuel(fol_rest, 2);
    reveal_with_fuel(term_rest, 2);
    reveal_with_fuel(term_or_rest, 2);
    let st1 = expect(ts, advance(ts, st), KindModel::LParen, true).1;
    assert(st1 == PState { pos: st.pos + 2, ..st });
}

/// The literal level reads a literal.
proof fn lemma_level_literal(ts: Seq<TokenModel>, st: PState)
    ensures
        parse_level(ts, st, Level::Literal) == parse_literal(ts, st),
{
    reveal_with_fuel(parse_quantors, 2);
    reveal_with_fuel(parse_level, 2);
    reveal_with_fuel(parse_term, 2);
    reveal_with_fuel(parse_term_or, 2);
    reveal_with_fuel(parse_literal, 2);
    reveal_with_fuel(arg_rest, 2);
    reveal_with_fuel(parse_arg, 2);
    reveal_with_fuel(parse_arith, 2);
    reveal_with_fuel(arith_rest, 2);
    reveal_with_fuel(parse_arith_term, 2);
    reveal_with_fuel(arith_term_rest, 2);
    reveal_with_fuel(parse_factor, 2);
    reveal_with_fuel(parse_fol, 2);
    reveal_with_fuel(fol_rest, 2);
    reveal_with_fuel(term_rest, 2);
    reveal_with_fuel(term_or_rest, 2);
}

/// A literal at the cursor that is followed by neither `\/` nor `/\` is
/// what the quantifier-free formula level reads there.
proof fn lemma_term_from_literal(ts: Seq<TokenModel>, st: PState)
    requires
        peek_kind(ts, st) is Ident,
        parse_literal(ts, st).1.pos >= st.pos,
        !(peek_kind(ts, parse_literal(ts, st).1) is Or),
        !(peek_kind(ts, parse_literal(ts, st).1) is And),
    ensures
        parse_quantors(ts, st, Level::Term) == parse_literal(ts, st),
{
    reveal_with_fuel(parse_quantors, 4);
    reveal_with_fuel(parse_level, 4);
    reveal_with_fuel(parse_term, 4);
    reveal_with_fuel(parse_term_or, 4);
    reveal_with_fuel(parse_literal, 4);
    reveal_with_fuel(arg_rest, 4);
    reveal_with_fuel(parse_arg, 4);
    reveal_with_fuel(parse_arith, 4);
    reveal_with_fuel(arith_rest, 4);
    reveal_with_fuel(parse_arith_term, 4);
    reveal_with_fuel(arith_term_rest, 4);
    reveal_with_fuel(parse_factor, 4);
    reveal_with_fuel(parse_fol, 4);
    reveal_with_fuel(fol_rest, 4);
    reveal_with_fuel(term_rest, 4);
    reveal_with_fuel(term_or_rest, 4);
    lemma_level_literal(ts, st);
    assert(!(peek_kind(ts, st) is ForAll) && !(peek_kind(ts, st) is Exist));
    assert(parse_quantors(ts, st, Level::Literal) == parse_literal(ts, st));
    assert(parse_quantors(ts, st, Level::TermOr) == parse_literal(ts, st));
}

/// A formula that is one literal not followed by `->` is that literal.
proof fn lemma_fol_single(ts: Seq<TokenModel>, st: PState)
    requires
        parse_quantors(ts, st, Level::Term).1.pos >= st.pos,
        !(peek_kind(ts, parse_quantors(ts, st, Level::Term).1) is Impl),
    ensures
        parse_fol(ts, st) == parse_quantors(ts, st, Level::Term),
{
    reveal_with_fuel(parse_quantors, 2);
    reveal_with_fuel(parse_level, 2);
    reveal_with_fuel(parse_term, 2);
    reveal_with_fuel(parse_term_or, 2);
    reveal_with_fuel(parse_literal, 2);
    reveal_with_fuel(arg_rest, 2);
    reveal_with_fuel(parse_arg, 2);
    reveal_with_fuel(parse_arith, 2);
    reveal_with_fuel(arith_rest, 2);
    reveal_with_fuel(parse_arith_term, 2);
    reveal_with_fuel(arith_term_rest, 2);
    reveal_with_fuel(parse_factor, 2);
    reveal_with_fuel(parse_fol, 2);
    reveal_with_fuel(fol_rest, 2);
    reveal_with_fuel(term_rest, 2);
    reveal_with_fuel(term_or_rest, 2);
}

/// `axiom name :` then a formula, with EOF after it: the axiom with that
/// formula, no error, and the cursor on EOF.
proof fn lemma_expression_axiom(ts: Seq<TokenModel>, st0: PState, name: Seq<char>)
    requires
        st0 == (PState { pos: 0, errors: Seq::empty(), vars: Map::empty() }),
        ts.len() > 3,
        ts[0].kind == KindModel::Axiom,
        ts[1].kind == KindModel::Ident(name),
        ts[2].kind == KindModel::Colon,
        parse_fol(ts, PState { pos: 3, ..st0 }).1.pos == ts.len() - 1,
        parse_fol(ts, PState { pos: 3, ..st0 }).1.errors == Seq::<ErrorModel>::empty(),
        ts[ts.len() - 1].kind == KindModel::EOF,
    ensures
        parse_tokens(ts, 0, Seq::empty()) == (
            Tree::Axiom(name, Box::new(parse_fol(ts, PState { pos: 3, ..st0 }).0)),
            (ts.len() - 1) as nat,
            Seq::<ErrorModel>::empty(),
        ),
{
    reveal(parse_expression);
    let st2 = expect(ts, advance(ts, advance(ts, st0)), KindModel::Colon, true).1;
    assert(st2 == PState { pos: 3, ..st0 });
    assert(PState { vars: Map::empty(), ..st2 } == st2);
}

/// Where the tokens of a chain stand.
proof fn lemma_chain_kinds(op: KindModel, ps: Seq<Seq<char>>, xs: Seq<Seq<char>>)
    requires
        ps.len() >= 1,
        ps.len() == xs.len(),
    ensures
        chain_kinds(op, ps, xs).len() == 5 * ps.len() - 1,
        forall|i: int| 0 <= i < ps.len() ==> {
            &&& #[trigger] chain_kinds(op, ps, xs)[5 * i] == KindModel::Ident(ps[i])
            &&& chain_kinds(op, ps, xs)[5 * i + 1] == KindModel::LParen
            &&& chain_kinds(op, ps, xs)[5 * i + 2] == KindModel::Ident(xs[i])
            &&& chain_kinds(op, ps, xs)[5 * i + 3] == KindModel::RParen
        },
        forall|i: int| 0 <= i < ps.len() - 1 ==> #[trigger] chain_kinds(op, ps, xs)[5 * i + 4] == op,
    decreases ps.len(),
{
    lemma_arg_kinds(seq![xs[ps.len() - 1]]);
    if ps.len() > 1 {
        let ip = ps.drop_last();
        let ix = xs.drop_last();
        lemma_chain_kinds(op, ip, ix);
        let c = chain_kinds(op, ps, xs);
        assert forall|i: int| 0 <= i < ps.len() implies {
            &&& #[trigger] c[5 * i] == KindModel::Ident(ps[i])
            &&& c[5 * i + 1] == KindModel::LParen
            &&& c[5 * i + 2] == KindModel::Ident(xs[i])
            &&& c[5 * i + 3] == KindModel::RParen
        } by {
            if i < ip.len() {
                assert(chain_kinds(op, ip, ix)[5 * i] == KindModel::Ident(ip[i]));
            }
        }
        assert forall|i: int| 0 <= i < ps.len() - 1 implies #[trigger] c[5 * i + 4] == op by {
            if i < ip.len() - 1 {
                assert(chain_kinds(op, ip, ix)[5 * i + 4] == op);
            }
        }
    }
}

/// What the parser reads for one side of a connective.
pub open spec fn operand(op: KindModel, ts: Seq<TokenModel>, st: PState) -> (Tree, PState) {
    match op {
        KindModel::And => parse_quantors(ts, st, Level::TermOr),
        KindModel::Or => parse_quantors(ts, st, Level::Literal),
        _ => parse_quantors(ts, st, Level::Term),
    }
}

/// What the parser reads after the first side of a connective.
pub open spec fn rest_of(op: KindModel, ts: Seq<TokenModel>, left: Tree, st: PState) -> (Tree, PState) {
    match op {
        KindModel::And => term_rest(ts, left, st),
        KindModel::Or => term_or_rest(ts, left, st),
        _ => fol_rest(ts, left, st),
    }
}

/// Below a name, every level of formula starts with the literal, and each
/// level above goes on with its own connective.
proof fn lemma_levels_at_name(ts: Seq<TokenModel>, st: PState)
    requires
        peek_kind(ts, st) is Ident,
    ensures
        parse_quantors(ts, st, Level::Literal) == parse_literal(ts, st),
        parse_quantors(ts, st, Level::TermOr) == (if parse_quantors(ts, st, Level::Literal).1.pos >= st.pos {
            term_or_rest(ts, parse_quantors(ts, st, Level::Literal).0, parse_quantors(ts, st, Level::Literal).1)
        } else {
            parse_quantors(ts, st, Level::Literal)
        }),
        parse_quantors(ts, st, Level::Term) == (if parse_quantors(ts, st, Level::TermOr).1.pos >= st.pos {
            term_rest(ts, parse_quantors(ts, st, Level::TermOr).0, parse_quantors(ts, st, Level::TermOr).1)
        } else {
            parse_quantors(ts, st, Level::TermOr)
        }),
{
    reveal_with_fuel(parse_quantors, 2);
    reveal_with_fuel(parse_level, 2);
    reveal_with_fuel(parse_term, 2);
    reveal_with_fuel(parse_term_or, 2);
    reveal_with_fuel(parse_literal, 2);
    reveal_with_fuel(arg_rest, 2);
    reveal_with_fuel(parse_arg, 2);
    reveal_with_fuel(parse_arith, 2);
    reveal_with_fuel(arith_rest, 2);
    reveal_with_fuel(parse_arith_term, 2);
    reveal_with_fuel(arith_term_rest, 2);
    reveal_with_fuel(parse_factor, 2);
    reveal_with_fuel(parse_fol, 2);
    reveal_with_fuel(fol_rest, 2);
    reveal_with_fuel(term_rest, 2);
    reveal_with_fuel(term_or_rest, 2);
    lemma_level_literal(ts, st);
    assert(parse_quantors(ts, st, Level::TermOr) == parse_level(ts, st, Level::TermOr));
    assert(parse_level(ts, st, Level::TermOr) == parse_term_or(ts, st));
    assert(parse_quantors(ts, st, Level::Term) == parse_level(ts, st, Level::Term));
    assert(parse_level(ts, st, Level::Term) == parse_term(ts, st));
}

/// At EOF, no level goes on.
proof fn lemma_rests_at_eof(ts: Seq<TokenModel>, left: Tree, st: PState)
    requires
        peek_kind(ts, st) is EOF,
    ensures
        fol_rest(ts, left, st) == (left, st),
        term_rest(ts, left, st) == (left, st),
        term_or_rest(ts, left, st) == (left, st),
{
    reveal_with_fuel(parse_quantors, 2);
    reveal_with_fuel(parse_level, 2);
    reveal_with_fuel(parse_term, 2);
    reveal_with_fuel(parse_term_or, 2);
    reveal_with_fuel(parse_literal, 2);
    reveal_with_fuel(arg_rest, 2);
    reveal_with_fuel(parse_arg, 2);
    reveal_with_fuel(parse_arith, 2);
    reveal_with_fuel(arith_rest, 2);
    reveal_with_fuel(parse_arith_term, 2);
    reveal_with_fuel(arith_term_rest, 2);
    reveal_with_fuel(parse_factor, 2);
    reveal_with_fuel(parse_fol, 2);
    reveal_with_fuel(fol_rest, 2);
    reveal_with_fuel(term_rest, 2);
    reveal_with_fuel(term_or_rest, 2);
}

/// The literal `pk(xk)` of a chain, read as one side of its connective.
proof fn lemma_chain_literal(
    op: KindModel,
    ts: Seq<TokenModel>,
    ps: Seq<Seq<char>>,
    xs: Seq<Seq<char>>,
    st: PState,
    k: int,
)
    requires
        connective(op),
        0 <= k < ps.len(),
        ps.len() == xs.len(),
        ts.len() == 3 + 5 * ps.len(),
        forall|i: int| 0 <= i < ps.len() ==> {
            &&& #[trigger] ts[3 + 5 * i].kind == KindModel::Ident(ps[i])
            &&& ts[4 + 5 * i].kind == KindModel::LParen
            &&& ts[5 + 5 * i].kind == KindModel::Ident(xs[i])
            &&& ts[6 + 5 * i].kind == KindModel::RParen
        },
        forall|i: int| 0 <= i < ps.len() - 1 ==> #[trigger] ts[7 + 5 * i].kind == op,
        ts[2 + 5 * ps.len() as int].kind == KindModel::EOF,
        st.vars == Map::<Seq<char>, bool>::empty(),
        st.pos == 3 + 5 * k,
    ensures
        operand(op, ts, st) == (unary(ps[k], xs[k]), PState { pos: st.pos + 4, ..st }),
{
    assert(ts[3 + 5 * k].kind == KindModel::Ident(ps[k]));
    let names = seq![xs[k]];
    let i0: int = 0;
    assert(ts[st.pos + 2 + 2 * i0].kind == KindModel::Ident(names[0]));
    lemma_literal_call(ts, st, ps[k], names);
    assert(atoms(st.vars, names) =~= seq![Tree::Const(xs[k])]);
    let after = PState { pos: st.pos + 4, ..st };
    if k < ps.len() - 1 {
        assert(ts[7 + 5 * k].kind == op);
    }
    lemma_levels_at_name(ts, st);
    lemma_term_or_rest_stops(ts, unary(ps[k], xs[k]), after);
    lemma_term_rest_stops(ts, unary(ps[k], xs[k]), after);
}

/// `term_or_rest` stops on anything but `\/`.
proof fn lemma_term_or_rest_stops(ts: Seq<TokenModel>, left: Tree, st: PState)
    ensures
        !(peek_kind(ts, st) is Or) ==> term_or_rest(ts, left, st) == (left, st),
{
    reveal_with_fuel(term_or_rest, 1);
}

/// `term_rest` stops on anything but `/\`.
proof fn lemma_term_rest_stops(ts: Seq<TokenModel>, left: Tree, st: PState)
    ensures
        !(peek_kind(ts, st) is And) ==> term_rest(ts, left, st) == (left, st),
{
    reveal_with_fuel(term_rest, 1);
}

/// After the first `k` literals of a chain, the rest adds one node for each
/// connective left, and stops on EOF.
proof fn lemma_chain_rest(
    op: KindModel,
    ts: Seq<TokenModel>,
    ps: Seq<Seq<char>>,
    xs: Seq<Seq<char>>,
    st: PState,
    k: int,
)
    requires
        connective(op),
        1 <= k <= ps.len(),
        ps.len() == xs.len(),
        ts.len() == 3 + 5 * ps.len(),
        forall|i: int| 0 <= i < ps.len() ==> {
            &&& #[trigger] ts[3 + 5 * i].kind == KindModel::Ident(ps[i])
            &&& ts[4 + 5 * i].kind == KindModel::LParen
            &&& ts[5 + 5 * i].kind == KindModel::Ident(xs[i])
            &&& ts[6 + 5 * i].kind == KindModel::RParen
        },
        forall|i: int| 0 <= i < ps.len() - 1 ==> #[trigger] ts[7 + 5 * i].kind == op,
        ts[2 + 5 * ps.len() as int].kind == KindModel::EOF,
        st.vars == Map::<Seq<char>, bool>::empty(),
        st.pos == 2 + 5 * k,
    ensures
        rest_of(op, ts, left_chain(op, ps.take(k), xs.take(k)), st) == (
            left_chain(op, ps, xs),
            PState { pos: (2 + 5 * ps.len()) as nat, ..st },
        ),
    decreases ps.len() - k,
{
    reveal_with_fuel(parse_quantors, 2);
    reveal_with_fuel(parse_level, 2);
    reveal_with_fuel(parse_term, 2);
    reveal_with_fuel(parse_term_or, 2);
    reveal_with_fuel(parse_literal, 2);
    reveal_with_fuel(arg_rest, 2);
    reveal_with_fuel(parse_arg, 2);
    reveal_with_fuel(parse_arith, 2);
    reveal_with_fuel(arith_rest, 2);
    reveal_with_fuel(parse_arith_term, 2);
    reveal_with_fuel(arith_term_rest, 2);
    reveal_with_fuel(parse_factor, 2);
    reveal_with_fuel(parse_fol, 2);
    reveal_with_fuel(fol_rest, 2);
    reveal_with_fuel(term_rest, 2);
    reveal_with_fuel(term_or_rest, 2);
    let left = left_chain(op, ps.take(k), xs.take(k));
    if k < ps.len() {
        assert(ts[7 + 5 * (k - 1)].kind == op);
        let st1 = advance(ts, st);
        lemma_chain_literal(op, ts, ps, xs, st1, k);
        let st2 = PState { pos: st1.pos + 4, ..st1 };
        lemma_chain_rest(op, ts, ps, xs, st2, k + 1);
        assert(ps.take(k + 1).drop_last() =~= ps.take(k));
        assert(xs.take(k + 1).drop_last() =~= xs.take(k));
        assert(left_chain(op, ps.take(k + 1), xs.take(k + 1)) == join(op, left, unary(ps[k], xs[k])));
    } else {
        assert(ps.take(k) =~= ps);
        assert(xs.take(k) =~= xs);
        lemma_rests_at_eof(ts, left, st);
    }
}

/// A chain after `axiom name :`, read as the axiom's formula.
proof fn lemma_chain_axiom(
    op: KindModel,
    ts: Seq<TokenModel>,
    name: Seq<char>,
    ps: Seq<Seq<char>>,
    xs: Seq<Seq<char>>,
)
    requires
        connective(op),
        ps.len() >= 1,
        ps.len() == xs.len(),
        kinds(ts) == axiom_kinds(name, chain_kinds(op, ps, xs)),
    ensures
        parse_tokens(ts, 0, Seq::empty()) == (
            Tree::Axiom(name, Box::new(left_chain(op, ps, xs))),
            (ts.len() - 1) as nat,
            Seq::<ErrorModel>::empty(),
        ),
{
    let n = ps.len() as int;
    lemma_kinds_index(ts);
    lemma_chain_kinds(op, ps, xs);
    let ks = axiom_kinds(name, chain_kinds(op, ps, xs));
    assert(ts.len() == 3 + 5 * n);
    assert forall|i: int| 0 <= i < n implies {
        &&& #[trigger] ts[3 + 5 * i].kind == KindModel::Ident(ps[i])
        &&& ts[4 + 5 * i].kind == KindModel::LParen
        &&& ts[5 + 5 * i].kind == KindModel::Ident(xs[i])
        &&& ts[6 + 5 * i].kind == KindModel::RParen
    } by {
        assert(ks[3 + 5 * i] == chain_kinds(op, ps, xs)[5 * i]);
        assert(ks[4 + 5 * i] == chain_kinds(op, ps, xs)[5 * i + 1]);
        assert(ks[5 + 5 * i] == chain_kinds(op, ps, xs)[5 * i + 2]);
        assert(ks[6 + 5 * i] == chain_kinds(op, ps, xs)[5 * i + 3]);
    }
    assert forall|i: int| 0 <= i < n - 1 implies #[trigger] ts[7 + 5 * i].kind == op by {
        assert(ks[7 + 5 * i] == chain_kinds(op, ps, xs)[5 * i + 4]);
    }
    assert(ts[2 + 5 * n].kind == ks[2 + 5 * n]);
    assert(ts[0].kind == ks[0]);
    assert(ts[1].kind == ks[1]);
    assert(ts[2].kind == ks[2]);
    let st0 = PState { pos: 0, errors: Seq::empty(), vars: Map::empty() };
    let st3 = PState { pos: 3, ..st0 };
    let st7 = PState { pos: 7, ..st0 };
    let e = PState { pos: (2 + 5 * n) as nat, ..st0 };
    let chain = left_chain(op, ps, xs);
    lemma_chain_literal(op, ts, ps, xs, st3, 0);
    lemma_chain_rest(op, ts, ps, xs, st7, 1);
    assert(ps.take(1) =~= seq![ps[0]]);
    assert(xs.take(1) =~= seq![xs[0]]);
    let i0: int = 0;
    assert(ts[3 + 5 * i0].kind == KindModel::Ident(ps[0]));
    lemma_levels_at_name(ts, st3);
    lemma_rests_at_eof(ts, chain, e);
    lemma_fol_chain(ts, st3);
    assert(parse_fol(ts, st3) == (chain, e));
    lemma_expression_axiom(ts, st0, name);
}

/// A formula is its first side followed by the rest of `->`.
proof fn lemma_fol_chain(ts: Seq<TokenModel>, st: PState)
    requires
        parse_quantors(ts, st, Level::Term).1.pos >= st.pos,
    ensures
        parse_fol(ts, st) == fol_rest(ts, parse_quantors(ts, st, Level::Term).0, parse_quantors(ts, st, Level::Term).1),
{
    reveal_with_fuel(parse_quantors, 2);
    reveal_with_fuel(parse_level, 2);
    reveal_with_fuel(parse_term, 2);
    reveal_with_fuel(parse_term_or, 2);
    reveal_with_fuel(parse_literal, 2);
    reveal_with_fuel(arg_rest, 2);
    reveal_with_fuel(parse_arg, 2);
    reveal_with_fuel(parse_arith, 2);
    reveal_with_fuel(arith_rest, 2);
    reveal_with_fuel(parse_arith_term, 2);
    reveal_with_fuel(arith_term_rest, 2);
    reveal_with_fuel(parse_factor, 2);
    reveal_with_fuel(parse_fol, 2);
    reveal_with_fuel(fol_rest, 2);
    reveal_with_fuel(term_rest, 2);
    reveal_with_fuel(term_or_rest, 2);
}

/// Where the names and operators of an operation chain stand.
proof fn lemma_arith_kinds(ops: Seq<KindModel>, names: Seq<Seq<char>>)
    requires
        names.len() == ops.len() + 1,
    ensures
        arith_kinds(ops, names).len() == 2 * names.len() - 1,
        forall|i: int| 0 <= i < names.len() ==> #[trigger] arith_kinds(ops, names)[2 * i] == KindModel::Ident(names[i]),
        forall|i: int| 0 <= i < ops.len() ==> #[trigger] arith_kinds(ops, names)[2 * i + 1] == ops[i],
    decreases ops.len(),
{
    if ops.len() > 0 {
        let io = ops.drop_last();
        let iname = names.drop_last();
        lemma_arith_kinds(io, iname);
        let c = arith_kinds(ops, names);
        assert forall|i: int| 0 <= i < names.len() implies #[trigger] c[2 * i] == KindModel::Ident(names[i]) by {
            if i < iname.len() {
                assert(arith_kinds(io, iname)[2 * i] == KindModel::Ident(iname[i]));
            }
        }
        assert forall|i: int| 0 <= i < ops.len() implies #[trigger] c[2 * i + 1] == ops[i] by {
            if i < io.len() {
                assert(arith_kinds(io, iname)[2 * i + 1] == io[i]);
            }
        }
    }
}

/// A name is a constant factor.
proof fn lemma_factor_name(ts: Seq<TokenModel>, st: PState, a: Seq<char>)
    requires
        peek_kind(ts, st) == KindModel::Ident(a),
        !st.vars.contains_key(a),
    ensures
        parse_factor(ts, st) == (Tree::Const(a), advance(ts, st)),
{
    reveal_with_fuel(parse_quantors, 2);
    reveal_with_fuel(parse_level, 2);
    reveal_with_fuel(parse_term, 2);
    reveal_with_fuel(parse_term_or, 2);
    reveal_with_fuel(parse_literal, 2);
    reveal_with_fuel(arg_rest, 2);
    reveal_with_fuel(parse_arg, 2);
    reveal_with_fuel(parse_arith, 2);
    reveal_with_fuel(arith_rest, 2);
    reveal_with_fuel(parse_arith_term, 2);
    reveal_with_fuel(arith_term_rest, 2);
    reveal_with_fuel(parse_factor, 2);
    reveal_with_fuel(parse_fol, 2);
    reveal_with_fuel(fol_rest, 2);
    reveal_with_fuel(term_rest, 2);
    reveal_with_fuel(term_or_rest, 2);
}

/// A name followed by no `*` or `/` is a constant term.
proof fn lemma_term_name(ts: Seq<TokenModel>, st: PState, a: Seq<char>)
    requires
        peek_kind(ts, st) == KindModel::Ident(a),
        !st.vars.contains_key(a),
        !(peek(ts, st.pos + 1).kind is Star),
        !(peek(ts, st.pos + 1).kind is Slash),
    ensures
        parse_arith_term(ts, st) == (Tree::Const(a), advance(ts, st)),
{
    reveal_with_fuel(parse_quantors, 2);
    reveal_with_fuel(parse_level, 2);
    reveal_with_fuel(parse_term, 2);
    reveal_with_fuel(parse_term_or, 2);
    reveal_with_fuel(parse_literal, 2);
    reveal_with_fuel(arg_rest, 2);
    reveal_with_fuel(parse_arg, 2);
    reveal_with_fuel(parse_arith, 2);
    reveal_with_fuel(arith_rest, 2);
    reveal_with_fuel(parse_arith_term, 2);
    reveal_with_fuel(arith_term_rest, 2);
    reveal_with_fuel(parse_factor, 2);
    reveal_with_fuel(parse_fol, 2);
    reveal_with_fuel(fol_rest, 2);
    reveal_with_fuel(term_rest, 2);
    reveal_with_fuel(term_or_rest, 2);
    lemma_factor_name(ts, st, a);
}

/// What the parser reads for one side of an arithmetic operator.
pub open spec fn arith_operand(additive: bool, ts: Seq<TokenModel>, st: PState) -> (Tree, PState) {
    if additive {
        parse_arith_term(ts, st)
    } else {
        parse_factor(ts, st)
    }
}

/// What the parser reads after the first side of an arithmetic operator.
pub open spec fn arith_rest_of(additive: bool, ts: Seq<TokenModel>, left: Tree, st: PState) -> (Tree, PState) {
    if additive {
        arith_rest(ts, left, st)
    } else {
        arith_term_rest(ts, left, st)
    }
}

/// After the first `k` names of an operation chain whose names start at
/// `b`, the rest adds one operation for each operator left, and stops on the
/// closing parenthesis.
proof fn lemma_arith_chain_rest(
    ts: Seq<TokenModel>,
    st: PState,
    b: int,
    ops: Seq<KindModel>,
    names: Seq<Seq<char>>,
    additive: bool,
    k: int,
)
    requires
        names.len() == ops.len() + 1,
        same_rank(ops, additive),
        1 <= k <= names.len(),
        0 <= b,
        b + 2 * names.len() <= ts.len(),
        forall|i: int| 0 <= i < names.len() ==> #[trigger] ts[b + 2 * i].kind == KindModel::Ident(names[i]),
        forall|i: int| 0 <= i < ops.len() ==> #[trigger] ts[b + 2 * i + 1].kind == ops[i],
        ts[b + 2 * names.len() - 1].kind == KindModel::RParen,
        st.vars == Map::<Seq<char>, bool>::empty(),
        st.pos == b + 2 * k - 1,
    ensures
        arith_rest_of(
            additive,
            ts,
            arith_chain(ops.take(k - 1), names.take(k)),
            st,
        ) == (arith_chain(ops, names), PState { pos: (b + 2 * names.len() - 1) as nat, ..st }),
    decreases names.len() - k,
{
    reveal_with_fuel(parse_quantors, 2);
    reveal_with_fuel(parse_level, 2);
    reveal_with_fuel(parse_term, 2);
    reveal_with_fuel(parse_term_or, 2);
    reveal_with_fuel(parse_literal, 2);
    reveal_with_fuel(arg_rest, 2);
    reveal_with_fuel(parse_arg, 2);
    reveal_with_fuel(parse_arith, 2);
    reveal_with_fuel(arith_rest, 2);
    reveal_with_fuel(parse_arith_term, 2);
    reveal_with_fuel(arith_term_rest, 2);
    reveal_with_fuel(parse_factor, 2);
    reveal_with_fuel(parse_fol, 2);
    reveal_with_fuel(fol_rest, 2);
    reveal_with_fuel(term_rest, 2);
    reveal_with_fuel(term_or_rest, 2);
    let left = arith_chain(ops.take(k - 1), names.take(k));
    if k < names.len() {
        let op = ops[k - 1];
        assert(ts[b + 2 * (k - 1) + 1].kind == op);
        let st1 = advance(ts, st);
        assert(ts[b + 2 * k].kind == KindModel::Ident(names[k]));
        if k < ops.len() {
            assert(ts[b + 2 * k + 1].kind == ops[k]);
        }
        if additive {
            lemma_term_name(ts, st1, names[k]);
        } else {
            lemma_factor_name(ts, st1, names[k]);
        }
        lemma_arith_chain_rest(ts, advance(ts, st1), b, ops, names, additive, k + 1);
        assert(ops.take(k).drop_last() =~= ops.take(k - 1));
        assert(names.take(k + 1).drop_last() =~= names.take(k));
        assert(ops.take(k).last() == op);
        assert(arith_chain(ops.take(k), names.take(k + 1)) == Tree::Function(
            op_symbol(op),
            seq![left, Tree::Const(names[k])],
        ));
    } else {
        assert(ops.take(k - 1) =~= ops);
        assert(names.take(k) =~= names);
    }
}

/// `p ( n0 op0 ... nm )` at the cursor is read as `p` applied to the
/// operation chain.
proof fn lemma_literal_of_operations(
    ts: Seq<TokenModel>,
    st: PState,
    p: Seq<char>,
    ops: Seq<KindModel>,
    names: Seq<Seq<char>>,
    additive: bool,
)
    requires
        names.len() == ops.len() + 1,
        same_rank(ops, additive),
        st.vars == Map::<Seq<char>, bool>::empty(),
        st.pos + 2 * names.len() + 2 <= ts.len(),
        ts[st.pos as int].kind == KindModel::Ident(p),
        ts[(st.pos + 1) as int].kind == KindModel::LParen,
        forall|i: int| 0 <= i < names.len() ==> #[trigger] ts[st.pos + 2 + 2 * i].kind == KindModel::Ident(names[i]),
        forall|i: int| 0 <= i < ops.len() ==> #[trigger] ts[st.pos + 3 + 2 * i].kind == ops[i],
        ts[(st.pos + 2 * names.len() + 1) as int].kind == KindModel::RParen,
    ensures
        parse_literal(ts, st) == (
            Tree::Predicate(p, seq![arith_chain(ops, names)]),
            PState { pos: st.pos + 2 * names.len() + 2, ..st },
        ),
{
    reveal_with_fuel(parse_quantors, 2);
    reveal_with_fuel(parse_level, 2);
    reveal_with_fuel(parse_term, 2);
    reveal_with_fuel(parse_term_or, 2);
    reveal_with_fuel(parse_literal, 2);
    reveal_with_fuel(arg_rest, 2);
    reveal_with_fuel(parse_arg, 2);
    reveal_with_fuel(parse_arith, 2);
    reveal_with_fuel(arith_rest, 2);
    reveal_with_fuel(parse_arith_term, 2);
    reveal_with_fuel(arith_term_rest, 2);
    reveal_with_fuel(parse_factor, 2);
    reveal_with_fuel(parse_fol, 2);
    reveal_with_fuel(fol_rest, 2);
    reveal_with_fuel(term_rest, 2);
    reveal_with_fuel(term_or_rest, 2);
    let m = names.len() as int;
    let b = st.pos + 2 as int;
    assert forall|i: int| 0 <= i < m implies #[trigger] ts[b + 2 * i].kind == KindModel::Ident(names[i]) by {
        assert(ts[st.pos + 2 + 2 * i].kind == KindModel::Ident(names[i]));
    }
    assert forall|i: int| 0 <= i < ops.len() implies #[trigger] ts[b + 2 * i + 1].kind == ops[i] by {
        assert(ts[st.pos + 3 + 2 * i].kind == ops[i]);
    }
    let st1 = expect(ts, advance(ts, st), KindModel::LParen, true).1;
    assert(st1 == PState { pos: b as nat, ..st });
    let i0: int = 0;
    assert(ts[b + 2 * i0].kind == KindModel::Ident(names[0]));
    let st2 = advance(ts, st1);
    let end = PState { pos: (b + 2 * m - 1) as nat, ..st };
    let chain = arith_chain(ops, names);
    assert(ops.take(0) =~= Seq::<KindModel>::empty());
    assert(names.take(1) =~= seq![names[0]]);
    if ops.len() > 0 {
        assert(ts[b + 2 * i0 + 1].kind == ops[0]);
        assert(same_rank(ops, additive));
        assert(additive ==> ops[0] is Plus || ops[0] is Minus);
    }
    if additive {
        lemma_term_name(ts, st1, names[0]);
        lemma_arith_chain_rest(ts, st2, b, ops, names, additive, 1);
        assert(parse_arith(ts, st1) == (chain, end));
    } else {
        lemma_factor_name(ts, st1, names[0]);
        lemma_arith_chain_rest(ts, st2, b, ops, names, additive, 1);
        assert(parse_arith_term(ts, st1) == (chain, end));
        assert(parse_arith(ts, st1) == (chain, end));
    }
    assert(parse_arg(ts, st1) == (chain, end));
}

/// The variables bound by a group's names, one after the other.
pub open spec fn bind_all(vars: Map<Seq<char>, bool>, names: Seq<Seq<char>>, for_all: bool) -> Map<
    Seq<char>,
    bool,
>
    decreases names.len(),
{
    if names.len() == 0 {
        vars
    } else {
        bind_all(vars, names.drop_last(), for_all).insert(names.last(), for_all)
    }
}

/// Every name of a group is bound after it.
proof fn lemma_bind_all_contains(vars: Map<Seq<char>, bool>, names: Seq<Seq<char>>, for_all: bool)
    ensures
        forall|i: int| 0 <= i < names.len() ==> bind_all(vars, names, for_all).contains_key(#[trigger] names[i]),
    decreases names.len(),
{
    if names.len() > 0 {
        lemma_bind_all_contains(vars, names.drop_last(), for_all);
        assert forall|i: int| 0 <= i < names.len() implies bind_all(vars, names, for_all).contains_key(
            #[trigger] names[i],
        ) by {
            if i < names.len() - 1 {
                assert(names.drop_last()[i] == names[i]);
            }
        }
    }
}

/// The names after the first of a group whose names start at `b`: from the
/// comma before name `k` on, each is bound, and reading stops on the colon.
proof fn lemma_group_names(
    ts: Seq<TokenModel>,
    st: PState,
    b: int,
    names: Seq<Seq<char>>,
    for_all: bool,
    vars0: Map<Seq<char>, bool>,
    k: int,
)
    requires
        1 <= k <= names.len(),
        0 <= b,
        b + 2 * names.len() <= ts.len(),
        forall|i: int| 0 <= i < names.len() ==> #[trigger] ts[b + 2 * i].kind == KindModel::Ident(names[i]),
        forall|i: int| 0 <= i < names.len() - 1 ==> #[trigger] ts[b + 2 * i + 1].kind == KindModel::Dot,
        ts[b + 2 * names.len() - 1].kind == KindModel::Colon,
        st.pos == b + 2 * k - 1,
        st.vars == bind_all(vars0, names.take(k), for_all),
    ensures
        quantor_names(ts, st, for_all) == (PState {
            pos: (b + 2 * names.len() - 1) as nat,
            vars: bind_all(vars0, names, for_all),
            ..st
        }),
    decreases names.len() - k,
{
    reveal_with_fuel(quantor_names, 2);
    if k < names.len() {
        assert(ts[b + 2 * (k - 1) + 1].kind == KindModel::Dot);
        assert(ts[b + 2 * k].kind == KindModel::Ident(names[k]));
        let st1 = advance(ts, st);
        let st2 = advance(ts, PState { vars: st1.vars.insert(names[k], for_all), ..st1 });
        assert(names.take(k + 1).drop_last() =~= names.take(k));
        lemma_group_names(ts, st2, b, names, for_all, vars0, k + 1);
    } else {
        assert(names.take(k) =~= names);
    }
}

/// A quantifier group at the cursor, then a literal over its names, read at
/// the formula level: the literal with the names bound.
proof fn lemma_group_then_literal(
    ts: Seq<TokenModel>,
    st: PState,
    q: KindModel,
    p: Seq<char>,
    names: Seq<Seq<char>>,
)
    requires
        q is ForAll || q is Exist,
        names.len() >= 1,
        st.vars == Map::<Seq<char>, bool>::empty(),
        st.pos + 4 * names.len() + 4 == ts.len(),
        ts[st.pos as int].kind == q,
        forall|i: int| 0 <= i < names.len() ==> #[trigger] ts[st.pos + 1 + 2 * i].kind == KindModel::Ident(names[i]),
        forall|i: int| 0 <= i < names.len() - 1 ==> #[trigger] ts[st.pos + 2 + 2 * i].kind == KindModel::Dot,
        ts[st.pos + 2 * names.len() as int].kind == KindModel::Colon,
        ts[st.pos + 2 * names.len() + 1 as int].kind == KindModel::Ident(p),
        ts[st.pos + 2 * names.len() + 2 as int].kind == KindModel::LParen,
        forall|i: int| 0 <= i < names.len() ==> #[trigger] ts[st.pos + 2 * names.len() + 3 + 2 * i].kind == KindModel::Ident(names[i]),
        forall|i: int| 0 <= i < names.len() - 1 ==> #[trigger] ts[st.pos + 2 * names.len() + 4 + 2 * i].kind == KindModel::Dot,
        ts[st.pos + 4 * names.len() + 2 as int].kind == KindModel::RParen,
        ts[st.pos + 4 * names.len() + 3 as int].kind == KindModel::EOF,
    ensures
        parse_quantors(ts, st, Level::Term).0 == Tree::Predicate(p, variables(names)),
        parse_quantors(ts, st, Level::Term).1.pos == st.pos + 4 * names.len() + 3,
        parse_quantors(ts, st, Level::Term).1.errors == st.errors,
{
    reveal_with_fuel(parse_quantors, 2);
    reveal_with_fuel(bind_all, 2);
    let m = names.len() as int;
    let for_all = q is ForAll;
    let b = st.pos + 1 as int;
    assert forall|i: int| 0 <= i < m implies #[trigger] ts[b + 2 * i].kind == KindModel::Ident(names[i]) by {
        assert(ts[st.pos + 1 + 2 * i].kind == KindModel::Ident(names[i]));
    }
    assert forall|i: int| 0 <= i < m - 1 implies #[trigger] ts[b + 2 * i + 1].kind == KindModel::Dot by {
        assert(ts[st.pos + 2 + 2 * i].kind == KindModel::Dot);
    }
    let i0: int = 0;
    assert(ts[b + 2 * i0].kind == KindModel::Ident(names[0]));
    let st1 = advance(ts, st);
    let st2a = advance(ts, PState { vars: st1.vars.insert(names[0], for_all), ..st1 });
    assert(names.take(1) =~= seq![names[0]]);
    assert(names.take(1).drop_last() =~= Seq::<Seq<char>>::empty());
    assert(bind_all(Map::empty(), names.take(1), for_all) == Map::<Seq<char>, bool>::empty().insert(
        names[0],
        for_all,
    ));
    lemma_group_names(ts, st2a, b, names, for_all, Map::empty(), 1);
    let vars = bind_all(Map::empty(), names, for_all);
    let st_colon = PState { pos: (b + 2 * m - 1) as nat, vars, ..st };
    let st_lit = PState { pos: (b + 2 * m) as nat, vars, ..st };
    assert(expect(ts, st_colon, KindModel::Colon, true).1 == st_lit);
    // the literal over the bound names
    let c = b + 2 * m;
    assert forall|i: int| 0 <= i < m implies #[trigger] ts[st_lit.pos + 2 + 2 * i].kind == KindModel::Ident(names[i]) by {
        assert(ts[st.pos + 2 * names.len() + 3 + 2 * i].kind == KindModel::Ident(names[i]));
    }
    assert forall|i: int| 0 <= i < m - 1 implies #[trigger] ts[st_lit.pos + 3 + 2 * i].kind == KindModel::Dot by {
        assert(ts[st.pos + 2 * names.len() + 4 + 2 * i].kind == KindModel::Dot);
    }
    lemma_literal_call(ts, st_lit, p, names);
    lemma_bind_all_contains(Map::empty(), names, for_all);
    assert(atoms(vars, names) =~= variables(names));
    lemma_term_from_literal(ts, st_lit);
    assert(parse_quantors(ts, st, Level::Term) == parse_quantors(ts, st_lit, Level::Term));
}

} // verus!
