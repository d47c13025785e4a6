//! The text a token prints as, lexed on its own, gives that token back; so
//! do the texts of several tokens written with spaces between them.
use vstd::prelude::*;
use crate::error::{ErrorModel, Loc, start_loc};
use crate::lexer::{
    KindModel, TokenModel, ascii_digit, decimal_value, digit_run, ident_run, ident_start,
    kind_text, lex, lex_from, lex_step, lemma_skip_ws_index, single_kind, skip_ws, steps, word_kind,
};
use crate::text::{decimal, digit_char};
use crate::lexer_join::{kinds, law_space_keeps_tokens};
use crate::lexer_laws::{law_white_space_ends_in_eof, loc_at, newlines_before, lemma_step_loc, lemma_steps_loc};

verus! {

/// Whether the text of `k` reads back as `k`: every keyword and operator,
/// every number that is not negative, and every identifier made of ASCII
/// letters, digits and underscores that does not start with a digit and is
/// no keyword.
pub open spec fn reads_back(k: KindModel) -> bool {
    match k {
        KindModel::EOF => false,
        KindModel::Number(n) => n >= 0,
        KindModel::Ident(w) => {
            &&& w.len() > 0
            &&& ident_start(w[0])
            &&& forall|j: int| 0 <= j < w.len() ==> ident_start(#[trigger] w[j]) || ascii_digit(w[j])
            &&& word_kind(w) == KindModel::Ident(w)
        },
        _ => true,
    }
}

/// The text of a token, lexed on its own, gives that token at line 1,
/// column 1, then EOF right after it, and no error.
pub proof fn law_token_text_reads_back(k: KindModel)
    requires
        reads_back(k),
    ensures
        lex(kind_text(k)) == (
            seq![
                TokenModel { kind: k, pos: start_loc(), len: kind_text(k).len() },
                TokenModel {
                    kind: KindModel::EOF,
                    pos: Loc { line: 1, column: kind_text(k).len() + 1, index: kind_text(k).len() },
                    len: 0,
                },
            ],
            Seq::<ErrorModel>::empty(),
        ),
{
    let w = kind_text(k);
    let t = TokenModel { kind: k, pos: start_loc(), len: w.len() };
    lemma_first_step(k);
    lemma_no_newlines(w, w.len());
    lemma_one_token(w, t);
}

/// A text whose first step reads a token up to its end lexes to that token
/// and EOF.
proof fn lemma_one_token(cs: Seq<char>, t: TokenModel)
    requires
        !(t.kind is EOF),
        lex_step(cs, start_loc()) == (Ok::<TokenModel, ErrorModel>(t), loc_at(cs, cs.len())),
    ensures
        lex(cs) == (
            seq![t, TokenModel { kind: KindModel::EOF, pos: loc_at(cs, cs.len()), len: 0 }],
            Seq::<ErrorModel>::empty(),
        ),
{
    let q = loc_at(cs, cs.len());
    law_white_space_ends_in_eof(cs, q);
    lemma_skip_ws_index(cs, q);
    let eof = TokenModel { kind: KindModel::EOF, pos: q, len: 0 };
    assert(lex_from(cs, q) == (seq![eof], Seq::<ErrorModel>::empty()));
    assert(seq![t] + seq![eof] =~= seq![t, eof]);
}

/// A text without line feeds has none before any index.
proof fn lemma_no_newlines(cs: Seq<char>, i: nat)
    requires
        i <= cs.len(),
        forall|j: int| 0 <= j < cs.len() ==> #[trigger] cs[j] != '\n',
    ensures
        newlines_before(cs, i) == 0,
    decreases i,
{
    if i > 0 {
        lemma_no_newlines(cs, (i - 1) as nat);
    }
}

/// Identifier characters from `i` to the end make a run to the end.
proof fn lemma_ident_run_to_end(cs: Seq<char>, i: nat)
    requires
        i <= cs.len(),
        forall|j: int| i <= j < cs.len() ==> ident_start(#[trigger] cs[j]) || ascii_digit(cs[j]),
    ensures
        ident_run(cs, i) == cs.len() - i,
    decreases cs.len() - i,
{
    if i < cs.len() {
        let c = cs[i as int];
        assert(ident_start(c) || ascii_digit(c));
        lemma_ident_run_to_end(cs, i + 1);
    }
}

/// Digits from `i` to the end make a run to the end.
proof fn lemma_digit_run_to_end(cs: Seq<char>, i: nat)
    requires
        i <= cs.len(),
        forall|j: int| i <= j < cs.len() ==> ascii_digit(#[trigger] cs[j]),
    ensures
        digit_run(cs, i) == cs.len() - i,
    decreases cs.len() - i,
{
    if i < cs.len() {
        lemma_digit_run_to_end(cs, i + 1);
    }
}

/// The numeral of `n` is made of digits and has the value `n`.
proof fn lemma_decimal_reads_back(n: nat)
    ensures
        decimal(n).len() >= 1,
        forall|j: int| 0 <= j < decimal(n).len() ==> ascii_digit(#[trigger] decimal(n)[j]),
        decimal_value(decimal(n)) == n,
    decreases n,
{
    if n < 10 {
        let d = digit_char(n);
        assert(d as u32 == n + 48);
        assert(seq![d].drop_last() =~= Seq::<char>::empty());
        assert(decimal_value(Seq::<char>::empty()) == 0);
        assert(decimal_value(seq![d]) == decimal_value(seq![d].drop_last()) * 10 + ((d as u32) - 48) as nat);
    } else {
        lemma_decimal_reads_back(n / 10);
        let d = digit_char(n % 10);
        assert(d as u32 == n % 10 + 48);
        let s = decimal(n / 10).push(d);
        assert(s.drop_last() =~= decimal(n / 10));
        assert(decimal_value(s) == decimal_value(decimal(n / 10)) * 10 + ((d as u32) - 48) as nat);
        assert((n / 10) * 10 + n % 10 == n);
        assert forall|j: int| 0 <= j < s.len() implies ascii_digit(#[trigger] s[j]) by {
            if j < s.len() - 1 {
                assert(s[j] == decimal(n / 10)[j]);
            }
        }
    }
}

/// The first step over the numeral of a number that is not negative reads
/// that number up to the end of the numeral.
proof fn lemma_number_step(n: i64)
    requires
        n >= 0,
    ensures
        lex_step(kind_text(KindModel::Number(n)), start_loc()) == (
            Ok::<TokenModel, ErrorModel>(
                TokenModel { kind: KindModel::Number(n), pos: start_loc(), len: kind_text(KindModel::Number(n)).len() },
            ),
            loc_at(kind_text(KindModel::Number(n)), kind_text(KindModel::Number(n)).len()),
        ),
{
    let w = kind_text(KindModel::Number(n));
    lemma_decimal_reads_back(n as nat);
    assert(w == decimal(n as nat));
    let p = start_loc();
    assert(p == loc_at(w, 0));
    let c = w[0];
    assert(ascii_digit(c));
    assert(!(c as u32 == 0x20 || (0x09 <= c as u32 <= 0x0D)));
    assert(skip_ws(w, p) == p);
    lemma_digit_run_to_end(w, 1);
    let m = 1 + digit_run(w, 1);
    assert(m == w.len());
    let ds = w.subrange(0, m as int);
    assert(ds =~= w);
    assert(decimal_value(ds) == n);
    assert(single_kind(c) is None);
    assert(!ident_start(c));
    lemma_steps_loc(w, 0, m);
    assert(steps(w, p, m) == loc_at(w, w.len()));
}

/// The first step over the text of `k` reads `k` up to the end of the text.
proof fn lemma_first_step(k: KindModel)
    requires
        reads_back(k),
    ensures
        kind_text(k).len() > 0,
        forall|j: int| 0 <= j < kind_text(k).len() ==> #[trigger] kind_text(k)[j] != '\n',
        lex_step(kind_text(k), start_loc()) == (
            Ok::<TokenModel, ErrorModel>(TokenModel { kind: k, pos: start_loc(), len: kind_text(k).len() }),
            loc_at(kind_text(k), kind_text(k).len()),
        ),
{
    let w = kind_text(k);
    assert(start_loc() == loc_at(w, 0));
    match k {
        KindModel::Axiom => reveal_strlit("axiom"),
        KindModel::Schema => reveal_strlit("schema"),
        KindModel::ForAll => reveal_strlit("forall"),
        KindModel::Exist => reveal_strlit("exist"),
        KindModel::Not => reveal_strlit("~"),
        KindModel::Impl => reveal_strlit("->"),
        KindModel::LParen => reveal_strlit("("),
        KindModel::RParen => reveal_strlit(")"),
        KindModel::Eq => reveal_strlit("="),
        KindModel::Plus => reveal_strlit("+"),
        KindModel::Minus => reveal_strlit("-"),
        KindModel::Star => reveal_strlit("*"),
        KindModel::Slash => reveal_strlit("/"),
        KindModel::Dot => reveal_strlit(","),
        KindModel::Point => reveal_strlit("."),
        KindModel::Colon => reveal_strlit(":"),
        KindModel::Number(n) => {
            lemma_decimal_reads_back(n as nat);
            lemma_number_step(n);
        },
        _ => {},
    }
    assert(w.len() > 0);
    assert(forall|j: int| 0 <= j < w.len() ==> #[trigger] w[j] != '\n') by {
        assert forall|j: int| 0 <= j < w.len() implies #[trigger] w[j] != '\n' by {
            if let KindModel::Ident(name) = k {
                assert(ident_start(name[j]) || ascii_digit(name[j]));
            }
        }
    }
    let s = start_loc();
    assert(skip_ws(w, s) == s);
    let c = w[0];
    if w.len() == 1 {
        lemma_step_loc(w, 0);
    }
    lemma_steps_loc(w, 0, w.len());
    match k {
        KindModel::Axiom | KindModel::Schema | KindModel::ForAll | KindModel::Exist | KindModel::Ident(_) => {
            lemma_ident_run_to_end(w, 1);
            assert(ident_start(c));
            assert(1 + ident_run(w, 1) == w.len());
            assert(w.subrange(0, w.len() as int) =~= w);
            reveal_strlit("axiom");
            reveal_strlit("schema");
            reveal_strlit("forall");
            reveal_strlit("exist");
            assert(word_kind(w) == k);
        },
        _ => {},
    }
}

/// The texts of tokens, one space between each two.
pub open spec fn spaced(ks: Seq<KindModel>) -> Seq<char>
    decreases ks.len(),
{
    if ks.len() == 0 {
        seq![]
    } else if ks.len() == 1 {
        kind_text(ks[0])
    } else {
        spaced(ks.drop_last()) + seq![' '] + kind_text(ks.last())
    }
}

/// The texts of tokens written one after the other with a space between
/// each two lex without errors to those tokens, then EOF.
pub proof fn law_spaced_tokens_read_back(ks: Seq<KindModel>)
    requires
        ks.len() >= 1,
        forall|i: int| 0 <= i < ks.len() ==> reads_back(#[trigger] ks[i]),
    ensures
        lex(spaced(ks)).1.len() == 0,
        kinds(lex(spaced(ks)).0) == ks.push(KindModel::EOF),
    decreases ks.len(),
{
    let k = ks.last();
    assert(reads_back(ks[ks.len() - 1]));
    law_token_text_reads_back(k);
    let one = lex(kind_text(k)).0;
    assert(kinds(one) =~= seq![k, KindModel::EOF]);
    if ks.len() == 1 {
        assert(ks.push(KindModel::EOF) =~= seq![k, KindModel::EOF]);
    } else {
        let init = ks.drop_last();
        assert forall|i: int| 0 <= i < init.len() implies reads_back(#[trigger] init[i]) by {
            assert(init[i] == ks[i]);
        }
        law_spaced_tokens_read_back(init);
        law_space_keeps_tokens(spaced(init), kind_text(k));
        assert(init.push(KindModel::EOF).drop_last() =~= init);
        assert(init + seq![k, KindModel::EOF] =~= ks.push(KindModel::EOF));
    }
}

} // verus!
