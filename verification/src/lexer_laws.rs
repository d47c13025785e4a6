//! What holds of every text the lexer reads: each token reads exactly its
//! own text, tokens come in order, EOF comes last, an error-free text is its
//! tokens with white space between them, and positions count lines and
//! characters.
use vstd::prelude::*;
use crate::error::{ErrorModel, Loc, start_loc};
use crate::lexer::{
    KindModel, TokenModel, ascii_digit, decimal_value, digit_run, ident_run, kind_text, lex,
    lex_from, lex_step, lemma_digit_run_all_digits, lemma_runs_bounded, lemma_skip_ws_index,
    lemma_steps_index, single_kind, skip_ws, step, steps, word_kind,
};
use crate::text::is_white_space;

verus! {

/// What a token covers in the text `cs`: EOF covers nothing and stands at
/// the end; a numeral covers digits whose value it holds; any other token
/// covers exactly the text it prints as.
pub open spec fn reads_as(cs: Seq<char>, t: TokenModel) -> bool {
    let text = cs.subrange(t.pos.index as int, (t.pos.index + t.len) as int);
    &&& t.pos.index + t.len <= cs.len()
    &&& match t.kind {
        KindModel::EOF => t.len == 0 && t.pos.index == cs.len(),
        KindModel::Number(n) => {
            &&& t.len > 0
            &&& forall|j: int| 0 <= j < text.len() ==> ascii_digit(#[trigger] text[j])
            &&& decimal_value(text) == n
        },
        k => text == kind_text(k),
    }
}

/// Where the gap before token `k` begins: at `start` for the first token,
/// else where the token before it ends.
pub open spec fn gap_start(start: nat, ts: Seq<TokenModel>, k: int) -> nat {
    if k == 0 {
        start
    } else {
        ts[k - 1].pos.index + ts[k - 1].len
    }
}

/// Everything before each token, back to the end of the one before it (or
/// to `start`), is white space.
pub open spec fn gaps_are_space(cs: Seq<char>, start: nat, ts: Seq<TokenModel>) -> bool {
    forall|k: int, j: int|
        #![trigger ts[k], cs[j]]
        0 <= k < ts.len() && gap_start(start, ts, k) <= j < ts[k].pos.index ==> is_white_space(cs[j])
}

/// How many line feeds come before index `i`.
pub open spec fn newlines_before(cs: Seq<char>, i: nat) -> nat
    decreases i,
{
    if i == 0 {
        0
    } else {
        newlines_before(cs, (i - 1) as nat) + if cs[i - 1] == '\n' { 1nat } else { 0nat }
    }
}

/// The position of index `i` when every character before it was read: the
/// line is one more than the line feeds before it, and the column one more
/// than the index (columns are counted from the start of the text).
pub open spec fn loc_at(cs: Seq<char>, i: nat) -> Loc {
    Loc { line: 1 + newlines_before(cs, i), column: i + 1, index: i }
}

// ============================================================================
// The laws
// ============================================================================

/// Every token the lexer produces reads exactly its own text: the text it
/// covers is what it prints as (a numeral: digits with its value), and EOF
/// stands at the end of the text.
pub proof fn law_tokens_read_their_text(cs: Seq<char>)
    ensures
        forall|k: int| 0 <= k < lex(cs).0.len() ==> reads_as(cs, #[trigger] lex(cs).0[k]),
{
    lemma_lex_from(cs, start_loc());
}

/// Tokens come in the order of the text and do not overlap.
pub proof fn law_tokens_in_order(cs: Seq<char>)
    ensures
        forall|k: int|
            0 <= k < lex(cs).0.len() - 1 ==> (#[trigger] lex(cs).0[k]).pos.index + lex(cs).0[k].len
                <= lex(cs).0[k + 1].pos.index,
{
    lemma_lex_from(cs, start_loc());
}

/// EOF is never followed by another token, and a text read without errors
/// ends with EOF.
pub proof fn law_eof_comes_last(cs: Seq<char>)
    ensures
        forall|k: int| 0 <= k < lex(cs).0.len() - 1 ==> !((#[trigger] lex(cs).0[k]).kind is EOF),
        lex(cs).1.len() == 0 ==> lex(cs).0.len() > 0 && lex(cs).0.last().kind is EOF,
{
    lemma_lex_from(cs, start_loc());
}

/// A text read without errors is nothing but its tokens with white space
/// before each of them: nothing is skipped silently.
pub proof fn law_clean_text_is_tokens_and_space(cs: Seq<char>)
    ensures
        lex(cs).1.len() == 0 ==> gaps_are_space(cs, 0, lex(cs).0),
{
    lemma_lex_from(cs, start_loc());
}

/// In a text read without errors, each token's position gives its line (one
/// more than the line feeds before it) and its column (one more than its
/// index).
pub proof fn law_positions_count_lines(cs: Seq<char>)
    ensures
        lex(cs).1.len() == 0 ==> forall|k: int|
            0 <= k < lex(cs).0.len() ==> (#[trigger] lex(cs).0[k]).pos == loc_at(cs, lex(cs).0[k].pos.index),
{
    assert(start_loc() == loc_at(cs, 0));
    lemma_lex_from(cs, start_loc());
}

/// Lexing makes progress: every token but EOF covers at least one
/// character, so a text of `n` characters gives at most `n + 1` tokens and
/// errors together.
pub proof fn law_lexing_progresses(cs: Seq<char>)
    ensures
        lex(cs).0.len() + lex(cs).1.len() <= cs.len() + 1,
        forall|k: int|
            0 <= k < lex(cs).0.len() && !(lex(cs).0[k].kind is EOF) ==> (#[trigger] lex(cs).0[k]).len >= 1,
{
    lemma_lex_counts(cs, start_loc());
}

/// Once only white space is left, the lexer reads EOF at the end of the
/// text, and reading again from there gives the same EOF and stays put.
pub proof fn law_white_space_ends_in_eof(cs: Seq<char>, p: Loc)
    requires
        p.index <= cs.len(),
        forall|j: int| p.index <= j < cs.len() ==> is_white_space(#[trigger] cs[j]),
    ensures
        skip_ws(cs, p).index == cs.len(),
        lex_step(cs, p) == (
            Ok::<TokenModel, ErrorModel>(TokenModel { kind: KindModel::EOF, pos: skip_ws(cs, p), len: 0 }),
            skip_ws(cs, p),
        ),
        lex_step(cs, skip_ws(cs, p)) == lex_step(cs, p),
{
    lemma_skip_to_end(cs, p);
    lemma_skip_ws_index(cs, skip_ws(cs, p));
}

// ============================================================================
// Their proofs
// ============================================================================

/// Skipping from where only white space is left reaches the end.
proof fn lemma_skip_to_end(cs: Seq<char>, p: Loc)
    requires
        p.index <= cs.len(),
        forall|j: int| p.index <= j < cs.len() ==> is_white_space(#[trigger] cs[j]),
    ensures
        skip_ws(cs, p).index == cs.len(),
    decreases cs.len() - p.index,
{
    if p.index < cs.len() {
        assert(is_white_space(cs[p.index as int]));
        lemma_skip_to_end(cs, step(cs, p));
    }
}

/// What `law_lexing_progresses` states, from any position within the text.
proof fn lemma_lex_counts(cs: Seq<char>, p: Loc)
    requires
        p.index <= cs.len(),
    ensures
        ({
            let (ts, es) = lex_from(cs, p);
            &&& ts.len() + es.len() <= cs.len() - p.index + 1
            &&& forall|k: int| 0 <= k < ts.len() && !(ts[k].kind is EOF) ==> (#[trigger] ts[k]).len >= 1
        }),
    decreases cs.len() - p.index,
{
    let (r, q) = lex_step(cs, p);
    lemma_step_reads(cs, p);
    crate::lexer::lemma_lex_step_progress(cs, p);
    let (ts, es) = lex_from(cs, p);
    match r {
        Ok(t) => {
            if !(t.kind is EOF) {
                lemma_lex_counts(cs, q);
                let (ts1, es1) = lex_from(cs, q);
                assert(ts == seq![t] + ts1);
                assert forall|k: int| 0 <= k < ts.len() && !(ts[k].kind is EOF) implies (#[trigger] ts[k]).len >= 1 by {
                    if k > 0 {
                        assert(ts[k] == ts1[k - 1]);
                    }
                }
            }
        },
        Err(e) => {
            let q2 = Loc { index: q.index + 1, ..q };
            if q2.index < cs.len() {
                lemma_lex_counts(cs, q2);
            }
        },
    }
}

/// Reading one character from a counted position gives the next counted
/// position.
pub(crate) proof fn lemma_step_loc(cs: Seq<char>, i: nat)
    requires
        i < cs.len(),
    ensures
        step(cs, loc_at(cs, i)) == loc_at(cs, i + 1),
{
    assert(newlines_before(cs, i + 1) == newlines_before(cs, i) + if cs[i as int] == '\n' {
        1nat
    } else {
        0nat
    });
}

/// Reading `n` characters from a counted position.
pub(crate) proof fn lemma_steps_loc(cs: Seq<char>, i: nat, n: nat)
    requires
        i + n <= cs.len(),
    ensures
        steps(cs, loc_at(cs, i), n) == loc_at(cs, i + n),
    decreases n,
{
    if n > 0 {
        lemma_steps_loc(cs, i, (n - 1) as nat);
        lemma_step_loc(cs, (i + n - 1) as nat);
    }
}

/// What skipping white space passes over is white space, and from a
/// counted position it stops at a counted position.
proof fn lemma_skip_ws_facts(cs: Seq<char>, p: Loc)
    requires
        p.index <= cs.len(),
    ensures
        forall|j: int| p.index <= j < skip_ws(cs, p).index ==> is_white_space(#[trigger] cs[j]),
        p == loc_at(cs, p.index) ==> skip_ws(cs, p) == loc_at(cs, skip_ws(cs, p).index),
    decreases cs.len() - p.index,
{
    if p.index < cs.len() && is_white_space(cs[p.index as int]) {
        lemma_skip_ws_facts(cs, step(cs, p));
        if p == loc_at(cs, p.index) {
            lemma_step_loc(cs, p.index);
        }
    }
}

/// One step of the lexer: a token reads its text, stands where white space
/// ends, and reading stops right after it.
proof fn lemma_step_reads(cs: Seq<char>, p: Loc)
    requires
        p.index <= cs.len(),
    ensures
        ({
            let (r, q) = lex_step(cs, p);
            let s = skip_ws(cs, p);
            &&& p.index <= s.index <= cs.len()
            &&& r is Ok ==> {
                &&& reads_as(cs, r->Ok_0)
                &&& r->Ok_0.pos == s
                &&& q == steps(cs, s, r->Ok_0.len)
            }
        }),
{
    let s = skip_ws(cs, p);
    lemma_skip_ws_index(cs, p);
    if s.index < cs.len() {
        let c = cs[s.index as int];
        let i = s.index;
        lemma_steps_index(cs, s, 1);
        lemma_steps_index(cs, s, 2);
        assert(steps(cs, s, 0) == s);
        assert(steps(cs, s, 1) == step(cs, s));
        let one = cs.subrange(i as int, i + 1 as int);
        assert(one =~= seq![c]);
        if i + 1 < cs.len() {
            let two = cs.subrange(i as int, i + 2 as int);
            assert(two =~= seq![c, cs[i + 1 as int]]);
        }
        reveal_strlit("=");
        reveal_strlit("+");
        reveal_strlit("*");
        reveal_strlit(",");
        reveal_strlit(".");
        reveal_strlit(":");
        reveal_strlit("(");
        reveal_strlit(")");
        reveal_strlit("~");
        reveal_strlit("-");
        reveal_strlit("->");
        reveal_strlit("/");
        assert("="@ =~= seq!['=']);
        assert("+"@ =~= seq!['+']);
        assert("*"@ =~= seq!['*']);
        assert(","@ =~= seq![',']);
        assert("."@ =~= seq!['.']);
        assert(":"@ =~= seq![':']);
        assert("("@ =~= seq!['(']);
        assert(")"@ =~= seq![')']);
        assert("~"@ =~= seq!['~']);
        assert("-"@ =~= seq!['-']);
        assert("->"@ =~= seq!['-', '>']);
        assert("/"@ =~= seq!['/']);
        lemma_runs_bounded(cs, i + 1);
        if !(single_kind(c) is Some) && c != '-' && c != '/' && c != '\\' {
            let n_id = 1 + ident_run(cs, i + 1);
            let n_num = 1 + digit_run(cs, i + 1);
            lemma_steps_index(cs, s, n_id);
            lemma_steps_index(cs, s, n_num);
            if ascii_digit(c) && !(('a' <= c && c <= 'z') || ('A' <= c && c <= 'Z') || c == '_') {
                let ds = cs.subrange(i as int, (i + n_num) as int);
                lemma_digit_run_all_digits(cs, i + 1, (n_num - 1) as nat);
                assert forall|j: int| 0 <= j < ds.len() implies ascii_digit(#[trigger] ds[j]) by {
                    assert(ds[j] == cs[i + j]);
                }
            } else {
                let w = cs.subrange(i as int, (i + n_id) as int);
                assert(kind_text(word_kind(w)) == w);
            }
        }
    }
}

/// The facts behind the laws, for reading from any position `p`.
pub(crate) proof fn lemma_lex_from(cs: Seq<char>, p: Loc)
    requires
        p.index <= cs.len(),
    ensures
        ({
            let (ts, es) = lex_from(cs, p);
            &&& forall|k: int| 0 <= k < ts.len() ==> p.index <= (#[trigger] ts[k]).pos.index && reads_as(cs, ts[k])
            &&& forall|k: int| 0 <= k < ts.len() - 1 ==> (#[trigger] ts[k]).pos.index + ts[k].len <= ts[k + 1].pos.index
            &&& forall|k: int| 0 <= k < ts.len() - 1 ==> !((#[trigger] ts[k]).kind is EOF)
            &&& es.len() == 0 ==> ts.len() > 0 && ts.last().kind is EOF
            &&& es.len() == 0 ==> gaps_are_space(cs, p.index, ts)
            &&& (es.len() == 0 && p == loc_at(cs, p.index)) ==> forall|k: int|
                0 <= k < ts.len() ==> (#[trigger] ts[k]).pos == loc_at(cs, ts[k].pos.index)
        }),
    decreases cs.len() - p.index,
{
    let (r, q) = lex_step(cs, p);
    let s = skip_ws(cs, p);
    lemma_step_reads(cs, p);
    lemma_skip_ws_facts(cs, p);
    crate::lexer::lemma_lex_step_progress(cs, p);
    let (ts, es) = lex_from(cs, p);
    match r {
        Ok(t) => {
            if t.kind is EOF {
                assert(ts == seq![t]);
                assert(gaps_are_space(cs, p.index, ts));
            } else {
                lemma_lex_from(cs, q);
                let (ts1, es1) = lex_from(cs, q);
                assert(ts == seq![t] + ts1);
                assert(es == es1);
                lemma_steps_index(cs, s, t.len);
                assert(q.index == s.index + t.len);
                assert forall|k: int| 0 <= k < ts.len() - 1 implies (#[trigger] ts[k]).pos.index
                    + ts[k].len <= ts[k + 1].pos.index by {
                    if k > 0 {
                        assert(ts[k] == ts1[k - 1]);
                        assert(ts[k + 1] == ts1[k]);
                    }
                }
                assert forall|k: int| 0 <= k < ts.len() - 1 implies !((#[trigger] ts[k]).kind is EOF) by {
                    if k > 0 {
                        assert(ts[k] == ts1[k - 1]);
                    }
                }
                assert forall|k: int| 0 <= k < ts.len() implies p.index <= (#[trigger] ts[k]).pos.index
                    && reads_as(cs, ts[k]) by {
                    if k > 0 {
                        assert(ts[k] == ts1[k - 1]);
                    }
                }
                if es.len() == 0 {
                    assert(ts.last() == ts1.last());
                    assert forall|k: int, j: int|
                        #![trigger ts[k], cs[j]]
                        0 <= k < ts.len() && gap_start(p.index, ts, k) <= j < ts[k].pos.index implies is_white_space(cs[j]) by {
                        if k > 0 {
                            assert(ts[k] == ts1[k - 1]);
                            assert(gap_start(p.index, ts, k) == gap_start(q.index, ts1, k - 1));
                        }
                    }
                    if p == loc_at(cs, p.index) {
                        lemma_steps_loc(cs, s.index, t.len);
                        assert forall|k: int| 0 <= k < ts.len() implies (#[trigger] ts[k]).pos == loc_at(
                            cs,
                            ts[k].pos.index,
                        ) by {
                            if k > 0 {
                                assert(ts[k] == ts1[k - 1]);
                            }
                        }
                    }
                }
            }
        },
        Err(e) => {
            let q2 = Loc { index: q.index + 1, ..q };
            if q2.index < cs.len() {
                lemma_lex_from(cs, q2);
            }
        },
    }
}

} // verus!
