//! Joining two texts with white space neither merges nor splits their
//! tokens.
use vstd::prelude::*;
use crate::error::{ErrorModel, Loc, start_loc};
use crate::lexer::{
    KindModel, TokenModel, char_after, digit_run, ident_run, lex, lex_from, lex_step,
    lemma_lex_step_progress, lemma_skip_ws_index, lemma_steps_index, skip_ws, step, steps,
};
use crate::lexer_laws::lemma_lex_from;
use crate::text::is_white_space;

verus! {

/// The kinds of a list of tokens.
pub open spec fn kinds(ts: Seq<TokenModel>) -> Seq<KindModel> {
    ts.map_values(|t: TokenModel| t.kind)
}

/// Two texts that lex without errors, joined by a run of ASCII white space
/// (tabs, line feeds, line tabulations, form feeds, carriage returns and
/// spaces, in any mix, CR LF included), lex without errors to the tokens of
/// the first (but its EOF), then those of the second.
pub proof fn law_white_space_keeps_tokens(a: Seq<char>, sep: Seq<char>, b: Seq<char>)
    requires
        lex(a).1.len() == 0,
        lex(b).1.len() == 0,
        separator(sep),
    ensures
        lex(a + sep + b).1.len() == 0,
        kinds(lex(a + sep + b).0) == kinds(lex(a).0).drop_last() + kinds(lex(b).0),
{
    let pre = a + sep;
    let j = pre + b;
    assert(a + sep + b == j);
    let r = Loc { line: 1, column: pre.len() + 1, index: pre.len() };
    lemma_before_separator(a, sep, b, start_loc(), r);
    lemma_shift(pre, b, r, start_loc());
}

/// Two texts that lex without errors, joined by a space, lex without errors
/// to the tokens of the first (but its EOF), then those of the second.
pub proof fn law_space_keeps_tokens(a: Seq<char>, b: Seq<char>)
    requires
        lex(a).1.len() == 0,
        lex(b).1.len() == 0,
    ensures
        lex(a + seq![' '] + b).1.len() == 0,
        kinds(lex(a + seq![' '] + b).0) == kinds(lex(a).0).drop_last() + kinds(lex(b).0),
{
    let pre = a + seq![' '];
    let r = Loc { line: 1, column: pre.len() + 1, index: pre.len() };
    lemma_before_space(a, b, start_loc(), r);
    lemma_shift(pre, b, r, start_loc());
    assert(a + seq![' '] + b == pre + b);
}

// ============================================================================
// Skipping white space
// ============================================================================

/// Skipping white space stops where no white space follows.
proof fn lemma_skip_stops(cs: Seq<char>, p: Loc)
    requires
        p.index <= cs.len(),
    ensures
        !(skip_ws(cs, p).index < cs.len() && is_white_space(cs[skip_ws(cs, p).index as int])),
        skip_ws(cs, skip_ws(cs, p)) == skip_ws(cs, p),
    decreases cs.len() - p.index,
{
    if p.index < cs.len() && is_white_space(cs[p.index as int]) {
        lemma_skip_stops(cs, step(cs, p));
    }
}

/// Reading from `p` is reading from where its white space ends.
proof fn lemma_from_skipped(cs: Seq<char>, p: Loc)
    requires
        p.index <= cs.len(),
    ensures
        lex_from(cs, p) == lex_from(cs, skip_ws(cs, p)),
{
    lemma_skip_stops(cs, p);
    assert(lex_step(cs, p) == lex_step(cs, skip_ws(cs, p)));
}

/// In a text that begins with `a`, white space within `a` is skipped as in
/// `a` alone, and skipping goes on from there.
proof fn lemma_skip_prefix(a: Seq<char>, rest: Seq<char>, p: Loc)
    requires
        p.index <= a.len(),
    ensures
        skip_ws(a + rest, p) == skip_ws(a + rest, skip_ws(a, p)),
    decreases a.len() - p.index,
{
    let cs = a + rest;
    if p.index < a.len() && is_white_space(a[p.index as int]) {
        assert(cs[p.index as int] == a[p.index as int]);
        assert(step(cs, p) == step(a, p));
        lemma_skip_prefix(a, rest, step(a, p));
    }
}

// ============================================================================
// A text after a prefix
// ============================================================================

/// Skipping in `pre + suf` from an index within `suf` ends where it ends in
/// `suf`, shifted by the prefix.
proof fn lemma_skip_shift(pre: Seq<char>, suf: Seq<char>, p: Loc, q: Loc)
    requires
        q.index <= suf.len(),
        p.index == pre.len() + q.index,
    ensures
        skip_ws(pre + suf, p).index == pre.len() + skip_ws(suf, q).index,
    decreases suf.len() - q.index,
{
    let cs = pre + suf;
    if q.index < suf.len() {
        assert(cs[p.index as int] == suf[q.index as int]);
        if is_white_space(suf[q.index as int]) {
            lemma_skip_shift(pre, suf, step(cs, p), step(suf, q));
        }
    }
}

/// Runs of identifier characters and of digits are the same after a prefix.
proof fn lemma_runs_shift(pre: Seq<char>, suf: Seq<char>, i: nat)
    requires
        i <= suf.len(),
    ensures
        ident_run(pre + suf, pre.len() + i) == ident_run(suf, i),
        digit_run(pre + suf, pre.len() + i) == digit_run(suf, i),
    decreases suf.len() - i,
{
    let cs = pre + suf;
    if i < suf.len() {
        assert(cs[(pre.len() + i) as int] == suf[i as int]);
        lemma_runs_shift(pre, suf, i + 1);
    }
}

/// One step in `pre + suf` from within `suf` reads what it reads in `suf`,
/// and stops at the same place, shifted by the prefix.
proof fn lemma_step_shift(pre: Seq<char>, suf: Seq<char>, p: Loc, q: Loc)
    requires
        q.index <= suf.len(),
        p.index == pre.len() + q.index,
    ensures
        ({
            let (r1, q1) = lex_step(pre + suf, p);
            let (r2, q2) = lex_step(suf, q);
            &&& (r1 is Ok <==> r2 is Ok)
            &&& r1 is Ok ==> r1->Ok_0.kind == r2->Ok_0.kind
            &&& q1.index == pre.len() + q2.index
        }),
{
    let cs = pre + suf;
    lemma_skip_shift(pre, suf, p, q);
    lemma_skip_ws_index(cs, p);
    lemma_skip_ws_index(suf, q);
    let s1 = skip_ws(cs, p);
    let s2 = skip_ws(suf, q);
    if s2.index < suf.len() {
        let i = s2.index;
        assert(cs[s1.index as int] == suf[i as int]);
        assert(char_after(cs, s1.index) == char_after(suf, i)) by {
            if i + 1 < suf.len() {
                assert(cs[(s1.index + 1) as int] == suf[(i + 1) as int]);
            }
        }
        lemma_runs_shift(pre, suf, i + 1);
        lemma_steps_index(cs, s1, 1);
        lemma_steps_index(suf, s2, 1);
        lemma_steps_index(cs, s1, 2);
        lemma_steps_index(suf, s2, 2);
        let n1 = 1 + ident_run(suf, i + 1);
        let n2 = 1 + digit_run(suf, i + 1);
        crate::lexer::lemma_runs_bounded(suf, i + 1);
        lemma_steps_index(cs, s1, n1);
        lemma_steps_index(suf, s2, n1);
        lemma_steps_index(cs, s1, n2);
        lemma_steps_index(suf, s2, n2);
        assert(cs.subrange(s1.index as int, (s1.index + n1) as int) =~= suf.subrange(i as int, (i + n1) as int));
        assert(cs.subrange(s1.index as int, (s1.index + n2) as int) =~= suf.subrange(i as int, (i + n2) as int));
    }
}

/// Lexing `pre + suf` from within `suf` gives the kinds of lexing `suf`
/// alone, and as many errors.
pub proof fn lemma_shift(pre: Seq<char>, suf: Seq<char>, p: Loc, q: Loc)
    requires
        q.index <= suf.len(),
        p.index == pre.len() + q.index,
    ensures
        kinds(lex_from(pre + suf, p).0) == kinds(lex_from(suf, q).0),
        lex_from(pre + suf, p).1.len() == lex_from(suf, q).1.len(),
    decreases suf.len() - q.index,
{
    let cs = pre + suf;
    lemma_step_shift(pre, suf, p, q);
    lemma_lex_step_progress(cs, p);
    lemma_lex_step_progress(suf, q);
    let (r1, q1) = lex_step(cs, p);
    let (r2, q2) = lex_step(suf, q);
    match r2 {
        Ok(t2) => {
            let t1 = r1->Ok_0;
            if !(t2.kind is EOF) {
                lemma_shift(pre, suf, q1, q2);
                let x1 = lex_from(cs, q1).0;
                let x2 = lex_from(suf, q2).0;
                assert(kinds(seq![t1] + x1) =~= seq![t1.kind] + kinds(x1));
                assert(kinds(seq![t2] + x2) =~= seq![t2.kind] + kinds(x2));
            } else {
                assert(kinds(seq![t1]) =~= kinds(seq![t2]));
            }
        },
        Err(e2) => {
            let n1 = Loc { index: q1.index + 1, ..q1 };
            let n2 = Loc { index: q2.index + 1, ..q2 };
            if n2.index < suf.len() {
                lemma_shift(pre, suf, n1, n2);
            }
        },
    }
}

/// Reading from two places with the same index gives the same kinds and as
/// many errors.
proof fn lemma_same_index(cs: Seq<char>, p: Loc, p2: Loc)
    requires
        p.index <= cs.len(),
        p.index == p2.index,
    ensures
        kinds(lex_from(cs, p).0) == kinds(lex_from(cs, p2).0),
        lex_from(cs, p).1.len() == lex_from(cs, p2).1.len(),
{
    lemma_shift(Seq::<char>::empty(), cs, p, p2);
    assert(Seq::<char>::empty() + cs =~= cs);
}

// ============================================================================
// A text before a separator
// ============================================================================

/// An ASCII white space character: tab, line feed, line tabulation, form
/// feed, carriage return or space.
pub open spec fn ascii_separator(c: char) -> bool {
    c == '\t' || c == '\n' || c == '\u{b}' || c == '\u{c}' || c == '\r' || c == ' '
}

/// A non-empty run of ASCII white space.
pub open spec fn separator(sep: Seq<char>) -> bool {
    sep.len() > 0 && forall|j: int| 0 <= j < sep.len() ==> ascii_separator(#[trigger] sep[j])
}

/// Skipping from an index before a run of white space ends where skipping
/// from its end does.
proof fn lemma_skip_over(cs: Seq<char>, p: Loc, q: Loc)
    requires
        p.index <= q.index <= cs.len(),
        forall|j: int| p.index <= j < q.index ==> is_white_space(#[trigger] cs[j]),
    ensures
        skip_ws(cs, p).index == skip_ws(cs, q).index,
    decreases q.index - p.index,
{
    if p.index < q.index {
        assert(is_white_space(cs[p.index as int]));
        lemma_skip_over(cs, step(cs, p), q);
    } else {
        lemma_skip_shift(Seq::<char>::empty(), cs, p, q);
        assert(Seq::<char>::empty() + cs =~= cs);
    }
}

/// In `a + sep + b`, runs that start within `a` end where they end in `a`.
proof fn lemma_runs_prefix(a: Seq<char>, sep: Seq<char>, b: Seq<char>, i: nat)
    requires
        i <= a.len(),
        separator(sep),
    ensures
        ident_run(a + sep + b, i) == ident_run(a, i),
        digit_run(a + sep + b, i) == digit_run(a, i),
    decreases a.len() - i,
{
    let cs = a + sep + b;
    if i < a.len() {
        assert(cs[i as int] == a[i as int]);
        lemma_runs_prefix(a, sep, b, i + 1);
    } else {
        assert(cs[i as int] == sep[0]);
        assert(ascii_separator(sep[0]));
    }
}

/// Reading within `a` moves as it does in `a` alone.
proof fn lemma_steps_prefix(a: Seq<char>, rest: Seq<char>, s: Loc, n: nat)
    requires
        s.index + n <= a.len(),
    ensures
        steps(a + rest, s, n) == steps(a, s, n),
    decreases n,
{
    if n > 0 {
        lemma_steps_prefix(a, rest, s, (n - 1) as nat);
        lemma_steps_index(a, s, (n - 1) as nat);
        let t = steps(a, s, (n - 1) as nat);
        assert((a + rest)[t.index as int] == a[t.index as int]);
    }
}

/// A step that reads a token within `a` reads the same in `a + sep + b`.
proof fn lemma_step_prefix(a: Seq<char>, sep: Seq<char>, b: Seq<char>, p: Loc)
    requires
        p.index <= a.len(),
        separator(sep),
        lex_step(a, p).0 is Ok,
        !(lex_step(a, p).0->Ok_0.kind is EOF),
    ensures
        lex_step(a + sep + b, p) == lex_step(a, p),
{
    let rest = sep + b;
    let cs = a + sep + b;
    assert(cs == a + rest);
    lemma_skip_prefix(a, rest, p);
    lemma_skip_ws_index(a, p);
    let s = skip_ws(a, p);
    assert(s.index < a.len());
    let i = s.index;
    assert(skip_ws(cs, s) == s) by {
        lemma_skip_stops(a, p);
        assert(cs[i as int] == a[i as int]);
    }
    assert(cs[i as int] == a[i as int]);
    assert(i + 1 < a.len() ==> cs[(i + 1) as int] == a[(i + 1) as int]);
    assert(i + 1 == a.len() ==> cs[(i + 1) as int] == sep[0]);
    assert(ascii_separator(sep[0]));
    lemma_runs_prefix(a, sep, b, i + 1);
    crate::lexer::lemma_runs_bounded(a, i + 1);
    let n1 = 1 + ident_run(a, i + 1);
    let n2 = 1 + digit_run(a, i + 1);
    assert(step(cs, s) == step(a, s));
    lemma_steps_prefix(a, rest, s, n1);
    lemma_steps_prefix(a, rest, s, n2);
    if i + 2 <= a.len() {
        lemma_steps_prefix(a, rest, s, 2);
    }
    assert(cs.subrange(i as int, (i + n1) as int) =~= a.subrange(i as int, (i + n1) as int));
    assert(cs.subrange(i as int, (i + n2) as int) =~= a.subrange(i as int, (i + n2) as int));
}

/// Where only white space is left in `a`, lexing `a + sep + b` goes on as
/// from just after the separator.
proof fn lemma_eof_before_separator(a: Seq<char>, sep: Seq<char>, b: Seq<char>, p: Loc, r: Loc)
    requires
        p.index <= a.len(),
        separator(sep),
        r.index == a.len() + sep.len(),
        skip_ws(a, p).index >= a.len(),
    ensures
        kinds(lex_from(a + sep + b, p).0) == kinds(lex_from(a + sep + b, r).0),
        lex_from(a + sep + b, p).1.len() == lex_from(a + sep + b, r).1.len(),
{
    let rest = sep + b;
    let cs = a + sep + b;
    assert(cs == a + rest);
    lemma_skip_ws_index(a, p);
    let sa = skip_ws(a, p);
    assert(sa.index == a.len());
    lemma_skip_prefix(a, rest, p);
    assert forall|j: int| sa.index <= j < r.index implies is_white_space(#[trigger] cs[j]) by {
        assert(cs[j] == sep[j - a.len()]);
        assert(ascii_separator(sep[j - a.len()]));
    }
    lemma_skip_over(cs, sa, r);
    lemma_from_skipped(cs, p);
    lemma_from_skipped(cs, r);
    lemma_skip_ws_index(cs, p);
    lemma_same_index(cs, skip_ws(cs, p), skip_ws(cs, r));
}

/// Lexing `a + ' ' + b` from within `a`, where `a` lexes without errors,
/// gives the kinds of `a` (but its EOF), then those from just after the
/// space, and as many errors as from there.
proof fn lemma_before_space(a: Seq<char>, b: Seq<char>, p: Loc, r: Loc)
    requires
        p.index <= a.len(),
        lex_from(a, p).1.len() == 0,
        r.index == a.len() + 1,
    ensures
        kinds(lex_from(a + seq![' '] + b, p).0) == kinds(lex_from(a, p).0).drop_last() + kinds(
            lex_from(a + seq![' '] + b, r).0,
        ),
        lex_from(a + seq![' '] + b, p).1.len() == lex_from(a + seq![' '] + b, r).1.len(),
{
    assert(separator(seq![' ']));
    lemma_before_separator(a, seq![' '], b, p, r);
}

/// Lexing `a + sep + b` from within `a`, where `a` lexes without errors,
/// gives the kinds of `a` (but its EOF), then those from just after the
/// separator, and as many errors as from there.
proof fn lemma_before_separator(a: Seq<char>, sep: Seq<char>, b: Seq<char>, p: Loc, r: Loc)
    requires
        p.index <= a.len(),
        separator(sep),
        lex_from(a, p).1.len() == 0,
        r.index == a.len() + sep.len(),
    ensures
        kinds(lex_from(a + sep + b, p).0) == kinds(lex_from(a, p).0).drop_last() + kinds(
            lex_from(a + sep + b, r).0,
        ),
        lex_from(a + sep + b, p).1.len() == lex_from(a + sep + b, r).1.len(),
    decreases a.len() - p.index,
{
    let rest = sep + b;
    let cs = a + sep + b;
    assert(cs == a + rest);
    lemma_lex_step_progress(a, p);
    lemma_skip_ws_index(a, p);
    let (ra, qa) = lex_step(a, p);
    match ra {
        Ok(t) => {
            if t.kind is EOF {
                lemma_eof_before_separator(a, sep, b, p, r);
                assert(lex_from(a, p).0 == seq![t]);
                assert(kinds(seq![t]).drop_last() =~= Seq::<KindModel>::empty());
                assert(Seq::<KindModel>::empty() + kinds(lex_from(cs, r).0) =~= kinds(lex_from(cs, r).0));
            } else {
                lemma_step_prefix(a, sep, b, p);
                lemma_before_separator(a, sep, b, qa, r);
                lemma_lex_from(a, qa);
                let xa = lex_from(a, qa).0;
                let xc = lex_from(cs, qa).0;
                assert(xa.len() > 0);
                assert(lex_from(a, p).0 == seq![t] + xa);
                assert(lex_from(cs, p).0 == seq![t] + xc);
                assert(kinds(seq![t] + xa) =~= seq![t.kind] + kinds(xa));
                assert(kinds(seq![t] + xc) =~= seq![t.kind] + kinds(xc));
                assert((seq![t.kind] + kinds(xa)).drop_last() =~= seq![t.kind] + kinds(xa).drop_last());
            }
        },
        Err(_) => {
            assert(lex_from(a, p).1.len() > 0);
        },
    }
}

} // verus!
