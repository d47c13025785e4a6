//! The lexer: turns a text into tokens, each tied to the position it was read
//! from, and collects an error for every character or number it cannot read.
use vstd::prelude::*;
use crate::error::{CompError, ErrorModel, Loc, Position, errors_view, start_loc};
use crate::text::{
    char_is_alphanumeric, char_is_whitespace, decimal, is_alpha_numeric, is_white_space, pad2,
    push_char, push_decimal, push_decimal_width2, push_signed_decimal, signed_decimal, str_chars,
};

verus! {

// ============================================================================
// Tokens
// ============================================================================

/// A token: what it is, where it starts, and how many characters it spans.
#[derive(Debug, Clone, PartialEq)]
pub struct Token {
    pub kind: TokenKind,
    pub pos: Position,
    pub len: usize,
}

/// The kinds of tokens.
#[derive(Debug, Clone, PartialEq)]
pub enum TokenKind {
    Axiom,
    Schema,
    Ident(String),
    ForAll,
    Exist,
    And,
    Or,
    Not,
    Impl,
    LParen,
    RParen,
    Number(i64),
    Eq,
    Plus,
    Minus,
    Star,
    Slash,
    Dot,
    Point,
    Colon,
    EOF,
}

/// A token kind as plain values.
pub enum KindModel {
    Axiom,
    Schema,
    Ident(Seq<char>),
    ForAll,
    Exist,
    And,
    Or,
    Not,
    Impl,
    LParen,
    RParen,
    Number(i64),
    Eq,
    Plus,
    Minus,
    Star,
    Slash,
    Dot,
    Point,
    Colon,
    EOF,
}

/// A token as plain values.
pub struct TokenModel {
    pub kind: KindModel,
    pub pos: Loc,
    pub len: nat,
}

impl View for TokenKind {
    type V = KindModel;

    open spec fn view(&self) -> KindModel {
        match self {
            TokenKind::Axiom => KindModel::Axiom,
            TokenKind::Schema => KindModel::Schema,
            TokenKind::Ident(s) => KindModel::Ident(s@),
            TokenKind::ForAll => KindModel::ForAll,
            TokenKind::Exist => KindModel::Exist,
            TokenKind::And => KindModel::And,
            TokenKind::Or => KindModel::Or,
            TokenKind::Not => KindModel::Not,
            TokenKind::Impl => KindModel::Impl,
            TokenKind::LParen => KindModel::LParen,
            TokenKind::RParen => KindModel::RParen,
            TokenKind::Number(n) => KindModel::Number(*n),
            TokenKind::Eq => KindModel::Eq,
            TokenKind::Plus => KindModel::Plus,
            TokenKind::Minus => KindModel::Minus,
            TokenKind::Star => KindModel::Star,
            TokenKind::Slash => KindModel::Slash,
            TokenKind::Dot => KindModel::Dot,
            TokenKind::Point => KindModel::Point,
            TokenKind::Colon => KindModel::Colon,
            TokenKind::EOF => KindModel::EOF,
        }
    }
}

impl View for Token {
    type V = TokenModel;

    open spec fn view(&self) -> TokenModel {
        TokenModel { kind: self.kind@, pos: self.pos@, len: self.len as nat }
    }
}

/// The views of a sequence of tokens.
pub open spec fn tokens_view(ts: Seq<Token>) -> Seq<TokenModel> {
    ts.map_values(|t: Token| t@)
}

/// What `{}` prints for a token kind: the text it is written as.
pub open spec fn kind_text(k: KindModel) -> Seq<char> {
    match k {
        KindModel::Axiom => "axiom"@,
        KindModel::Schema => "schema"@,
        KindModel::Ident(name) => name,
        KindModel::ForAll => "forall"@,
        KindModel::Exist => "exist"@,
        KindModel::And => seq!['/', '\\'],
        KindModel::Or => seq!['\\', '/'],
        KindModel::Not => "~"@,
        KindModel::Impl => "->"@,
        KindModel::LParen => "("@,
        KindModel::RParen => ")"@,
        KindModel::Number(n) => signed_decimal(n as int),
        KindModel::Eq => "="@,
        KindModel::Plus => "+"@,
        KindModel::Minus => "-"@,
        KindModel::Star => "*"@,
        KindModel::Slash => "/"@,
        KindModel::Dot => ","@,
        KindModel::Point => "."@,
        KindModel::Colon => ":"@,
        KindModel::EOF => "EOF"@,
    }
}

/// What `{:?}` prints for a string (quoted and escaped).
pub uninterp spec fn quoted(s: Seq<char>) -> Seq<char>;

/// Whether a text is made of ASCII letters, digits and underscores only.
pub open spec fn plain_word(s: Seq<char>) -> bool {
    forall|j: int| 0 <= j < s.len() ==> ident_start(#[trigger] s[j]) || ascii_digit(s[j])
}

/// Trusted: `<str as Debug>::fmt`, through `format!("{:?}", ..)`. It prints
/// the text between double quotes, with each character escaped as
/// `char::escape_debug` does; ASCII letters, digits and underscores are
/// left as they are. Beyond such texts the contract only names the result.
#[verifier::external_body]
fn debug_quoted(s: &str) -> (r: String)
    ensures
        r@ == quoted(s@),
        plain_word(s@) ==> r@ == seq!['"'] + s@ + seq!['"'],
{
    format!("{:?}", s)
}

/// What `{:?}` prints for a token kind.
pub open spec fn kind_debug(k: KindModel) -> Seq<char> {
    match k {
        KindModel::Axiom => "Axiom"@,
        KindModel::Schema => "Schema"@,
        KindModel::Ident(name) => "Ident("@ + quoted(name) + ")"@,
        KindModel::ForAll => "ForAll"@,
        KindModel::Exist => "Exist"@,
        KindModel::And => "And"@,
        KindModel::Or => "Or"@,
        KindModel::Not => "Not"@,
        KindModel::Impl => "Impl"@,
        KindModel::LParen => "LParen"@,
        KindModel::RParen => "RParen"@,
        KindModel::Number(n) => "Number("@ + signed_decimal(n as int) + ")"@,
        KindModel::Eq => "Eq"@,
        KindModel::Plus => "Plus"@,
        KindModel::Minus => "Minus"@,
        KindModel::Star => "Star"@,
        KindModel::Slash => "Slash"@,
        KindModel::Dot => "Dot"@,
        KindModel::Point => "Point"@,
        KindModel::Colon => "Colon"@,
        KindModel::EOF => "EOF"@,
    }
}

/// What `{}` prints for a token: its kind as `{:?}`, line, column padded to
/// width two, and length.
pub open spec fn token_text(t: TokenModel) -> Seq<char> {
    kind_debug(t.kind) + " at "@ + decimal(t.pos.line) + ":"@ + pad2(decimal(t.pos.column))
        + " (len="@ + decimal(t.len) + ")"@
}

// ============================================================================
// What the lexer reads, as plain functions of the text
// ============================================================================

/// Reading one character: the index moves on, the column too, and the line
/// after a line feed.
pub open spec fn step(cs: Seq<char>, p: Loc) -> Loc {
    if p.index < cs.len() {
        Loc {
            line: if cs[p.index as int] == '\n' { p.line + 1 } else { p.line },
            column: p.column + 1,
            index: p.index + 1,
        }
    } else {
        p
    }
}

/// Reading `n` characters.
pub open spec fn steps(cs: Seq<char>, p: Loc, n: nat) -> Loc
    decreases n,
{
    if n == 0 {
        p
    } else {
        step(cs, steps(cs, p, (n - 1) as nat))
    }
}

/// Skipping white space.
pub open spec fn skip_ws(cs: Seq<char>, p: Loc) -> Loc
    decreases cs.len() - p.index,
{
    if p.index < cs.len() && is_white_space(cs[p.index as int]) {
        skip_ws(cs, step(cs, p))
    } else {
        p
    }
}

/// A character that can start an identifier.
pub open spec fn ident_start(c: char) -> bool {
    ('a' <= c && c <= 'z') || ('A' <= c && c <= 'Z') || c == '_'
}

/// A character that can continue an identifier.
pub open spec fn ident_char(c: char) -> bool {
    is_alpha_numeric(c) || c == '_'
}

/// An ASCII decimal digit.
pub open spec fn ascii_digit(c: char) -> bool {
    '0' <= c && c <= '9'
}

/// How many identifier characters follow from index `i` on.
pub open spec fn ident_run(cs: Seq<char>, i: nat) -> nat
    decreases cs.len() - i,
{
    if i < cs.len() && ident_char(cs[i as int]) {
        1 + ident_run(cs, i + 1)
    } else {
        0
    }
}

/// How many ASCII digits follow from index `i` on.
pub open spec fn digit_run(cs: Seq<char>, i: nat) -> nat
    decreases cs.len() - i,
{
    if i < cs.len() && ascii_digit(cs[i as int]) {
        1 + digit_run(cs, i + 1)
    } else {
        0
    }
}

/// The value of a string of decimal digits.
pub open spec fn decimal_value(ds: Seq<char>) -> nat
    decreases ds.len(),
{
    if ds.len() == 0 {
        0
    } else {
        decimal_value(ds.drop_last()) * 10 + ((ds.last() as u32) - 48) as nat
    }
}

/// A word read as an identifier, or the keyword it spells.
pub open spec fn word_kind(w: Seq<char>) -> KindModel {
    if w == "axiom"@ {
        KindModel::Axiom
    } else if w == "schema"@ {
        KindModel::Schema
    } else if w == "forall"@ {
        KindModel::ForAll
    } else if w == "exist"@ {
        KindModel::Exist
    } else {
        KindModel::Ident(w)
    }
}

/// The token that a character makes on its own, for those that always do.
pub open spec fn single_kind(c: char) -> Option<KindModel> {
    if c == '=' {
        Some(KindModel::Eq)
    } else if c == '+' {
        Some(KindModel::Plus)
    } else if c == '*' {
        Some(KindModel::Star)
    } else if c == ',' {
        Some(KindModel::Dot)
    } else if c == '.' {
        Some(KindModel::Point)
    } else if c == ':' {
        Some(KindModel::Colon)
    } else if c == '(' {
        Some(KindModel::LParen)
    } else if c == ')' {
        Some(KindModel::RParen)
    } else if c == '~' {
        Some(KindModel::Not)
    } else {
        None
    }
}

/// The message for a character that starts no token.
pub open spec fn unexpected_message(c: char) -> Seq<char> {
    "unexpected character '"@ + seq![c] + "'"@
}

/// The message for a numeral whose value does not fit in an `i64`.
pub open spec fn too_large_message(ds: Seq<char>) -> Seq<char> {
    "number '"@ + ds + "' is too large for 64-bit number"@
}

/// The character after index `i`, if there is one.
pub open spec fn char_after(cs: Seq<char>, i: nat) -> Option<char> {
    if i + 1 < cs.len() {
        Some(cs[i + 1 as int])
    } else {
        None
    }
}

/// One step of the lexer from `p`: white space is skipped, then one token is
/// read, or an error is found. Also gives where reading stops.
pub open spec fn lex_step(cs: Seq<char>, p: Loc) -> (Result<TokenModel, ErrorModel>, Loc) {
    let s = skip_ws(cs, p);
    if s.index >= cs.len() {
        (Ok(TokenModel { kind: KindModel::EOF, pos: s, len: 0 }), s)
    } else {
        let c = cs[s.index as int];
        let next = char_after(cs, s.index);
        if single_kind(c) is Some {
            (Ok(TokenModel { kind: single_kind(c)->0, pos: s, len: 1 }), step(cs, s))
        } else if c == '-' {
            if next == Some('>') {
                (Ok(TokenModel { kind: KindModel::Impl, pos: s, len: 2 }), steps(cs, s, 2))
            } else {
                (Ok(TokenModel { kind: KindModel::Minus, pos: s, len: 1 }), step(cs, s))
            }
        } else if c == '/' {
            if next == Some('\\') {
                (Ok(TokenModel { kind: KindModel::And, pos: s, len: 2 }), steps(cs, s, 2))
            } else {
                (Ok(TokenModel { kind: KindModel::Slash, pos: s, len: 1 }), step(cs, s))
            }
        } else if c == '\\' {
            if next == Some('/') {
                (Ok(TokenModel { kind: KindModel::Or, pos: s, len: 2 }), steps(cs, s, 2))
            } else {
                // nothing is consumed: reading goes back to where the token began
                (Err(ErrorModel { message: unexpected_message(c), pos: s, len: 1 }), s)
            }
        } else if ident_start(c) {
            let n = 1 + ident_run(cs, s.index + 1);
            let word = cs.subrange(s.index as int, (s.index + n) as int);
            (Ok(TokenModel { kind: word_kind(word), pos: s, len: n }), steps(cs, s, n))
        } else if ascii_digit(c) {
            let n = 1 + digit_run(cs, s.index + 1);
            let ds = cs.subrange(s.index as int, (s.index + n) as int);
            if decimal_value(ds) <= i64::MAX {
                (
                    Ok(TokenModel { kind: KindModel::Number(decimal_value(ds) as i64), pos: s, len: n }),
                    steps(cs, s, n),
                )
            } else {
                (Err(ErrorModel { message: too_large_message(ds), pos: s, len: n }), steps(cs, s, n))
            }
        } else {
            (Err(ErrorModel { message: unexpected_message(c), pos: s, len: 1 }), step(cs, s))
        }
    }
}

/// The tokens and errors the lexer produces from `p` on. After an EOF token
/// it stops; after an error it skips one more character, and stops if that
/// passes the end of the text.
pub open spec fn lex_from(cs: Seq<char>, p: Loc) -> (Seq<TokenModel>, Seq<ErrorModel>)
    decreases cs.len() - p.index,
{
    let (r, q) = lex_step(cs, p);
    proof {
        lemma_lex_step_progress(cs, p);
    }
    match r {
        Ok(t) => {
            if t.kind is EOF {
                (seq![t], seq![])
            } else {
                let (ts, es) = lex_from(cs, q);
                (seq![t] + ts, es)
            }
        },
        Err(e) => {
            let q2 = Loc { index: q.index + 1, ..q };
            if q2.index >= cs.len() {
                (seq![], seq![e])
            } else {
                let (ts, es) = lex_from(cs, q2);
                (ts, seq![e] + es)
            }
        },
    }
}

/// The tokens and errors of a whole text.
pub open spec fn lex(cs: Seq<char>) -> (Seq<TokenModel>, Seq<ErrorModel>) {
    lex_from(cs, start_loc())
}

// ============================================================================
// Facts about reading
// ============================================================================

/// Reading `n` characters moves the index by `n`, up to the end of the text.
pub proof fn lemma_steps_index(cs: Seq<char>, p: Loc, n: nat)
    requires
        p.index <= cs.len(),
    ensures
        steps(cs, p, n).index == if p.index + n <= cs.len() { p.index + n } else { cs.len() },
    decreases n,
{
    if n > 0 {
        lemma_steps_index(cs, p, (n - 1) as nat);
    }
}

/// Skipping white space never moves back, and stops at the end of the text.
pub proof fn lemma_skip_ws_index(cs: Seq<char>, p: Loc)
    ensures
        p.index <= skip_ws(cs, p).index,
        p.index <= cs.len() ==> skip_ws(cs, p).index <= cs.len(),
        p.index >= cs.len() ==> skip_ws(cs, p) == p,
    decreases cs.len() - p.index,
{
    if p.index < cs.len() && is_white_space(cs[p.index as int]) {
        lemma_skip_ws_index(cs, step(cs, p));
    }
}

/// A run of identifier characters or digits stays inside the text.
pub proof fn lemma_runs_bounded(cs: Seq<char>, i: nat)
    ensures
        i <= cs.len() ==> i + ident_run(cs, i) <= cs.len(),
        i <= cs.len() ==> i + digit_run(cs, i) <= cs.len(),
    decreases cs.len() - i,
{
    if i < cs.len() {
        lemma_runs_bounded(cs, i + 1);
    }
}

/// A token that is not EOF moves past at least one character; an error
/// leaves reading no earlier than where it was; reading stays in the text.
pub proof fn lemma_lex_step_progress(cs: Seq<char>, p: Loc)
    ensures
        p.index <= cs.len() ==> {
            let (r, q) = lex_step(cs, p);
            &&& p.index <= q.index <= cs.len()
            &&& (r is Ok && !(r->Ok_0.kind is EOF)) ==> p.index < q.index
            &&& (r is Ok && r->Ok_0.kind is EOF) ==> q.index == cs.len()
        },
{
    if p.index <= cs.len() {
        let s = skip_ws(cs, p);
        lemma_skip_ws_index(cs, p);
        if s.index < cs.len() {
            lemma_steps_index(cs, s, 1);
            lemma_steps_index(cs, s, 2);
            lemma_runs_bounded(cs, s.index + 1);
            lemma_steps_index(cs, s, 1 + ident_run(cs, s.index + 1));
            lemma_steps_index(cs, s, 1 + digit_run(cs, s.index + 1));
        }
    }
}


// ============================================================================
// Candidate operators
// ============================================================================

/// The texts of a list of string slices.
pub open spec fn strs_view(v: Seq<&str>) -> Seq<Seq<char>> {
    v.map_values(|s: &str| s@)
}

/// `p` is a prefix of `s`.
pub open spec fn is_prefix(p: Seq<char>, s: Seq<char>) -> bool {
    p.len() <= s.len() && s.subrange(0, p.len() as int) == p
}

/// Some candidate starts with `p`.
pub open spec fn some_extends(p: Seq<char>, cands: Seq<Seq<char>>) -> bool {
    exists|i: int| 0 <= i < cands.len() && is_prefix(p, #[trigger] cands[i])
}

/// The first candidate from index `i` on that equals `p`.
pub open spec fn first_equal(p: Seq<char>, cands: Seq<Seq<char>>, i: nat) -> Option<nat>
    decreases cands.len() - i,
{
    if i >= cands.len() {
        None
    } else if cands[i as int] == p {
        Some(i)
    } else {
        first_equal(p, cands, i + 1)
    }
}

/// How far an operator starting at `start` extends: one more character is
/// taken as long as some candidate starts with what has been read.
pub open spec fn op_extent(cs: Seq<char>, start: nat, cands: Seq<Seq<char>>, k: nat) -> nat
    decreases cs.len() - (start + k),
{
    if start + k < cs.len() && some_extends(cs.subrange(start as int, (start + k + 1) as int), cands) {
        op_extent(cs, start, cands, k + 1)
    } else {
        k
    }
}

/// The longest of the first `k` prefixes of the operator that equals a
/// candidate: that candidate's index, and the prefix's length.
pub open spec fn op_best(cs: Seq<char>, start: nat, cands: Seq<Seq<char>>, k: nat) -> Option<(nat, nat)>
    decreases k,
{
    if k == 0 {
        None
    } else {
        match first_equal(cs.subrange(start as int, (start + k) as int), cands, 0) {
            Some(i) => Some((i, k)),
            None => op_best(cs, start, cands, (k - 1) as nat),
        }
    }
}

/// A lexer result as plain values.
pub open spec fn result_view(r: Result<Token, CompError>) -> Result<TokenModel, ErrorModel> {
    match r {
        Ok(t) => Ok(t@),
        Err(e) => Err(e@),
    }
}

// ============================================================================
// Executable tokens
// ============================================================================

impl Token {
    /// A token of the given kind, position and length.
    pub fn new(kind: TokenKind, pos: Position, len: usize) -> (t: Self)
        ensures
            t.kind == kind,
            t.pos == pos,
            t.len == len,
    {
        Token { kind, pos, len }
    }

    /// A copy of the token.
    pub fn duplicate(&self) -> (t: Token)
        ensures
            t@ == self@,
    {
        Token { kind: self.kind.duplicate(), pos: self.pos, len: self.len }
    }

    /// The text `{}` prints for the token.
    pub fn display_text(&self) -> (s: String)
        ensures
            s@ == token_text(self@),
    {
        let mut s = self.kind.debug_text();
        s.append(" at ");
        push_decimal(&mut s, self.pos.line as u64);
        s.append(":");
        push_decimal_width2(&mut s, self.pos.column);
        s.append(" (len=");
        push_decimal(&mut s, self.len as u64);
        s.append(")");
        s
    }
}

impl TokenKind {
    /// A copy of the kind.
    pub fn duplicate(&self) -> (k: TokenKind)
        ensures
            k@ == self@,
    {
        match self {
            TokenKind::Axiom => TokenKind::Axiom,
            TokenKind::Schema => TokenKind::Schema,
            TokenKind::Ident(s) => TokenKind::Ident(s.clone()),
            TokenKind::ForAll => TokenKind::ForAll,
            TokenKind::Exist => TokenKind::Exist,
            TokenKind::And => TokenKind::And,
            TokenKind::Or => TokenKind::Or,
            TokenKind::Not => TokenKind::Not,
            TokenKind::Impl => TokenKind::Impl,
            TokenKind::LParen => TokenKind::LParen,
            TokenKind::RParen => TokenKind::RParen,
            TokenKind::Number(n) => TokenKind::Number(*n),
            TokenKind::Eq => TokenKind::Eq,
            TokenKind::Plus => TokenKind::Plus,
            TokenKind::Minus => TokenKind::Minus,
            TokenKind::Star => TokenKind::Star,
            TokenKind::Slash => TokenKind::Slash,
            TokenKind::Dot => TokenKind::Dot,
            TokenKind::Point => TokenKind::Point,
            TokenKind::Colon => TokenKind::Colon,
            TokenKind::EOF => TokenKind::EOF,
        }
    }

    /// Whether two kinds are the same (identifiers by their names, numbers
    /// by their values).
    pub fn same_as(&self, other: &TokenKind) -> (r: bool)
        ensures
            r == (self@ == other@),
    {
        match (self, other) {
            (TokenKind::Ident(a), TokenKind::Ident(b)) => a.eq(b),
            (TokenKind::Number(a), TokenKind::Number(b)) => *a == *b,
            (TokenKind::Axiom, TokenKind::Axiom) => true,
            (TokenKind::Schema, TokenKind::Schema) => true,
            (TokenKind::ForAll, TokenKind::ForAll) => true,
            (TokenKind::Exist, TokenKind::Exist) => true,
            (TokenKind::And, TokenKind::And) => true,
            (TokenKind::Or, TokenKind::Or) => true,
            (TokenKind::Not, TokenKind::Not) => true,
            (TokenKind::Impl, TokenKind::Impl) => true,
            (TokenKind::LParen, TokenKind::LParen) => true,
            (TokenKind::RParen, TokenKind::RParen) => true,
            (TokenKind::Eq, TokenKind::Eq) => true,
            (TokenKind::Plus, TokenKind::Plus) => true,
            (TokenKind::Minus, TokenKind::Minus) => true,
            (TokenKind::Star, TokenKind::Star) => true,
            (TokenKind::Slash, TokenKind::Slash) => true,
            (TokenKind::Dot, TokenKind::Dot) => true,
            (TokenKind::Point, TokenKind::Point) => true,
            (TokenKind::Colon, TokenKind::Colon) => true,
            (TokenKind::EOF, TokenKind::EOF) => true,
            _ => false,
        }
    }

    /// The text `{}` prints for the kind.
    pub fn display_text(&self) -> (s: String)
        ensures
            s@ == kind_text(self@),
    {
        let mut s = String::new();
        match self {
            TokenKind::Axiom => s.append("axiom"),
            TokenKind::Schema => s.append("schema"),
            TokenKind::Ident(name) => s.append(name.as_str()),
            TokenKind::ForAll => s.append("forall"),
            TokenKind::Exist => s.append("exist"),
            TokenKind::And => {
                push_char(&mut s, '/');
                push_char(&mut s, '\\');
            },
            TokenKind::Or => {
                push_char(&mut s, '\\');
                push_char(&mut s, '/');
            },
            TokenKind::Not => s.append("~"),
            TokenKind::Impl => s.append("->"),
            TokenKind::LParen => s.append("("),
            TokenKind::RParen => s.append(")"),
            TokenKind::Number(n) => push_signed_decimal(&mut s, *n),
            TokenKind::Eq => s.append("="),
            TokenKind::Plus => s.append("+"),
            TokenKind::Minus => s.append("-"),
            TokenKind::Star => s.append("*"),
            TokenKind::Slash => s.append("/"),
            TokenKind::Dot => s.append(","),
            TokenKind::Point => s.append("."),
            TokenKind::Colon => s.append(":"),
            TokenKind::EOF => s.append("EOF"),
        }
        assert(s@ =~= kind_text(self@));
        s
    }

    /// The text `{:?}` prints for the kind.
    pub fn debug_text(&self) -> (s: String)
        ensures
            s@ == kind_debug(self@),
            (match self@ {
                KindModel::Ident(name) => plain_word(name) ==> s@ == "Ident("@ + seq!['"'] + name + seq!['"']
                    + ")"@,
                _ => true,
            }),
    {
        let mut s = String::new();
        match self {
            TokenKind::Axiom => s.append("Axiom"),
            TokenKind::Schema => s.append("Schema"),
            TokenKind::Ident(name) => {
                s.append("Ident(");
                let q = debug_quoted(name.as_str());
                s.append(q.as_str());
                s.append(")");
                assert(s@ =~= "Ident("@ + q@ + ")"@);
            },
            TokenKind::ForAll => s.append("ForAll"),
            TokenKind::Exist => s.append("Exist"),
            TokenKind::And => s.append("And"),
            TokenKind::Or => s.append("Or"),
            TokenKind::Not => s.append("Not"),
            TokenKind::Impl => s.append("Impl"),
            TokenKind::LParen => s.append("LParen"),
            TokenKind::RParen => s.append("RParen"),
            TokenKind::Number(n) => {
                s.append("Number(");
                push_signed_decimal(&mut s, *n);
                s.append(")");
            },
            TokenKind::Eq => s.append("Eq"),
            TokenKind::Plus => s.append("Plus"),
            TokenKind::Minus => s.append("Minus"),
            TokenKind::Star => s.append("Star"),
            TokenKind::Slash => s.append("Slash"),
            TokenKind::Dot => s.append("Dot"),
            TokenKind::Point => s.append("Point"),
            TokenKind::Colon => s.append("Colon"),
            TokenKind::EOF => s.append("EOF"),
        }
        assert(s@ =~= kind_debug(self@));
        s
    }
}


// ============================================================================
// The lexer
// ============================================================================

/// The result of reading one token.
pub type LexResult<T> = Result<T, CompError>;

/// A lexer over one text: the characters, where reading stands, and the
/// tokens and errors found so far.
pub struct Lexer {
    chars: Vec<char>,
    pos: Position,
    tokens: Vec<Token>,
    errors: Vec<CompError>,
}

/// Whether `c` is an ASCII decimal digit.
fn is_digit(c: char) -> (r: bool)
    ensures
        r == ascii_digit(c),
{
    '0' <= c && c <= '9'
}

/// Whether a string has the same characters as a string slice.
fn same_text(a: &String, b: &str) -> (r: bool)
    ensures
        r == (a@ == b@),
{
    let ac = str_chars(a.as_str());
    let bc = str_chars(b);
    if ac.len() != bc.len() {
        return false;
    }
    for i in 0..ac.len()
        invariant
            ac@ == a@,
            bc@ == b@,
            ac@.len() == bc@.len(),
            forall|j: int| 0 <= j < i ==> ac@[j] == bc@[j],
    {
        if ac[i] != bc[i] {
            return false;
        }
    }
    assert(ac@ =~= bc@);
    true
}

/// Whether `p` is a prefix of the text of `s`.
fn str_is_prefix(p: &Vec<char>, s: &str) -> (r: bool)
    ensures
        r == is_prefix(p@, s@),
{
    let sc = str_chars(s);
    if p.len() > sc.len() {
        return false;
    }
    for i in 0..p.len()
        invariant
            sc@ == s@,
            p@.len() <= sc@.len(),
            forall|j: int| 0 <= j < i ==> p@[j] == sc@[j],
    {
        if p[i] != sc[i] {
            assert(s@.subrange(0, p@.len() as int)[i as int] != p@[i as int]);
            return false;
        }
    }
    assert(s@.subrange(0, p@.len() as int) =~= p@);
    true
}

/// Whether some candidate starts with `p`.
fn some_candidate_extends(p: &Vec<char>, cands: &Vec<&str>) -> (r: bool)
    ensures
        r == some_extends(p@, strs_view(cands@)),
{
    let ghost cv = strs_view(cands@);
    for i in 0..cands.len()
        invariant
            cv == strs_view(cands@),
            forall|j: int| 0 <= j < i ==> !is_prefix(p@, #[trigger] cv[j]),
    {
        if str_is_prefix(p, cands[i]) {
            assert(is_prefix(p@, cv[i as int]));
            return true;
        }
    }
    false
}

/// The index of the first candidate equal to `p`.
fn position_equal(p: &Vec<char>, cands: &Vec<&str>) -> (r: Option<usize>)
    ensures
        r matches Some(i) ==> first_equal(p@, strs_view(cands@), 0) == Some(i as nat) && i < cands@.len(),
        r is None ==> first_equal(p@, strs_view(cands@), 0) is None,
{
    let ghost cv = strs_view(cands@);
    let mut i: usize = 0;
    while i < cands.len()
        invariant
            cv == strs_view(cands@),
            i <= cands@.len(),
            first_equal(p@, cv, 0) == first_equal(p@, cv, i as nat),
        decreases cands.len() - i,
    {
        let eq = str_is_prefix(p, cands[i]) && p.len() == cands[i].unicode_len();
        if eq {
            assert(cv[i as int] =~= p@);
            return Some(i);
        }
        assert(cv[i as int] != p@) by {
            if cv[i as int] == p@ {
                assert(cv[i as int].subrange(0, p@.len() as int) =~= p@);
            }
        }
        i = i + 1;
    }
    None
}

impl Lexer {
    /// The lexer's invariant: the text fits the machine's counters, and the
    /// cursor's line and column are within what reading can have reached.
    pub closed spec fn wf(&self) -> bool {
        &&& self.chars@.len() < usize::MAX
        &&& self.pos.index <= self.chars@.len() + 1
        &&& 1 <= self.pos.line <= self.pos.index + 1
        &&& 1 <= self.pos.column <= self.pos.index + 1
    }

    /// The text being read.
    pub closed spec fn text(&self) -> Seq<char> {
        self.chars@
    }

    /// Where reading stands.
    pub closed spec fn cursor(&self) -> Loc {
        self.pos@
    }

    /// The tokens found so far.
    pub closed spec fn found_tokens(&self) -> Seq<TokenModel> {
        tokens_view(self.tokens@)
    }

    /// The errors found so far.
    pub closed spec fn found_errors(&self) -> Seq<ErrorModel> {
        errors_view(self.errors@)
    }

    /// A lexer at the start of `source`, with nothing found yet.
    pub fn new(source: &str) -> (l: Self)
        requires
            source@.len() < usize::MAX,
        ensures
            l.wf(),
            l.text() == source@,
            l.cursor() == start_loc(),
            l.found_tokens() == Seq::<TokenModel>::empty(),
            l.found_errors() == Seq::<ErrorModel>::empty(),
    {
        let l = Lexer {
            chars: str_chars(source),
            pos: Position::new(),
            tokens: Vec::new(),
            errors: Vec::new(),
        };
        assert(tokens_view(l.tokens@) =~= Seq::<TokenModel>::empty());
        assert(errors_view(l.errors@) =~= Seq::<ErrorModel>::empty());
        l
    }

    /// Reads the whole rest of the text: the tokens (ending with EOF unless
    /// an error stopped reading at the end of the text) and the errors.
    pub fn tokenize(self) -> (out: (Vec<Token>, Vec<CompError>))
        requires
            self.wf(),
        ensures
            tokens_view(out.0@) == self.found_tokens() + lex_from(self.text(), self.cursor()).0,
            errors_view(out.1@) == self.found_errors() + lex_from(self.text(), self.cursor()).1,
    {
        let ghost cs = self.chars@;
        let ghost goal = lex_from(cs, self.pos@);
        let ghost t0 = tokens_view(self.tokens@);
        let ghost e0 = errors_view(self.errors@);
        let mut lx = self;
        loop
            invariant_except_break
                lx.wf(),
                lx.chars@ == cs,
                t0 + goal.0 == tokens_view(lx.tokens@) + lex_from(cs, lx.pos@).0,
                e0 + goal.1 == errors_view(lx.errors@) + lex_from(cs, lx.pos@).1,
            ensures
                tokens_view(lx.tokens@) == t0 + goal.0,
                errors_view(lx.errors@) == e0 + goal.1,
            decreases cs.len() + 1 - lx.pos.index,
        {
            proof {
                lemma_lex_step_progress(cs, lx.pos@);
            }
            let ghost ts = lx.tokens@;
            let ghost es = lx.errors@;
            match lx.next_token() {
                Ok(token) => {
                    let is_eof = matches!(token.kind, TokenKind::EOF);
                    lx.tokens.push(token);
                    proof {
                        assert(tokens_view(lx.tokens@) =~= tokens_view(ts).push(token@));
                    }
                    if is_eof {
                        assert(tokens_view(lx.tokens@) =~= t0 + goal.0);
                        break;
                    }
                    assert(tokens_view(lx.tokens@) + lex_from(cs, lx.pos@).0 =~= t0 + goal.0);
                },
                Err(err) => {
                    lx.errors.push(err);
                    proof {
                        assert(errors_view(lx.errors@) =~= errors_view(es).push(err@));
                    }
                    lx.pos = Position {
                        line: lx.pos.line,
                        column: lx.pos.column,
                        index: lx.pos.index + 1,
                    };
                    if lx.pos.index >= lx.chars.len() {
                        assert(errors_view(lx.errors@) =~= e0 + goal.1);
                        break;
                    }
                    assert(errors_view(lx.errors@) + lex_from(cs, lx.pos@).1 =~= e0 + goal.1);
                },
            }
        }
        (lx.tokens, lx.errors)
    }

    /// The character at the cursor, if any.
    fn peek_char(&self) -> (r: Option<char>)
        ensures
            r == (if self.pos.index < self.chars@.len() {
                Some(self.chars@[self.pos.index as int])
            } else {
                None
            }),
    {
        if self.pos.index < self.chars.len() {
            Some(self.chars[self.pos.index])
        } else {
            None
        }
    }

    /// Reads one character.
    fn next_char(&mut self) -> (r: Option<char>)
        requires
            old(self).wf(),
        ensures
            final(self).wf(),
            final(self).chars@ == old(self).chars@,
            final(self).tokens@ == old(self).tokens@,
            final(self).errors@ == old(self).errors@,
            final(self).pos@ == step(old(self).chars@, old(self).pos@),
            r == (if old(self).pos.index < old(self).chars@.len() {
                Some(old(self).chars@[old(self).pos.index as int])
            } else {
                None
            }),
    {
        let ch = self.peek_char();
        if let Some(c) = ch {
            let line = if c == '\n' {
                self.pos.line + 1
            } else {
                self.pos.line
            };
            self.pos = Position { line, column: self.pos.column + 1, index: self.pos.index + 1 };
        }
        ch
    }

    /// Skips white space.
    fn skip_whitespace(&mut self)
        requires
            old(self).wf(),
        ensures
            final(self).wf(),
            final(self).chars@ == old(self).chars@,
            final(self).tokens@ == old(self).tokens@,
            final(self).errors@ == old(self).errors@,
            final(self).pos@ == skip_ws(old(self).chars@, old(self).pos@),
    {
        let ghost cs = self.chars@;
        let ghost goal = skip_ws(cs, self.pos@);
        loop
            invariant_except_break
                self.wf(),
                self.chars@ == cs,
                self.tokens@ == old(self).tokens@,
                self.errors@ == old(self).errors@,
                skip_ws(cs, self.pos@) == goal,
            ensures
                self.wf(),
                self.chars@ == cs,
                self.tokens@ == old(self).tokens@,
                self.errors@ == old(self).errors@,
                self.pos@ == goal,
            decreases cs.len() + 1 - self.pos.index,
        {
            match self.peek_char() {
                Some(ch) => {
                    if !char_is_whitespace(ch) {
                        break;
                    }
                    self.next_char();
                },
                None => break,
            }
        }
    }

    /// Reads the next token, or finds an error.
    fn next_token(&mut self) -> (r: LexResult<Token>)
        requires
            old(self).wf(),
        ensures
            final(self).wf(),
            final(self).chars@ == old(self).chars@,
            final(self).tokens@ == old(self).tokens@,
            final(self).errors@ == old(self).errors@,
            (result_view(r), final(self).pos@) == lex_step(old(self).chars@, old(self).pos@),
    {
        let ghost cs = self.chars@;
        self.skip_whitespace();
        proof {
            lemma_skip_ws_index(cs, old(self).pos@);
        }
        let start_pos = self.pos;
        let ch = match self.next_char() {
            None => {
                return Ok(self.make_token(TokenKind::EOF, start_pos, 0));
            },
            Some(c) => c,
        };
        let ghost s = start_pos@;
        proof {
            lemma_steps_index(cs, s, 1);
            lemma_steps_index(cs, s, 2);
            assert(steps(cs, s, 0) == s);
            assert(steps(cs, s, 1) == step(cs, s));
        }
        match ch {
            '=' => Ok(self.make_token(TokenKind::Eq, start_pos, 1)),
            '+' => Ok(self.make_token(TokenKind::Plus, start_pos, 1)),
            '-' => {
                let candidates = vec!["-", "->"];
                let kinds = vec![TokenKind::Minus, TokenKind::Impl];
                proof {
                    reveal_strlit("-");
                    reveal_strlit("->");
                    assert(candidates@.len() == 2);
                    assert("-"@ =~= seq!['-']);
                    assert("->"@ =~= seq!['-', '>']);
                    assert(strs_view(candidates@) =~= seq![seq!['-'], seq!['-', '>']]);
                    lemma_two_candidates(cs, s.index, '-', '>');
                    assert(kinds@[0]@ == KindModel::Minus && kinds@[1]@ == KindModel::Impl);
                }
                self.read_potential_many_digit_operator(start_pos, ch, candidates, kinds)
            },
            '*' => Ok(self.make_token(TokenKind::Star, start_pos, 1)),
            '/' => {
                let candidates = vec!["/", "/\\"];
                let kinds = vec![TokenKind::Slash, TokenKind::And];
                proof {
                    reveal_strlit("/");
                    reveal_strlit("/\\");
                    assert(candidates@.len() == 2);
                    assert("/"@ =~= seq!['/']);
                    assert("/\\"@ =~= seq!['/', '\\']);
                    assert(strs_view(candidates@) =~= seq![seq!['/'], seq!['/', '\\']]);
                    lemma_two_candidates(cs, s.index, '/', '\\');
                    assert(kinds@[0]@ == KindModel::Slash && kinds@[1]@ == KindModel::And);
                }
                self.read_potential_many_digit_operator(start_pos, ch, candidates, kinds)
            },
            ',' => Ok(self.make_token(TokenKind::Dot, start_pos, 1)),
            '.' => Ok(self.make_token(TokenKind::Point, start_pos, 1)),
            ':' => Ok(self.make_token(TokenKind::Colon, start_pos, 1)),
            '(' => Ok(self.make_token(TokenKind::LParen, start_pos, 1)),
            ')' => Ok(self.make_token(TokenKind::RParen, start_pos, 1)),
            '~' => Ok(self.make_token(TokenKind::Not, start_pos, 1)),
            '\\' => {
                let candidates = vec!["\\/"];
                let kinds = vec![TokenKind::Or];
                proof {
                    reveal_strlit("\\/");
                    assert(candidates@.len() == 1);
                    assert("\\/"@ =~= seq!['\\', '/']);
                    assert(strs_view(candidates@) =~= seq![seq!['\\', '/']]);
                    lemma_one_candidate(cs, s.index, '\\', '/');
                }
                self.read_potential_many_digit_operator(start_pos, ch, candidates, kinds)
            },
            'a'..='z' | 'A'..='Z' | '_' => self.read_identifier_or_keyword(start_pos, ch),
            '0'..='9' => self.read_number(start_pos, ch),
            _ => Err(unexpected_char_error(ch, start_pos)),
        }
    }

    /// Reads an operator that may span several characters: characters are
    /// taken while some candidate starts with what has been read; the token
    /// is the candidate equal to the longest part read. With none, reading
    /// goes back to `start_pos` and `first` is reported.
    fn read_potential_many_digit_operator(
        &mut self,
        start_pos: Position,
        first: char,
        candidates: Vec<&str>,
        candidates_kind: Vec<TokenKind>,
    ) -> (r: LexResult<Token>)
        requires
            old(self).wf(),
            old(self).pos@ == step(old(self).chars@, start_pos@),
            start_pos.index < old(self).chars@.len(),
            old(self).chars@[start_pos.index as int] == first,
            1 <= start_pos.line <= start_pos.index + 1,
            1 <= start_pos.column <= start_pos.index + 1,
            candidates@.len() <= candidates_kind@.len(),
        ensures
            final(self).wf(),
            final(self).chars@ == old(self).chars@,
            final(self).tokens@ == old(self).tokens@,
            final(self).errors@ == old(self).errors@,
            ({
                let cs = old(self).chars@;
                let cands = strs_view(candidates@);
                let k = op_extent(cs, start_pos.index as nat, cands, 1);
                match op_best(cs, start_pos.index as nat, cands, k) {
                    None => {
                        &&& result_view(r) == Err::<TokenModel, ErrorModel>(
                            ErrorModel { message: unexpected_message(first), pos: start_pos@, len: 1 },
                        )
                        &&& final(self).pos == start_pos
                    },
                    Some((i, m)) => {
                        &&& result_view(r) == Ok::<TokenModel, ErrorModel>(
                            TokenModel { kind: candidates_kind@[i as int]@, pos: start_pos@, len: m },
                        )
                        &&& final(self).pos@ == steps(cs, start_pos@, k)
                    },
                }
            }),
    {
        let ghost cs = self.chars@;
        let ghost cands = strs_view(candidates@);
        let ghost st = start_pos.index as nat;
        let mut operator: Vec<char> = Vec::new();
        operator.push(first);
        let mut len: usize = 1;
        let mut last_token: Option<Token> = None;
        proof {
            assert(operator@ =~= cs.subrange(st as int, (st + 1) as int));
            assert(steps(cs, start_pos@, 0) == start_pos@);
            assert(steps(cs, start_pos@, 1) == step(cs, start_pos@));
        }
        if let Some(idx) = position_equal(&operator, &candidates) {
            last_token = Some(self.make_token(candidates_kind[idx].duplicate(), start_pos, len));
        }
        proof {
            assert(op_best(cs, st, cands, 0) is None);
        }
        loop
            invariant_except_break
                self.wf(),
                self.chars@ == cs,
                self.tokens@ == old(self).tokens@,
                self.errors@ == old(self).errors@,
                cands == strs_view(candidates@),
                candidates@.len() <= candidates_kind@.len(),
                st == start_pos.index,
                st + len <= cs.len(),
                1 <= len,
                operator@ == cs.subrange(st as int, (st + len) as int),
                self.pos@ == steps(cs, start_pos@, len as nat),
                op_extent(cs, st, cands, 1) == op_extent(cs, st, cands, len as nat),
                match op_best(cs, st, cands, len as nat) {
                    None => last_token is None,
                    Some((i, m)) => last_token matches Some(t) && t@ == TokenModel {
                        kind: candidates_kind@[i as int]@,
                        pos: start_pos@,
                        len: m,
                    },
                },
            ensures
                self.wf(),
                self.chars@ == cs,
                self.tokens@ == old(self).tokens@,
                self.errors@ == old(self).errors@,
                st + len <= cs.len(),
                self.pos@ == steps(cs, start_pos@, len as nat),
                op_extent(cs, st, cands, 1) == len,
                match op_best(cs, st, cands, len as nat) {
                    None => last_token is None,
                    Some((i, m)) => last_token matches Some(t) && t@ == TokenModel {
                        kind: candidates_kind@[i as int]@,
                        pos: start_pos@,
                        len: m,
                    },
                },
            decreases cs.len() - st - len,
        {
            proof {
                lemma_steps_index(cs, start_pos@, len as nat);
            }
            match self.peek_char() {
                None => {
                    break;
                },
                Some(next) => {
                    let mut operator_new = operator.clone();
                    operator_new.push(next);
                    proof {
                        assert(operator_new@ =~= cs.subrange(st as int, st + len + 1));
                    }
                    if some_candidate_extends(&operator_new, &candidates) {
                        if let Some(idx) = position_equal(&operator_new, &candidates) {
                            last_token = Some(
                                self.make_token(candidates_kind[idx].duplicate(), start_pos, len + 1),
                            );
                        }
                        operator.push(next);
                        self.next_char();
                        len += 1;
                    } else {
                        break;
                    }
                },
            }
        }
        match last_token {
            None => {
                self.pos = start_pos;
                Err(unexpected_char_error(first, start_pos))
            },
            Some(t) => {
                self.pos = t.pos;
                for j in 0..len
                    invariant
                        self.wf(),
                        self.chars@ == cs,
                        self.tokens@ == old(self).tokens@,
                        self.errors@ == old(self).errors@,
                        self.pos@ == steps(cs, start_pos@, j as nat),
                {
                    self.next_char();
                }
                Ok(t)
            },
        }
    }

    /// Reads an identifier, or the keyword it spells.
    fn read_identifier_or_keyword(&mut self, start_pos: Position, first: char) -> (r: LexResult<Token>)
        requires
            old(self).wf(),
            old(self).pos@ == step(old(self).chars@, start_pos@),
            start_pos.index < old(self).chars@.len(),
            old(self).chars@[start_pos.index as int] == first,
        ensures
            final(self).wf(),
            final(self).chars@ == old(self).chars@,
            final(self).tokens@ == old(self).tokens@,
            final(self).errors@ == old(self).errors@,
            ({
                let cs = old(self).chars@;
                let n = 1 + ident_run(cs, (start_pos.index + 1) as nat);
                let word = cs.subrange(start_pos.index as int, (start_pos.index + n) as int);
                &&& result_view(r) == Ok::<TokenModel, ErrorModel>(
                    TokenModel { kind: word_kind(word), pos: start_pos@, len: n },
                )
                &&& final(self).pos@ == steps(cs, start_pos@, n)
            }),
    {
        let ghost cs = self.chars@;
        let ghost st = start_pos.index as nat;
        let mut ident = String::new();
        push_char(&mut ident, first);
        let mut len: usize = 1;
        proof {
            assert(ident@ =~= cs.subrange(st as int, (st + 1) as int));
            assert(steps(cs, start_pos@, 0) == start_pos@);
            assert(steps(cs, start_pos@, 1) == step(cs, start_pos@));
        }
        loop
            invariant_except_break
                self.wf(),
                self.chars@ == cs,
                self.tokens@ == old(self).tokens@,
                self.errors@ == old(self).errors@,
                st == start_pos.index,
                st + len <= cs.len(),
                1 <= len,
                ident@ == cs.subrange(st as int, (st + len) as int),
                self.pos@ == steps(cs, start_pos@, len as nat),
                ident_run(cs, st + 1) == (len - 1) + ident_run(cs, (st + len) as nat),
            ensures
                self.wf(),
                self.chars@ == cs,
                self.tokens@ == old(self).tokens@,
                self.errors@ == old(self).errors@,
                st + len <= cs.len(),
                ident@ == cs.subrange(st as int, (st + len) as int),
                self.pos@ == steps(cs, start_pos@, len as nat),
                ident_run(cs, st + 1) == len - 1,
            decreases cs.len() - st - len,
        {
            proof {
                lemma_steps_index(cs, start_pos@, len as nat);
            }
            match self.peek_char() {
                Some(next) => {
                    if char_is_alphanumeric(next) || next == '_' {
                        push_char(&mut ident, next);
                        self.next_char();
                        len += 1;
                        proof {
                            assert(ident@ =~= cs.subrange(st as int, (st + len) as int));
                        }
                    } else {
                        break;
                    }
                },
                None => {
                    break;
                },
            }
        }
        let kind = if same_text(&ident, "axiom") {
            TokenKind::Axiom
        } else if same_text(&ident, "schema") {
            TokenKind::Schema
        } else if same_text(&ident, "forall") {
            TokenKind::ForAll
        } else if same_text(&ident, "exist") {
            TokenKind::Exist
        } else {
            TokenKind::Ident(ident)
        };
        Ok(self.make_token(kind, start_pos, len))
    }

    /// Reads a numeral: a run of ASCII digits, whose value must fit in an `i64`.
    fn read_number(&mut self, start_pos: Position, first: char) -> (r: LexResult<Token>)
        requires
            old(self).wf(),
            old(self).pos@ == step(old(self).chars@, start_pos@),
            start_pos.index < old(self).chars@.len(),
            old(self).chars@[start_pos.index as int] == first,
            ascii_digit(first),
        ensures
            final(self).wf(),
            final(self).chars@ == old(self).chars@,
            final(self).tokens@ == old(self).tokens@,
            final(self).errors@ == old(self).errors@,
            ({
                let cs = old(self).chars@;
                let n = 1 + digit_run(cs, (start_pos.index + 1) as nat);
                let ds = cs.subrange(start_pos.index as int, (start_pos.index + n) as int);
                &&& result_view(r) == if decimal_value(ds) <= i64::MAX {
                    Ok::<TokenModel, ErrorModel>(
                        TokenModel { kind: KindModel::Number(decimal_value(ds) as i64), pos: start_pos@, len: n },
                    )
                } else {
                    Err(ErrorModel { message: too_large_message(ds), pos: start_pos@, len: n })
                }
                &&& final(self).pos@ == steps(cs, start_pos@, n)
            }),
    {
        let ghost cs = self.chars@;
        let ghost st = start_pos.index as nat;
        let mut number = String::new();
        push_char(&mut number, first);
        let mut len: usize = 1;
        proof {
            assert(number@ =~= cs.subrange(st as int, (st + 1) as int));
            assert(steps(cs, start_pos@, 0) == start_pos@);
            assert(steps(cs, start_pos@, 1) == step(cs, start_pos@));
        }
        loop
            invariant_except_break
                self.wf(),
                self.chars@ == cs,
                self.tokens@ == old(self).tokens@,
                self.errors@ == old(self).errors@,
                st == start_pos.index,
                st + len <= cs.len(),
                1 <= len,
                number@ == cs.subrange(st as int, (st + len) as int),
                self.pos@ == steps(cs, start_pos@, len as nat),
                digit_run(cs, st + 1) == (len - 1) + digit_run(cs, (st + len) as nat),
            ensures
                self.wf(),
                self.chars@ == cs,
                self.tokens@ == old(self).tokens@,
                self.errors@ == old(self).errors@,
                st + len <= cs.len(),
                number@ == cs.subrange(st as int, (st + len) as int),
                self.pos@ == steps(cs, start_pos@, len as nat),
                digit_run(cs, st + 1) == len - 1,
            decreases cs.len() - st - len,
        {
            proof {
                lemma_steps_index(cs, start_pos@, len as nat);
            }
            match self.peek_char() {
                Some(next) => {
                    if is_digit(next) {
                        push_char(&mut number, next);
                        self.next_char();
                        len += 1;
                        proof {
                            assert(number@ =~= cs.subrange(st as int, (st + len) as int));
                        }
                    } else {
                        break;
                    }
                },
                None => {
                    break;
                },
            }
        }
        proof {
            lemma_digit_run_all_digits(cs, st + 1, (len - 1) as nat);
            assert forall|i: int| 0 <= i < number@.len() implies ascii_digit(#[trigger] number@[i]) by {
                assert(number@[i] == cs[st + i]);
            }
        }
        match parse_digits(&number) {
            Some(val) => Ok(self.make_token(TokenKind::Number(val), start_pos, len)),
            None => Err(too_large_error(&number, start_pos, len)),
        }
    }

    /// A token of the given kind, starting at `start_pos` and spanning `len`
    /// characters.
    fn make_token(&self, kind: TokenKind, start_pos: Position, len: usize) -> (t: Token)
        ensures
            t.kind == kind,
            t.pos == start_pos,
            t.len == len,
    {
        Token::new(kind, start_pos, len)
    }
}


/// The error for a character that starts no token.
fn unexpected_char_error(c: char, pos: Position) -> (e: CompError)
    ensures
        e@ == (ErrorModel { message: unexpected_message(c), pos: pos@, len: 1 }),
{
    let mut message = String::new();
    message.append("unexpected character '");
    push_char(&mut message, c);
    message.append("'");
    assert(message@ =~= unexpected_message(c));
    CompError::new(message, pos, 1)
}

/// The error for a numeral too large for an `i64`.
fn too_large_error(number: &String, pos: Position, len: usize) -> (e: CompError)
    ensures
        e@ == (ErrorModel { message: too_large_message(number@), pos: pos@, len: len as nat }),
{
    let mut message = String::new();
    message.append("number '");
    message.append(number.as_str());
    message.append("' is too large for 64-bit number");
    assert(message@ =~= too_large_message(number@));
    CompError::new(message, pos, len)
}

/// The value of a string of ASCII digits, if it fits in an `i64`.
fn parse_digits(number: &String) -> (r: Option<i64>)
    requires
        forall|i: int| 0 <= i < number@.len() ==> ascii_digit(#[trigger] number@[i]),
    ensures
        r == if decimal_value(number@) <= i64::MAX {
            Some(decimal_value(number@) as i64)
        } else {
            None::<i64>
        },
{
    let ds = str_chars(number.as_str());
    let mut acc: i64 = 0;
    for i in 0..ds.len()
        invariant
            ds@ == number@,
            forall|j: int| 0 <= j < ds@.len() ==> ascii_digit(#[trigger] ds@[j]),
            acc >= 0,
            acc as nat == decimal_value(ds@.take(i as int)),
    {
        let d = (ds[i] as u32 - 48) as i64;
        proof {
            assert(ds@.take(i + 1).drop_last() =~= ds@.take(i as int));
            assert(ds@.take(i + 1).last() == ds@[i as int]);
            assert(ascii_digit(ds@[i as int]));
            assert((ds@[i as int] as u32) >= 48);
            assert(d >= 0);
            assert(d == (ds@[i as int] as u32) - 48);
            assert(decimal_value(ds@.take(i + 1)) == decimal_value(ds@.take(i as int)) * 10 + ((ds@[i as int] as u32) - 48) as nat);
            assert(((ds@[i as int] as u32) - 48) as nat == d);
            assert(decimal_value(ds@.take(i as int)) == acc);
            assert(decimal_value(ds@.take(i + 1)) == acc * 10 + d);
            lemma_decimal_value_monotone(ds@, (i + 1) as nat, ds@.len());
            assert(ds@.take(ds@.len() as int) =~= ds@);
        }
        match acc.checked_mul(10) {
            None => {
                return None;
            },
            Some(m) => match m.checked_add(d) {
                None => {
                    return None;
                },
                Some(v) => {
                    acc = v;
                },
            },
        }
    }
    assert(ds@.take(ds@.len() as int) =~= ds@);
    Some(acc)
}

/// The value of a prefix of a digit string is at most the value of a
/// longer prefix.
pub proof fn lemma_decimal_value_monotone(ds: Seq<char>, j: nat, k: nat)
    requires
        j <= k <= ds.len(),
        forall|i: int| 0 <= i < ds.len() ==> ascii_digit(#[trigger] ds[i]),
    ensures
        decimal_value(ds.take(j as int)) <= decimal_value(ds.take(k as int)),
    decreases k - j,
{
    if j < k {
        lemma_decimal_value_monotone(ds, j, (k - 1) as nat);
        assert(ds.take(k as int).drop_last() =~= ds.take(k - 1));
    }
}

/// A run of digits found by `digit_run` holds only digits.
pub proof fn lemma_digit_run_all_digits(cs: Seq<char>, i: nat, n: nat)
    requires
        n <= digit_run(cs, i),
    ensures
        forall|j: int| i <= j < i + n ==> ascii_digit(#[trigger] cs[j]),
    decreases n,
{
    if n > 0 {
        lemma_digit_run_all_digits(cs, i + 1, (n - 1) as nat);
    }
}

/// The operator scan for candidates `[c0]` and `[c0, c1]`, from a `c0`.
pub proof fn lemma_two_candidates(cs: Seq<char>, st: nat, c0: char, c1: char)
    requires
        st < cs.len(),
        cs[st as int] == c0,
    ensures
        ({
            let cands = seq![seq![c0], seq![c0, c1]];
            let k = op_extent(cs, st, cands, 1);
            &&& k == if char_after(cs, st) == Some(c1) { 2nat } else { 1nat }
            &&& op_best(cs, st, cands, k) == if char_after(cs, st) == Some(c1) {
                Some((1nat, 2nat))
            } else {
                Some((0nat, 1nat))
            }
        }),
{
    let cands = seq![seq![c0], seq![c0, c1]];
    let s1 = cs.subrange(st as int, st + 1 as int);
    assert(s1 =~= seq![c0]);
    assert(first_equal(s1, cands, 0) == Some(0nat));
    assert(op_best(cs, st, cands, 1) == Some((0nat, 1nat)));
    if st + 1 < cs.len() {
        let s2 = cs.subrange(st as int, st + 2 as int);
        if cs[st + 1 as int] == c1 {
            assert(s2 =~= seq![c0, c1]);
            assert(cands[1].subrange(0, 2) =~= s2);
            assert(is_prefix(s2, cands[1]));
            if st + 2 < cs.len() {
                let s3 = cs.subrange(st as int, st + 3 as int);
                assert forall|i: int| 0 <= i < cands.len() implies !is_prefix(s3, #[trigger] cands[i]) by {}
            }
            assert(op_extent(cs, st, cands, 2) == 2);
            assert(cands[0] != s2) by {
                assert(cands[0].len() != s2.len());
            }
            assert(first_equal(s2, cands, 1) == Some(1nat));
            assert(first_equal(s2, cands, 0) == Some(1nat));
        } else {
            assert forall|i: int| 0 <= i < cands.len() implies !is_prefix(s2, #[trigger] cands[i]) by {
                if i == 1 && is_prefix(s2, cands[i]) {
                    assert(cands[i].subrange(0, 2)[1] == s2[1]);
                }
            }
        }
    }
}

/// The operator scan for the single candidate `[c0, c1]`, from a `c0`.
pub proof fn lemma_one_candidate(cs: Seq<char>, st: nat, c0: char, c1: char)
    requires
        st < cs.len(),
        cs[st as int] == c0,
    ensures
        ({
            let cands = seq![seq![c0, c1]];
            let k = op_extent(cs, st, cands, 1);
            &&& k == if char_after(cs, st) == Some(c1) { 2nat } else { 1nat }
            &&& op_best(cs, st, cands, k) == if char_after(cs, st) == Some(c1) {
                Some((0nat, 2nat))
            } else {
                None::<(nat, nat)>
            }
        }),
{
    let cands = seq![seq![c0, c1]];
    let s1 = cs.subrange(st as int, st + 1 as int);
    assert(s1 =~= seq![c0]);
    assert(cands[0] != s1) by {
        assert(cands[0].len() != s1.len());
    }
    assert(first_equal(s1, cands, 1) is None);
    assert(first_equal(s1, cands, 0) is None);
    assert(op_best(cs, st, cands, 0) is None);
    assert(op_best(cs, st, cands, 1) is None);
    if st + 1 < cs.len() {
        let s2 = cs.subrange(st as int, st + 2 as int);
        if cs[st + 1 as int] == c1 {
            assert(s2 =~= seq![c0, c1]);
            assert(cands[0].subrange(0, 2) =~= s2);
            assert(is_prefix(s2, cands[0]));
            if st + 2 < cs.len() {
                let s3 = cs.subrange(st as int, st + 3 as int);
                assert forall|i: int| 0 <= i < cands.len() implies !is_prefix(s3, #[trigger] cands[i]) by {}
            }
            assert(op_extent(cs, st, cands, 2) == 2);
            assert(first_equal(s2, cands, 0) == Some(0nat));
        } else {
            assert forall|i: int| 0 <= i < cands.len() implies !is_prefix(s2, #[trigger] cands[i]) by {
                if is_prefix(s2, cands[i]) {
                    assert(cands[i].subrange(0, 2)[1] == s2[1]);
                }
            }
        }
    }
}

} // verus!
