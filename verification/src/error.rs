//! Source positions and the errors that the lexer and the parser report.
use vstd::prelude::*;
use vstd::utf8::encode_utf8;
use crate::text::{decimal, push_char, push_decimal, str_chars};

verus! {

/// A place in the source text: 1-based line and column, 0-based char index.
#[derive(Debug, Clone, Copy, PartialEq, Eq, Structural)]
pub struct Position {
    pub line: usize,
    pub column: usize,
    pub index: usize,
}

/// A position as plain numbers.
pub struct Loc {
    pub line: nat,
    pub column: nat,
    pub index: nat,
}

impl View for Position {
    type V = Loc;

    open spec fn view(&self) -> Loc {
        Loc { line: self.line as nat, column: self.column as nat, index: self.index as nat }
    }
}

/// The position where every text begins.
pub open spec fn start_loc() -> Loc {
    Loc { line: 1, column: 1, index: 0 }
}

impl Position {
    /// The start of a text: line 1, column 1, index 0.
    pub fn new() -> (p: Self)
        ensures
            p@ == start_loc(),
            p == (Position { line: 1, column: 1, index: 0 }),
    {
        Position { line: 1, column: 1, index: 0 }
    }
}

/// An error: its message, where it starts, and how many characters it covers.
#[derive(Debug, Clone)]
pub struct CompError {
    pub message: String,
    pub pos: Position,
    pub len: usize,
}

/// An error as plain values.
pub struct ErrorModel {
    pub message: Seq<char>,
    pub pos: Loc,
    pub len: nat,
}

impl View for CompError {
    type V = ErrorModel;

    open spec fn view(&self) -> ErrorModel {
        ErrorModel { message: self.message@, pos: self.pos@, len: self.len as nat }
    }
}

/// The views of a sequence of errors.
pub open spec fn errors_view(es: Seq<CompError>) -> Seq<ErrorModel> {
    es.map_values(|e: CompError| e@)
}

/// Drops one trailing carriage return.
pub open spec fn strip_cr(l: Seq<char>) -> Seq<char> {
    if l.len() > 0 && l.last() == '\r' {
        l.drop_last()
    } else {
        l
    }
}

/// Reading a text left to right: the lines finished so far (each ended by a
/// line feed, with a carriage return before it dropped) and the line in
/// progress.
pub open spec fn line_split(s: Seq<char>) -> (Seq<Seq<char>>, Seq<char>)
    decreases s.len(),
{
    if s.len() == 0 {
        (seq![], seq![])
    } else {
        let (done, cur) = line_split(s.drop_last());
        if s.last() == '\n' {
            (done.push(strip_cr(cur)), seq![])
        } else {
            (done, cur.push(s.last()))
        }
    }
}

/// The lines of a text as `str::lines` gives them: split at "\n" or "\r\n",
/// the last line ending being optional.
pub open spec fn text_lines(s: Seq<char>) -> Seq<Seq<char>> {
    let (done, cur) = line_split(s);
    if cur.len() > 0 {
        done.push(cur)
    } else {
        done
    }
}

/// `n` copies of a character.
pub open spec fn repeat_char(c: char, n: nat) -> Seq<char> {
    Seq::new(n, |i: int| c)
}

/// What `pretty_print` renders for an error at line `line` (1-based), column
/// `column`, covering `len` characters, with message `msg`, in `source`.
pub open spec fn pretty_text(msg: Seq<char>, line: nat, column: nat, len: nat, source: Seq<char>) -> Seq<char> {
    let lines = text_lines(source);
    let line_idx = line - 1;
    if line_idx >= lines.len() {
        "Error at position "@ + decimal(line) + ": "@ + msg
    } else {
        let l = lines[line_idx];
        // the byte length of the line (what `str::len` reports)
        let bytes = encode_utf8(l).len() as usize;
        let column_start = column - 1;
        let column_end = if column + len - 1 < bytes { column + len - 1 } else { bytes as int };
        let marks = if column_start < bytes {
            " "@ + repeat_char(' ', column_start as nat) + repeat_char(
                '^',
                if column_end > column_start { (column_end - column_start) as nat } else { 0 },
            ) + "\n"@
        } else {
            seq![]
        };
        "--> input:"@ + decimal(line) + ":"@ + decimal(column) + "\n"@ + " "@ + l + "\n"@ + marks
            + "error: "@ + msg + "\n"@
    }
}

impl CompError {
    /// An error with the given message, position and length.
    pub fn new(message: String, pos: Position, len: usize) -> (e: Self)
        ensures
            e.message == message,
            e.pos == pos,
            e.len == len,
    {
        CompError { message, pos, len }
    }

    /// Renders the error with the line of `source` it points into, and
    /// carets under the characters it covers.
    pub fn pretty_print(&self, source: &str) -> (out: String)
        requires
            self.pos.line >= 1,
            self.pos.line - 1 < text_lines(source@).len() ==> self.pos.column >= 1
                && self.pos.column + self.len <= usize::MAX,
        ensures
            out@ == pretty_text(
                self.message@,
                self.pos.line as nat,
                self.pos.column as nat,
                self.len as nat,
                source@,
            ),
    {
        let lines = source_lines(source);
        let line_idx = self.pos.line - 1;
        let mut result = String::new();
        if line_idx >= lines.len() {
            result.append("Error at position ");
            push_decimal(&mut result, self.pos.line as u64);
            result.append(": ");
            result.append(self.message.as_str());
            return result;
        }
        let line = &lines[line_idx];
        let line_len = line.as_str().len();
        assert(line@ == text_lines(source@)[line_idx as int]);
        assert(line_len == encode_utf8(line@).len() as usize);
        let column_start = self.pos.column - 1;
        let column_end = if self.pos.column + self.len - 1 < line_len {
            self.pos.column + self.len - 1
        } else {
            line_len
        };
        result.append("--> input:");
        push_decimal(&mut result, self.pos.line as u64);
        result.append(":");
        push_decimal(&mut result, self.pos.column as u64);
        result.append("\n");
        result.append(" ");
        result.append(line.as_str());
        result.append("\n");
        let ghost before_marks = result@;
        assert(before_marks =~= "--> input:"@ + decimal(self.pos.line as nat) + ":"@ + decimal(self.pos.column as nat) + "\n"@ + " "@ + line@ + "\n"@);
        if column_start < line_len {
            result.append(" ");
            let ghost base = result@;
            for _i in 0..column_start
                invariant
                    result@ == base + repeat_char(' ', _i as nat),
            {
                push_char(&mut result, ' ');
                assert(result@ =~= base + repeat_char(' ', (_i + 1) as nat));
            }
            let ghost base2 = result@;
            let upper = if column_end < line_len { column_end } else { line_len };
            for _j in column_start..upper
                invariant
                    column_start <= _j,
                    result@ == base2 + repeat_char('^', (_j - column_start) as nat),
            {
                push_char(&mut result, '^');
                assert(result@ =~= base2 + repeat_char('^', (_j + 1 - column_start) as nat));
            }
            assert(result@ =~= base2 + repeat_char(
                '^',
                if column_end > column_start { (column_end - column_start) as nat } else { 0 },
            ));
            result.append("\n");
        }
        result.append("error: ");
        result.append(self.message.as_str());
        result.append("\n");
        assert(result@ =~= pretty_text(
            self.message@,
            self.pos.line as nat,
            self.pos.column as nat,
            self.len as nat,
            source@,
        ));
        result
    }
}

/// The lines of `source`, as `text_lines` describes them.
fn source_lines(source: &str) -> (lines: Vec<String>)
    ensures
        lines@.len() == text_lines(source@).len(),
        forall|i: int| 0 <= i < lines@.len() ==> #[trigger] lines@[i]@ == text_lines(source@)[i],
{
    let cs = str_chars(source);
    let mut done: Vec<String> = Vec::new();
    let mut cur = String::new();
    for i in 0..cs.len()
        invariant
            cs@ == source@,
            done@.len() == line_split(cs@.take(i as int)).0.len(),
            forall|k: int| 0 <= k < done@.len() ==> #[trigger] done@[k]@ == line_split(cs@.take(i as int)).0[k],
            cur@ == line_split(cs@.take(i as int)).1,
    {
        let c = cs[i];
        assert(cs@.take(i + 1).drop_last() =~= cs@.take(i as int));
        if c == '\n' {
            let stripped = strip_trailing_cr(&cur);
            done.push(stripped);
            cur = String::new();
        } else {
            push_char(&mut cur, c);
        }
    }
    assert(cs@.take(cs@.len() as int) =~= cs@);
    if cur.as_str().unicode_len() > 0 {
        done.push(cur);
    }
    done
}

/// The line without one trailing carriage return.
fn strip_trailing_cr(l: &String) -> (r: String)
    ensures
        r@ == strip_cr(l@),
{
    let cs = str_chars(l.as_str());
    let n = cs.len();
    let keep = if n > 0 && cs[n - 1] == '\r' { n - 1 } else { n };
    let mut r = String::new();
    for i in 0..keep
        invariant
            keep <= cs@.len(),
            r@ == cs@.take(i as int),
    {
        push_char(&mut r, cs[i]);
        assert(cs@.take(i + 1) =~= cs@.take(i as int).push(cs@[i as int]));
    }
    assert(r@ =~= strip_cr(l@));
    r
}

} // verus!
