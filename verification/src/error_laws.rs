//! Which line an error is shown under: the lines of a text are exactly the
//! pieces between its line ends, blank lines included.
use vstd::prelude::*;
use crate::error::{line_split, pretty_text, repeat_char, strip_cr, text_lines};
use vstd::utf8::{encode_utf8, is_ascii_chars, is_ascii_chars_encode_utf8};
use crate::text::decimal;

verus! {

/// A line as it stands in a text: no line feed in it, and no carriage
/// return at its end (that one would belong to a CR LF line end).
pub open spec fn plain_line(l: Seq<char>) -> bool {
    &&& forall|j: int| 0 <= j < l.len() ==> #[trigger] l[j] != '\n'
    &&& !(l.len() > 0 && l.last() == '\r')
}

/// The text made of `ls`, each line ended by a line feed, or by CR LF when
/// `crlf` holds.
pub open spec fn written(ls: Seq<Seq<char>>, crlf: bool) -> Seq<char>
    decreases ls.len(),
{
    if ls.len() == 0 {
        seq![]
    } else {
        written(ls.drop_last(), crlf) + ls.last() + if crlf { seq!['\r', '\n'] } else { seq!['\n'] }
    }
}

/// The lines of a text written from lines are those lines, blank ones
/// included, whether each ends with LF or CR LF; a last line without a line
/// end is a line too.
pub proof fn law_lines_of_written_text(ls: Seq<Seq<char>>, crlf: bool, last: Seq<char>)
    requires
        forall|i: int| 0 <= i < ls.len() ==> plain_line(#[trigger] ls[i]),
        forall|j: int| 0 <= j < last.len() ==> #[trigger] last[j] != '\n',
    ensures
        text_lines(written(ls, crlf)) == ls,
        last.len() > 0 ==> text_lines(written(ls, crlf) + last) == ls.push(last),
{
    lemma_split_written(ls, crlf);
    lemma_split_append(written(ls, crlf), last);
}

/// An error on line `line` of a text written from lines is shown under that
/// line; an error past the last line is reported by its line number alone.
pub proof fn law_error_shown_under_its_line(
    ls: Seq<Seq<char>>,
    crlf: bool,
    msg: Seq<char>,
    line: nat,
    column: nat,
    len: nat,
)
    requires
        forall|i: int| 0 <= i < ls.len() ==> plain_line(#[trigger] ls[i]),
        line >= 1,
    ensures
        line <= ls.len() ==> ("--> input:"@ + decimal(line) + ":"@ + decimal(column) + "\n"@ + " "@
            + ls[line - 1] + "\n"@).is_prefix_of(pretty_text(msg, line, column, len, written(ls, crlf))),
        line > ls.len() ==> pretty_text(msg, line, column, len, written(ls, crlf)) == "Error at position "@
            + decimal(line) + ": "@ + msg,
{
    law_lines_of_written_text(ls, crlf, seq![]);
    if line <= ls.len() {
        let out = pretty_text(msg, line, column, len, written(ls, crlf));
        let head = "--> input:"@ + decimal(line) + ":"@ + decimal(column) + "\n"@ + " "@ + ls[line - 1] + "\n"@;
        let lines = text_lines(written(ls, crlf));
        assert(lines[line - 1] == ls[line - 1]);
        assert(out.subrange(0, head.len() as int) =~= head);
    }
}

/// An error at a column within an ASCII line is shown as the line, then,
/// after spaces up to its column, one caret for each character it covers
/// that lies on the line, then the message. An error past the end of its
/// line gets no carets.
pub proof fn law_carets_mark_the_error(
    ls: Seq<Seq<char>>,
    crlf: bool,
    msg: Seq<char>,
    line: nat,
    column: nat,
    len: nat,
)
    requires
        forall|i: int| 0 <= i < ls.len() ==> plain_line(#[trigger] ls[i]),
        1 <= line <= ls.len(),
        is_ascii_chars(ls[line - 1]),
        ls[line - 1].len() < usize::MAX,
        column >= 1,
    ensures
        ({
            let l = ls[line - 1];
            let head = "--> input:"@ + decimal(line) + ":"@ + decimal(column) + "\n"@ + " "@ + l + "\n"@;
            let tail = "error: "@ + msg + "\n"@;
            let covered = if len <= l.len() + 1 - column { len } else { (l.len() + 1 - column) as nat };
            &&& column <= l.len() ==> pretty_text(msg, line, column, len, written(ls, crlf)) == head + (" "@
                + repeat_char(' ', (column - 1) as nat) + repeat_char('^', covered) + "\n"@) + tail
            &&& column > l.len() ==> pretty_text(msg, line, column, len, written(ls, crlf)) == head + Seq::<
                char,
            >::empty() + tail
        }),
{
    law_lines_of_written_text(ls, crlf, seq![]);
    let l = ls[line - 1];
    is_ascii_chars_encode_utf8(l);
    assert(encode_utf8(l).len() == l.len());
    assert((encode_utf8(l).len() as usize) == l.len());
}

/// Appending characters without a line feed only extends the line in
/// progress.
proof fn lemma_split_append(s: Seq<char>, w: Seq<char>)
    requires
        forall|j: int| 0 <= j < w.len() ==> #[trigger] w[j] != '\n',
    ensures
        line_split(s + w) == (line_split(s).0, line_split(s).1 + w),
    decreases w.len(),
{
    if w.len() == 0 {
        assert(s + w =~= s);
        assert(line_split(s).1 + w =~= line_split(s).1);
    } else {
        let w1 = w.drop_last();
        lemma_split_append(s, w1);
        assert((s + w).drop_last() =~= s + w1);
        assert(line_split(s).1 + w1.push(w.last()) =~= line_split(s).1 + w);
        assert(w1.push(w.last()) =~= w);
    }
}

/// Splitting a text written from lines gives those lines, with no line in
/// progress.
proof fn lemma_split_written(ls: Seq<Seq<char>>, crlf: bool)
    requires
        forall|i: int| 0 <= i < ls.len() ==> plain_line(#[trigger] ls[i]),
    ensures
        line_split(written(ls, crlf)) == (ls, Seq::<char>::empty()),
    decreases ls.len(),
{
    if ls.len() > 0 {
        let init = ls.drop_last();
        let l = ls.last();
        assert(plain_line(l));
        lemma_split_written(init, crlf);
        let s = written(init, crlf);
        lemma_split_append(s, l);
        assert(Seq::<char>::empty() + l =~= l);
        if crlf {
            let t = s + l + seq!['\r', '\n'];
            assert(t.drop_last() =~= s + (l + seq!['\r']));
            assert forall|j: int| 0 <= j < (l + seq!['\r']).len() implies #[trigger] (l + seq!['\r'])[j] != '\n' by {
                if j < l.len() {
                    assert((l + seq!['\r'])[j] == l[j]);
                }
            }
            lemma_split_append(s, l + seq!['\r']);
            assert(Seq::<char>::empty() + (l + seq!['\r']) =~= l + seq!['\r']);
            assert((l + seq!['\r']).drop_last() =~= l);
            assert(strip_cr(l + seq!['\r']) == l);
            assert(init.push(l) =~= ls);
        } else {
            let t = s + l + seq!['\n'];
            assert(t.drop_last() =~= s + l);
            assert(strip_cr(l) == l);
            assert(init.push(l) =~= ls);
        }
    }
}

} // verus!
