//! Building strings: characters, decimal numerals, and the few std text
//! functions whose results the lexer and the messages depend on.
use vstd::prelude::*;

verus! {

/// The decimal digit for a value below ten.
pub open spec fn digit_char(d: nat) -> char
    recommends
        d < 10,
{
    ((d + 48) as u8) as char
}

/// The decimal numeral of a natural number, without leading zeros.
pub open spec fn decimal(n: nat) -> Seq<char>
    decreases n,
{
    if n < 10 {
        seq![digit_char(n)]
    } else {
        decimal(n / 10).push(digit_char(n % 10))
    }
}

/// The decimal numeral of an integer, with a leading '-' when it is negative.
pub open spec fn signed_decimal(n: int) -> Seq<char> {
    if n < 0 {
        seq!['-'] + decimal((-n) as nat)
    } else {
        decimal(n as nat)
    }
}

/// A text right-aligned in a field of width two.
pub open spec fn pad2(s: Seq<char>) -> Seq<char> {
    if s.len() < 2 {
        seq![' '] + s
    } else {
        s
    }
}

/// Whether a character has the Unicode White_Space property: the ASCII
/// controls tab to carriage return, space, next line, no-break space, ogham
/// space mark, the spaces from en quad to hair space, the line and paragraph
/// separators, narrow no-break space, medium mathematical space and
/// ideographic space.
pub open spec fn is_white_space(c: char) -> bool {
    let u = c as u32;
    ||| 0x09 <= u <= 0x0D
    ||| u == 0x20 || u == 0x85 || u == 0xA0 || u == 0x1680
    ||| 0x2000 <= u <= 0x200A
    ||| u == 0x2028 || u == 0x2029 || u == 0x202F || u == 0x205F || u == 0x3000
}

/// Whether an ASCII character is a letter or a digit.
pub open spec fn ascii_alphanumeric(c: char) -> bool {
    ('a' <= c && c <= 'z') || ('A' <= c && c <= 'Z') || ('0' <= c && c <= '9')
}

/// Whether a character outside ASCII is alphabetic or numeric in Unicode
/// (what `char::is_alphanumeric` returns for it).
pub uninterp spec fn non_ascii_alphanumeric(c: char) -> bool;

/// Whether a character is alphabetic or numeric: among ASCII characters
/// exactly the letters and digits are.
pub open spec fn is_alpha_numeric(c: char) -> bool {
    if (c as u32) < 0x80 {
        ascii_alphanumeric(c)
    } else {
        non_ascii_alphanumeric(c)
    }
}

/// Whether a character has the Unicode White_Space property, as
/// `char::is_whitespace` answers it.
pub(crate) fn char_is_whitespace(c: char) -> (r: bool)
    ensures
        r == is_white_space(c),
{
    let u = c as u32;
    (0x09 <= u && u <= 0x0D) || u == 0x20 || u == 0x85 || u == 0xA0 || u == 0x1680 || (0x2000 <= u
        && u <= 0x200A) || u == 0x2028 || u == 0x2029 || u == 0x202F || u == 0x205F || u == 0x3000
}

/// Trusted: `char::is_alphanumeric`, which std documents as alphabetic or
/// numeric. Among ASCII characters those are the letters and digits; for
/// other characters the contract only names the result, which rests on the
/// Unicode tables of std.
#[verifier::external_body]
pub(crate) fn char_is_alphanumeric(c: char) -> (r: bool)
    ensures
        r == (if (c as u32) < 0x80 {
            ascii_alphanumeric(c)
        } else {
            non_ascii_alphanumeric(c)
        }),
{
    c.is_alphanumeric()
}

/// Trusted: `String::push`, which appends one character.
#[verifier::external_body]
pub(crate) fn push_char(s: &mut String, c: char)
    ensures
        final(s)@ == old(s)@.push(c),
{
    s.push(c)
}

/// The characters of a string slice, in order.
pub fn str_chars(s: &str) -> (v: Vec<char>)
    ensures
        v@ == s@,
{
    let n = s.unicode_len();
    let mut v: Vec<char> = Vec::new();
    for i in 0..n
        invariant
            n == s@.len(),
            v@ == s@.take(i as int),
    {
        v.push(s.get_char(i));
        assert(v@ =~= s@.take(i + 1));
    }
    assert(v@ =~= s@);
    v
}

/// Appends the decimal numeral of `n`.
pub fn push_decimal(s: &mut String, n: u64)
    ensures
        final(s)@ == old(s)@ + decimal(n as nat),
{
    // Collect the digits from the lowest upwards, then append them in reverse.
    let mut rev: Vec<char> = Vec::new();
    let mut m: u64 = n;
    assert(rev@.reverse() =~= Seq::<char>::empty());
    while m >= 10
        invariant
            decimal(n as nat) == decimal(m as nat) + rev@.reverse(),
        decreases m,
    {
        let d = m % 10;
        let c = ((d + 48) as u8) as char;
        proof {
            assert(decimal(m as nat) == decimal(m as nat / 10).push(digit_char(m as nat % 10)));
            assert(rev@.push(c).reverse() =~= seq![c] + rev@.reverse());
            assert(decimal(m as nat / 10).push(c) + rev@.reverse() =~= decimal(m as nat / 10) + (
            seq![c] + rev@.reverse()));
        }
        rev.push(c);
        m = m / 10;
    }
    let ghost start = s@;
    let c0 = ((m + 48) as u8) as char;
    assert(decimal(m as nat) == seq![c0]);
    push_char(s, c0);
    let len = rev.len();
    let mut k: usize = len;
    while k > 0
        invariant
            k <= len == rev@.len(),
            s@ == start + seq![c0] + rev@.reverse().take((len - k) as int),
            decimal(n as nat) == seq![c0] + rev@.reverse(),
        decreases k,
    {
        k = k - 1;
        push_char(s, rev[k]);
        assert(rev@.reverse().take((len - k) as int) =~= rev@.reverse().take(
            (len - k - 1) as int,
        ).push(rev@[k as int]));
    }
    assert(rev@.reverse().take(len as int) =~= rev@.reverse());
    assert(s@ =~= start + decimal(n as nat));
}

/// Appends the decimal numeral of `n`, with a '-' first when it is negative.
pub fn push_signed_decimal(s: &mut String, n: i64)
    ensures
        final(s)@ == old(s)@ + signed_decimal(n as int),
{
    if n < 0 {
        push_char(s, '-');
        let m: u64 = if n == i64::MIN {
            9223372036854775808u64
        } else {
            (-n) as u64
        };
        push_decimal(s, m);
        assert(final(s)@ =~= old(s)@ + signed_decimal(n as int));
    } else {
        push_decimal(s, n as u64);
    }
}

/// Appends the decimal numeral of `n` right-aligned in a field of width two.
pub fn push_decimal_width2(s: &mut String, n: usize)
    ensures
        final(s)@ == old(s)@ + pad2(decimal(n as nat)),
{
    if n < 10 {
        push_char(s, ' ');
        assert(decimal(n as nat).len() == 1);
    } else {
        assert(decimal(n as nat).len() >= 2) by {
            assert(decimal(n as nat) == decimal(n as nat / 10).push(digit_char(n as nat % 10)));
        }
    }
    push_decimal(s, n as u64);
    assert(final(s)@ =~= old(s)@ + pad2(decimal(n as nat)));
}

} // verus!
