use vstd::prelude::*;

use crate::classes::{
    alphabetic_char, is_digit, is_space, lemma_run_end, lemma_run_end_at, lemma_run_end_extend,
    lemma_run_end_shift, numeric_char, run_end, CharClass,
};
use crate::error::ErrorView;
use crate::token::KindView;

verus! {

/// A sequence of token kinds.
pub type KindSeq = Seq<KindView>;

/// The token of a character that stands alone whatever follows it.
pub open spec fn single_char_kind(c: char) -> Option<KindView> {
    if c == '(' {
        Some(KindView::LeftParen)
    } else if c == ')' {
        Some(KindView::RightParen)
    } else if c == '{' {
        Some(KindView::LeftBrace)
    } else if c == '}' {
        Some(KindView::RightBrace)
    } else if c == ',' {
        Some(KindView::Comma)
    } else if c == '.' {
        Some(KindView::Dot)
    } else if c == ';' {
        Some(KindView::Semicolon)
    } else if c == '-' {
        Some(KindView::Minus)
    } else if c == '+' {
        Some(KindView::Plus)
    } else if c == '*' {
        Some(KindView::Star)
    } else {
        None
    }
}

/// For an operator that an `=` may extend: its token alone, and its token with the `=`.
pub open spec fn equal_pair(c: char) -> Option<(KindView, KindView)> {
    if c == '!' {
        Some((KindView::Bang, KindView::BangEqual))
    } else if c == '=' {
        Some((KindView::Equal, KindView::EqualEqual))
    } else if c == '<' {
        Some((KindView::Less, KindView::LessEqual))
    } else if c == '>' {
        Some((KindView::Greater, KindView::GreaterEqual))
    } else {
        None
    }
}

/// The keyword that the word `w` spells, if any.
pub open spec fn keyword(w: Seq<char>) -> Option<KindView> {
    if w == seq!['a', 'n', 'd'] {
        Some(KindView::And)
    } else if w == seq!['c', 'l', 'a', 's', 's'] {
        Some(KindView::Class)
    } else if w == seq!['e', 'l', 's', 'e'] {
        Some(KindView::Else)
    } else if w == seq!['f', 'a', 'l', 's', 'e'] {
        Some(KindView::False)
    } else if w == seq!['f', 'o', 'r'] {
        Some(KindView::For)
    } else if w == seq!['f', 'u', 'n'] {
        Some(KindView::Fun)
    } else if w == seq!['i', 'f'] {
        Some(KindView::If)
    } else if w == seq!['n', 'i', 'l'] {
        Some(KindView::Nil)
    } else if w == seq!['o', 'r'] {
        Some(KindView::Or)
    } else if w == seq!['p', 'r', 'i', 'n', 't'] {
        Some(KindView::Print)
    } else if w == seq!['r', 'e', 't', 'u', 'r', 'n'] {
        Some(KindView::Return)
    } else if w == seq!['s', 'u', 'p', 'e', 'r'] {
        Some(KindView::Super)
    } else if w == seq!['t', 'h', 'i', 's'] {
        Some(KindView::This)
    } else if w == seq!['t', 'r', 'u', 'e'] {
        Some(KindView::True)
    } else if w == seq!['v', 'a', 'r'] {
        Some(KindView::Var)
    } else if w == seq!['w', 'h', 'i', 'l', 'e'] {
        Some(KindView::While)
    } else {
        None
    }
}

pub open spec fn digit_value(c: char) -> int {
    c as int - '0' as int
}

/// The number that the decimal digits `t` write.
pub open spec fn digits_value(t: Seq<char>) -> int
    decreases t.len(),
{
    if t.len() == 0 {
        0
    } else {
        digits_value(t.drop_last()) * 10 + digit_value(t.last())
    }
}

/// The value of a number literal, read left to right: the first digit that takes the
/// value past `i32::MAX` is an overflow, and a character that is no decimal digit,
/// reached before that, is invalid.
pub open spec fn number_of(t: Seq<char>) -> Result<i32, ErrorView> {
    let m = run_end(t, 0, CharClass::Digit);
    if digits_value(t.take(m)) > i32::MAX {
        Err(ErrorView::NumberOverflow)
    } else if m < t.len() {
        Err(ErrorView::InvalidDigit)
    } else {
        Ok(digits_value(t) as i32)
    }
}

pub proof fn lemma_digits_value_nonneg(t: Seq<char>)
    requires
        forall|k: int| 0 <= k < t.len() ==> is_digit(#[trigger] t[k]),
    ensures
        digits_value(t) >= 0,
    decreases t.len(),
{
    if t.len() > 0 {
        lemma_digits_value_nonneg(t.drop_last());
    }
}

/// Among the prefixes of a run of digits, a longer one writes a number at least as large.
pub proof fn lemma_digits_value_prefix(t: Seq<char>, a: int, b: int)
    requires
        0 <= a <= b <= t.len(),
        forall|k: int| 0 <= k < b ==> is_digit(#[trigger] t[k]),
    ensures
        digits_value(t.take(a)) <= digits_value(t.take(b)),
    decreases b - a,
{
    if a < b {
        lemma_digits_value_prefix(t, a, b - 1);
        assert(t.take(b).drop_last() =~= t.take(b - 1));
        lemma_digits_value_nonneg(t.take(b - 1));
    }
}

pub open spec fn next_is(s: Seq<char>, n: int, c: char) -> bool {
    0 <= n < s.len() && s[n] == c
}

/// Whether a token, a comment or whitespace may start with `c`.
pub open spec fn starts_token(c: char) -> bool {
    single_char_kind(c) is Some || c == '/' || equal_pair(c) is Some || c == '"'
        || numeric_char(c) || alphabetic_char(c) || is_space(c)
}

/// One step of the scanner at `j`, the start of a token or a comment: the token
/// (none for a comment) and the position after it, or the error that stops the scan.
pub open spec fn lex_at(s: Seq<char>, j: int) -> Result<(Option<KindView>, int), ErrorView> {
    let c = s[j];
    let n = j + 1;
    if single_char_kind(c) is Some {
        Ok((single_char_kind(c), n))
    } else if c == '/' {
        if next_is(s, n, '/') {
            Ok((None, run_end(s, n + 1, CharClass::NotNewline)))
        } else {
            Ok((Some(KindView::Slash), n))
        }
    } else if equal_pair(c) is Some {
        let (alone, extended) = equal_pair(c)->0;
        if next_is(s, n, '=') {
            Ok((Some(extended), n + 1))
        } else {
            Ok((Some(alone), n))
        }
    } else if c == '"' {
        let e = run_end(s, n, CharClass::NotQuote);
        if e < s.len() {
            Ok((Some(KindView::Str(s.subrange(n, e))), e + 1))
        } else {
            Err(ErrorView::UnterminatedString)
        }
    } else if numeric_char(c) {
        let e = run_end(s, n, CharClass::Numeric);
        match number_of(s.subrange(j, e)) {
            Ok(v) => Ok((Some(KindView::Number(v)), e)),
            Err(x) => Err(x),
        }
    } else if alphabetic_char(c) {
        let e = run_end(s, n, CharClass::Alphabetic);
        let w = s.subrange(j, e);
        match keyword(w) {
            Some(k) => Ok((Some(k), e)),
            None => Err(ErrorView::UnrecognizedKeyword(w)),
        }
    } else {
        Err(ErrorView::UnrecognizedToken(c))
    }
}

pub proof fn lemma_lex_at_advances(s: Seq<char>, j: int)
    requires
        0 <= j < s.len(),
    ensures
        lex_at(s, j) matches Ok((_, k)) ==> j < k <= s.len(),
{
    let n = j + 1;
    lemma_run_end(s, n, CharClass::NotQuote);
    lemma_run_end(s, n, CharClass::Numeric);
    lemma_run_end(s, n, CharClass::Alphabetic);
    if next_is(s, n, '/') {
        lemma_run_end(s, n + 1, CharClass::NotNewline);
    }
}

pub open spec fn opt_seq(t: Option<KindView>) -> Seq<KindView> {
    match t {
        Some(k) => seq![k],
        None => Seq::empty(),
    }
}

/// `ks` in front of the tokens of a successful scan; an error as it is.
pub open spec fn prepend(ks: Seq<KindView>, r: Result<Seq<KindView>, ErrorView>) -> Result<
    Seq<KindView>,
    ErrorView,
> {
    match r {
        Ok(ts) => Ok(ks + ts),
        Err(e) => Err(e),
    }
}

/// The tokens of `s` from position `i` on: whitespace is skipped, and at the end
/// of the input comes `EndOfFile`.
pub open spec fn scan_from(s: Seq<char>, i: int) -> Result<Seq<KindView>, ErrorView>
    decreases s.len() - i,
    when 0 <= i <= s.len()
{
    let j = run_end(s, i, CharClass::Space);
    proof {
        lemma_run_end(s, i, CharClass::Space);
    }
    if j >= s.len() {
        Ok(seq![KindView::EndOfFile])
    } else {
        proof {
            lemma_lex_at_advances(s, j);
        }
        match lex_at(s, j) {
            Err(e) => Err(e),
            Ok((t, k)) => prepend(opt_seq(t), scan_from(s, k)),
        }
    }
}

/// The result of scanning the whole of `s`.
pub open spec fn scanned(s: Seq<char>) -> Result<Seq<KindView>, ErrorView> {
    scan_from(s, 0)
}


/// Whether `ks` ends with `EndOfFile` and holds it nowhere else.
pub open spec fn ends_with_single_eof(ks: Seq<KindView>) -> bool {
    &&& ks.len() >= 1
    &&& ks.last() == KindView::EndOfFile
    &&& forall|k: int| 0 <= k < ks.len() - 1 ==> ks[k] != KindView::EndOfFile
}

pub proof fn lemma_lex_at_not_eof(s: Seq<char>, j: int)
    requires
        0 <= j < s.len(),
    ensures
        lex_at(s, j) matches Ok((Some(t), _)) ==> t != KindView::EndOfFile,
{
}

pub proof fn lemma_scan_from_eof(s: Seq<char>, i: int)
    requires
        0 <= i <= s.len(),
    ensures
        scan_from(s, i) matches Ok(ts) ==> ends_with_single_eof(ts),
    decreases s.len() - i,
{
    let j = run_end(s, i, CharClass::Space);
    lemma_run_end(s, i, CharClass::Space);
    if j < s.len() {
        lemma_lex_at_advances(s, j);
        lemma_lex_at_not_eof(s, j);
        if let Ok((t, k)) = lex_at(s, j) {
            lemma_scan_from_eof(s, k);
            if let Ok(ts) = scan_from(s, k) {
                let all = opt_seq(t) + ts;
                assert(all.last() == ts.last());
                assert forall|m: int| 0 <= m < all.len() - 1 implies all[m] != KindView::EndOfFile by {
                    if m >= opt_seq(t).len() {
                        assert(all[m] == ts[m - opt_seq(t).len()]);
                    }
                }
            }
        }
    }
}


/// A step at `j` in `r` is the same step at `p.len() + j` in `p + r`.
pub proof fn lemma_lex_at_shift(p: Seq<char>, r: Seq<char>, j: int)
    requires
        0 <= j < r.len(),
    ensures
        match lex_at(r, j) {
            Ok((t, k)) => lex_at(p + r, p.len() + j) == Ok::<(Option<KindView>, int), ErrorView>(
                (t, p.len() + k),
            ),
            Err(e) => lex_at(p + r, p.len() + j) == Err::<(Option<KindView>, int), ErrorView>(e),
        },
{
    let x = p + r;
    let d = p.len() as int;
    let n = j + 1;
    assert(x[d + j] == r[j]);
    assert(next_is(x, d + n, '/') == next_is(r, n, '/'));
    assert(next_is(x, d + n, '=') == next_is(r, n, '='));
    lemma_run_end(r, n, CharClass::NotQuote);
    lemma_run_end(r, n, CharClass::Numeric);
    lemma_run_end(r, n, CharClass::Alphabetic);
    lemma_run_end_shift(p, r, n, CharClass::NotQuote);
    lemma_run_end_shift(p, r, n, CharClass::Numeric);
    lemma_run_end_shift(p, r, n, CharClass::Alphabetic);
    if next_is(r, n, '/') {
        lemma_run_end_shift(p, r, n + 1, CharClass::NotNewline);
    }
    let eq = run_end(r, n, CharClass::NotQuote);
    let en = run_end(r, n, CharClass::Numeric);
    let ea = run_end(r, n, CharClass::Alphabetic);
    assert(x.subrange(d + n, d + eq) =~= r.subrange(n, eq));
    assert(x.subrange(d + j, d + en) =~= r.subrange(j, en));
    assert(x.subrange(d + j, d + ea) =~= r.subrange(j, ea));
}

/// Scanning `p + r` from `p.len() + j` gives what scanning `r` from `j` gives.
pub proof fn lemma_scan_from_shift(p: Seq<char>, r: Seq<char>, j: int)
    requires
        0 <= j <= r.len(),
    ensures
        scan_from(p + r, p.len() + j) == scan_from(r, j),
    decreases r.len() - j,
{
    let x = p + r;
    let d = p.len() as int;
    lemma_run_end_shift(p, r, j, CharClass::Space);
    lemma_run_end(r, j, CharClass::Space);
    let e = run_end(r, j, CharClass::Space);
    if e < r.len() {
        lemma_lex_at_shift(p, r, e);
        lemma_lex_at_advances(r, e);
        if let Ok((t, k)) = lex_at(r, e) {
            lemma_scan_from_shift(p, r, k);
        }
    }
}

/// Scanning from `p` and from `q` agree where only whitespace stands between them.
pub proof fn lemma_scan_from_skip(s: Seq<char>, p: int, q: int)
    requires
        0 <= p <= q <= s.len(),
        forall|k: int| p <= k < q ==> is_space(#[trigger] s[k]),
    ensures
        scan_from(s, p) == scan_from(s, q),
        run_end(s, p, CharClass::Space) == run_end(s, q, CharClass::Space),
    decreases q - p,
{
    if p < q {
        lemma_scan_from_skip(s, p + 1, q);
        assert(run_end(s, p, CharClass::Space) == run_end(s, p + 1, CharClass::Space));
        lemma_run_end(s, p + 1, CharClass::Space);
    }
}


/// Whether the scan of `s` from `i` ends in a line comment that only the end of
/// the input closes.
pub open spec fn ends_in_comment(s: Seq<char>, i: int) -> bool
    decreases s.len() - i,
    when 0 <= i <= s.len()
{
    let j = run_end(s, i, CharClass::Space);
    proof {
        lemma_run_end(s, i, CharClass::Space);
    }
    if j >= s.len() {
        false
    } else {
        proof {
            lemma_lex_at_advances(s, j);
        }
        match lex_at(s, j) {
            Err(_) => false,
            Ok((t, k)) => if t is None && k == s.len() {
                true
            } else {
                ends_in_comment(s, k)
            },
        }
    }
}

/// A step inside `a` is the same step in `a + t` when `t` starts with whitespace,
/// but for a comment that reaches the end of `a`, which goes on into `t`.
pub proof fn lemma_lex_at_extend(a: Seq<char>, t: Seq<char>, j: int)
    requires
        0 <= j < a.len(),
        t.len() >= 1,
        is_space(t[0]),
        lex_at(a, j) is Ok,
    ensures
        ({
            let (tok, k) = lex_at(a, j)->Ok_0;
            if tok is None && k == a.len() {
                lex_at(a + t, j) == Ok::<(Option<KindView>, int), ErrorView>(
                    (None, run_end(a + t, a.len() as int, CharClass::NotNewline)),
                )
            } else {
                lex_at(a + t, j) == lex_at(a, j)
            }
        }),
{
    let x = a + t;
    let la = a.len() as int;
    let n = j + 1;
    assert(x[j] == a[j]);
    assert(x[la] == t[0]);
    if n < la {
        assert(x[n] == a[n]);
    }
    assert(next_is(x, n, '/') == next_is(a, n, '/'));
    assert(next_is(x, n, '=') == next_is(a, n, '='));
    lemma_run_end(a, n, CharClass::NotQuote);
    lemma_run_end(a, n, CharClass::Numeric);
    lemma_run_end(a, n, CharClass::Alphabetic);
    lemma_run_end_extend(a, t, n, CharClass::NotQuote);
    lemma_run_end_extend(a, t, n, CharClass::Numeric);
    lemma_run_end_extend(a, t, n, CharClass::Alphabetic);
    lemma_run_end_at(x, la, la, CharClass::Numeric);
    lemma_run_end_at(x, la, la, CharClass::Alphabetic);
    if next_is(a, n, '/') {
        lemma_run_end(a, n + 1, CharClass::NotNewline);
        lemma_run_end_extend(a, t, n + 1, CharClass::NotNewline);
    }
    let eq = run_end(a, n, CharClass::NotQuote);
    let en = run_end(a, n, CharClass::Numeric);
    let ea = run_end(a, n, CharClass::Alphabetic);
    if eq < la {
        assert(x.subrange(n, eq) =~= a.subrange(n, eq));
    }
    assert(x.subrange(j, en) =~= a.subrange(j, en));
    assert(x.subrange(j, ea) =~= a.subrange(j, ea));
}

} // verus!
