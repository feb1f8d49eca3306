use vstd::prelude::*;

use crate::classes::{
    alphabetic_char, is_digit, is_space, lemma_run_end, lemma_run_end_at, lemma_run_end_extend,
    numeric_char, run_end, CharClass,
};
use crate::error::{message_of, ErrorView};
use crate::model::{
    digit_value, digits_value, ends_in_comment, keyword, lemma_lex_at_advances, lemma_lex_at_extend,
    lemma_scan_from_eof, lemma_scan_from_shift, lemma_scan_from_skip, lex_at, opt_seq, scan_from,
    scanned, starts_token, KindSeq,
};
use crate::token::KindView;

verus! {

/// Input made only of spaces, tabs, newlines and carriage returns scans to
/// `[EndOfFile]` alone.
pub proof fn whitespace_scans_to_end(s: Seq<char>)
    requires
        forall|k: int| 0 <= k < s.len() ==> is_space(#[trigger] s[k]),
    ensures
        scanned(s) == Ok::<KindSeq, ErrorView>(seq![KindView::EndOfFile]),
{
    lemma_run_end_at(s, 0, s.len() as int, CharClass::Space);
}

/// A line comment, `//` up to and including the newline that ends it, leaves no
/// trace: the input scans as what follows the newline does.
pub proof fn comment_is_erased(comment: Seq<char>, rest: Seq<char>)
    requires
        forall|k: int| 0 <= k < comment.len() ==> #[trigger] comment[k] != '\n',
    ensures
        scanned(seq!['/', '/'] + comment + seq!['\n'] + rest) == scanned(rest),
{
    let p = seq!['/', '/'] + comment + seq!['\n'];
    let x = seq!['/', '/'] + comment + seq!['\n'] + rest;
    assert(x =~= p + rest);
    let c = comment.len() as int;
    assert(x[0] == '/');
    assert(x[1] == '/');
    assert(x[2 + c] == '\n');
    assert forall|k: int| 2 <= k < 2 + c implies CharClass::NotNewline.spec_holds(#[trigger] x[k]) by {
        assert(x[k] == comment[k - 2]);
    }
    lemma_run_end_at(x, 2, 2 + c, CharClass::NotNewline);
    lemma_run_end_at(x, 0, 0, CharClass::Space);
    lemma_scan_from_skip(x, 2 + c, p.len() as int);
    lemma_scan_from_shift(p, rest, 0);
    match scan_from(x, 2 + c) {
        Ok(ts) => assert(Seq::<KindView>::empty() + ts =~= ts),
        Err(_) => {},
    }
}

/// A character that starts no token stops the scan with an error whose message
/// shows that character.
pub proof fn unrecognized_character_is_named(c: char)
    requires
        !starts_token(c),
    ensures
        scanned(seq![c]) == Err::<KindSeq, ErrorView>(ErrorView::UnrecognizedToken(c)),
        message_of(ErrorView::UnrecognizedToken(c)).contains(c),
{
    let s = seq![c];
    lemma_run_end_at(s, 0, 0, CharClass::Space);
    let m = message_of(ErrorView::UnrecognizedToken(c));
    reveal_strlit("scanner: unrecognized token: '");
    assert(m[30] == c);
}

proof fn lemma_keyword_letters(w: Seq<char>)
    requires
        keyword(w) is Some,
    ensures
        w.len() >= 1,
        forall|k: int| 0 <= k < w.len() ==> 'a' <= #[trigger] w[k] && w[k] <= 'z',
{
}

/// Each word of the keyword table scans to its own token.
pub proof fn keyword_scans_to_its_token(w: Seq<char>)
    requires
        keyword(w) is Some,
    ensures
        scanned(w) == Ok::<KindSeq, ErrorView>(seq![keyword(w)->0, KindView::EndOfFile]),
{
    lemma_keyword_letters(w);
    let len = w.len() as int;
    assert('a' <= w[0] && w[0] <= 'z');
    lemma_run_end_at(w, 0, 0, CharClass::Space);
    assert forall|k: int| 1 <= k < len implies CharClass::Alphabetic.spec_holds(#[trigger] w[k]) by {
        assert('a' <= w[k] && w[k] <= 'z');
    }
    lemma_run_end_at(w, 1, len, CharClass::Alphabetic);
    lemma_run_end_at(w, len, len, CharClass::Space);
    assert(w.subrange(0, len) =~= w);
    assert(scan_from(w, len) == Ok::<KindSeq, ErrorView>(seq![KindView::EndOfFile]));
    assert(seq![keyword(w)->0] + seq![KindView::EndOfFile] =~= seq![
        keyword(w)->0,
        KindView::EndOfFile,
    ]);
}

/// A word of alphabetic characters that is not in the keyword table stops the scan,
/// named in the error, when its first character is not also numeric.
pub proof fn other_word_is_unrecognized(w: Seq<char>)
    requires
        w.len() >= 1,
        forall|k: int| 0 <= k < w.len() ==> alphabetic_char(#[trigger] w[k]),
        !numeric_char(w[0]),
        keyword(w) is None,
    ensures
        scanned(w) == Err::<KindSeq, ErrorView>(ErrorView::UnrecognizedKeyword(w)),
{
    let len = w.len() as int;
    assert(alphabetic_char(w[0]));
    lemma_run_end_at(w, 0, 0, CharClass::Space);
    lemma_run_end_at(w, 1, len, CharClass::Alphabetic);
    assert(w.subrange(0, len) =~= w);
}

/// Scanning past the end of `a` into `sep + b`, where `sep` is whitespace: what
/// lies beyond `a` scans as `b` does.
proof fn lemma_tail(a: Seq<char>, sep: Seq<char>, b: Seq<char>, p: int)
    requires
        a.len() <= p <= a.len() + sep.len(),
        forall|k: int| 0 <= k < sep.len() ==> is_space(#[trigger] sep[k]),
    ensures
        scan_from(a + (sep + b), p) == scanned(b),
{
    let x = a + (sep + b);
    let q = (a.len() + sep.len()) as int;
    assert forall|k: int| p <= k < q implies is_space(#[trigger] x[k]) by {
        assert(x[k] == sep[k - a.len()]);
    }
    lemma_scan_from_skip(x, p, q);
    assert(x =~= (a + sep) + b);
    lemma_scan_from_shift(a + sep, b, 0);
}

proof fn lemma_scan_extend(a: Seq<char>, sep: Seq<char>, b: Seq<char>, i: int)
    requires
        0 <= i <= a.len(),
        scan_from(a, i) is Ok,
        scanned(b) is Ok,
        sep.len() >= 1,
        forall|k: int| 0 <= k < sep.len() ==> is_space(#[trigger] sep[k]),
        sep.contains('\n') || !ends_in_comment(a, i),
    ensures
        scan_from(a + (sep + b), i) == Ok::<KindSeq, ErrorView>(
            scan_from(a, i)->Ok_0.drop_last() + scanned(b)->Ok_0,
        ),
    decreases a.len() - i,
{
    let t = sep + b;
    let x = a + t;
    let la = a.len() as int;
    let tb = scanned(b)->Ok_0;
    assert(t[0] == sep[0]);
    lemma_run_end(a, i, CharClass::Space);
    lemma_run_end_extend(a, t, i, CharClass::Space);
    let ja = run_end(a, i, CharClass::Space);
    if ja >= la {
        assert forall|k: int| i <= k < la implies is_space(#[trigger] x[k]) by {
            assert(x[k] == a[k]);
        }
        lemma_scan_from_skip(x, i, la);
        lemma_tail(a, sep, b, la);
        assert(seq![KindView::EndOfFile].drop_last() + tb =~= tb);
    } else {
        lemma_lex_at_advances(a, ja);
        lemma_lex_at_extend(a, t, ja);
        let (tok, k) = lex_at(a, ja)->Ok_0;
        if tok is None && k == la {
            lemma_run_end_at(a, la, la, CharClass::Space);
            assert(scan_from(a, la) == Ok::<KindSeq, ErrorView>(seq![KindView::EndOfFile]));
            assert(sep.contains('\n'));
            let m = choose|m: int| 0 <= m < sep.len() && sep[m] == '\n';
            let ce = run_end(x, la, CharClass::NotNewline);
            lemma_run_end(x, la, CharClass::NotNewline);
            assert(x[la + m] == sep[m]);
            assert(ce <= la + m);
            lemma_tail(a, sep, b, ce);
            assert(Seq::<KindView>::empty() + seq![KindView::EndOfFile] =~= seq![KindView::EndOfFile]);
            assert(seq![KindView::EndOfFile].drop_last() + tb =~= tb);
            match scan_from(x, ce) {
                Ok(ts) => assert(Seq::<KindView>::empty() + ts =~= ts),
                Err(_) => {},
            }
        } else {
            lemma_scan_extend(a, sep, b, k);
            lemma_scan_from_eof(a, k);
            let ta = scan_from(a, k)->Ok_0;
            let o = opt_seq(tok);
            assert((o + ta).drop_last() =~= o + ta.drop_last());
            assert(o + (ta.drop_last() + tb) =~= (o + ta.drop_last()) + tb);
        }
    }
}

/// Two inputs that scan without error, joined by whitespace, scan to the tokens of
/// the first without its `EndOfFile`, then those of the second. Where the first ends
/// in a line comment that only its end closes, the whitespace must hold a newline,
/// or the comment would run on over the second.
pub proof fn joined_scans_concatenate(a: Seq<char>, sep: Seq<char>, b: Seq<char>)
    requires
        scanned(a) is Ok,
        scanned(b) is Ok,
        sep.len() >= 1,
        forall|k: int| 0 <= k < sep.len() ==> is_space(#[trigger] sep[k]),
        sep.contains('\n') || !ends_in_comment(a, 0),
    ensures
        scanned(a + sep + b) == Ok::<KindSeq, ErrorView>(
            scanned(a)->Ok_0.drop_last() + scanned(b)->Ok_0,
        ),
{
    assert(a + sep + b =~= a + (sep + b));
    lemma_scan_extend(a, sep, b, 0);
}

/// A string literal scans to exactly the characters between its quotes.
pub proof fn string_literal_is_extracted(body: Seq<char>)
    requires
        forall|k: int| 0 <= k < body.len() ==> #[trigger] body[k] != '"',
    ensures
        scanned(seq!['"'] + body + seq!['"']) == Ok::<KindSeq, ErrorView>(
            seq![KindView::Str(body), KindView::EndOfFile],
        ),
{
    let s = seq!['"'] + body + seq!['"'];
    let e = (body.len() + 1) as int;
    assert(s[0] == '"');
    assert(s[e] == '"');
    assert forall|k: int| 1 <= k < e implies CharClass::NotQuote.spec_holds(#[trigger] s[k]) by {
        assert(s[k] == body[k - 1]);
    }
    lemma_run_end_at(s, 0, 0, CharClass::Space);
    lemma_run_end_at(s, 1, e, CharClass::NotQuote);
    lemma_run_end_at(s, e + 1, e + 1, CharClass::Space);
    assert(s.subrange(1, e) =~= body);
    assert(scan_from(s, e + 1) == Ok::<KindSeq, ErrorView>(seq![KindView::EndOfFile]));
    assert(seq![KindView::Str(body)] + seq![KindView::EndOfFile] =~= seq![
        KindView::Str(body),
        KindView::EndOfFile,
    ]);
}

/// An opening quote that no closing quote follows stops the scan as an
/// unterminated string.
pub proof fn unclosed_string_is_unterminated(body: Seq<char>)
    requires
        forall|k: int| 0 <= k < body.len() ==> #[trigger] body[k] != '"',
    ensures
        scanned(seq!['"'] + body) == Err::<KindSeq, ErrorView>(ErrorView::UnterminatedString),
{
    let s = seq!['"'] + body;
    let e = s.len() as int;
    assert(s[0] == '"');
    assert forall|k: int| 1 <= k < e implies CharClass::NotQuote.spec_holds(#[trigger] s[k]) by {
        assert(s[k] == body[k - 1]);
    }
    lemma_run_end_at(s, 0, 0, CharClass::Space);
    lemma_run_end_at(s, 1, e, CharClass::NotQuote);
}

/// The decimal digit that writes `d`, for `0 <= d < 10`.
pub open spec fn digit_char(d: int) -> char {
    if d == 0 {
        '0'
    } else if d == 1 {
        '1'
    } else if d == 2 {
        '2'
    } else if d == 3 {
        '3'
    } else if d == 4 {
        '4'
    } else if d == 5 {
        '5'
    } else if d == 6 {
        '6'
    } else if d == 7 {
        '7'
    } else if d == 8 {
        '8'
    } else {
        '9'
    }
}

/// The decimal text of `n`, without leading zeros.
pub open spec fn decimal(n: nat) -> Seq<char>
    decreases n,
{
    if n < 10 {
        seq![digit_char(n as int)]
    } else {
        decimal(n / 10).push(digit_char(n as int % 10))
    }
}

proof fn lemma_digit_char(d: int)
    requires
        0 <= d < 10,
    ensures
        is_digit(digit_char(d)),
        digit_value(digit_char(d)) == d,
{
}

proof fn lemma_decimal(n: nat)
    ensures
        decimal(n).len() >= 1,
        forall|k: int| 0 <= k < decimal(n).len() ==> is_digit(#[trigger] decimal(n)[k]),
        digits_value(decimal(n)) == n,
    decreases n,
{
    if n < 10 {
        lemma_digit_char(n as int);
        let s = decimal(n);
        assert(s.drop_last() =~= Seq::<char>::empty());
        assert(digits_value(s) == digits_value(s.drop_last()) * 10 + digit_value(s.last()));
    } else {
        lemma_decimal(n / 10);
        lemma_digit_char(n as int % 10);
        let s = decimal(n);
        assert(s.drop_last() =~= decimal(n / 10));
        assert(s.last() == digit_char(n as int % 10));
        assert(digits_value(s) == digits_value(decimal(n / 10)) * 10 + digit_value(s.last()));
        assert(n == (n / 10) * 10 + n % 10);
    }
}

/// The decimal text of a number that fits in an `i32` scans to that number; that
/// of a larger one fails as an overflow.
pub proof fn decimal_round_trip(n: nat)
    ensures
        n <= i32::MAX ==> scanned(decimal(n)) == Ok::<KindSeq, ErrorView>(
            seq![KindView::Number(n as i32), KindView::EndOfFile],
        ),
        n > i32::MAX ==> scanned(decimal(n)) == Err::<KindSeq, ErrorView>(ErrorView::NumberOverflow),
{
    let s = decimal(n);
    lemma_decimal(n);
    let len = s.len() as int;
    assert(is_digit(s[0]));
    lemma_run_end_at(s, 0, 0, CharClass::Space);
    lemma_run_end_at(s, 1, len, CharClass::Numeric);
    lemma_run_end_at(s, 0, len, CharClass::Digit);
    lemma_run_end_at(s, len, len, CharClass::Space);
    assert(s.subrange(0, len) =~= s);
    assert(s.take(len) =~= s);
    assert(scan_from(s, len) == Ok::<KindSeq, ErrorView>(seq![KindView::EndOfFile]));
    assert(seq![KindView::Number(n as i32)] + seq![KindView::EndOfFile] =~= seq![
        KindView::Number(n as i32),
        KindView::EndOfFile,
    ]);
}

} // verus!
