use vstd::prelude::*;

use crate::classes::{chars_of, is_digit, lemma_run_end, lemma_run_end_at, run_end, CharClass};
use crate::error::{push_char, ErrorView, ScanError};
use crate::model::{
    digits_value, ends_with_single_eof, keyword, lemma_digits_value_prefix, lemma_lex_at_advances,
    lemma_scan_from_eof, lex_at, number_of, opt_seq, prepend, scan_from, scanned, KindSeq,
};
use crate::token::{kinds_of, KindView, Token, TokenKind};

verus! {

/// The characters `v[from..to]` as a `String`.
fn string_of(v: &Vec<char>, from: usize, to: usize) -> (r: String)
    requires
        from <= to <= v@.len(),
    ensures
        r@ == v@.subrange(from as int, to as int),
{
    let mut r = String::new();
    let mut i = from;
    while i < to
        invariant
            from <= i <= to <= v@.len(),
            r@ == v@.subrange(from as int, i as int),
        decreases to - i,
    {
        push_char(&mut r, v[i]);
        i += 1;
        assert(r@ =~= v@.subrange(from as int, i as int));
    }
    r
}

/// What a number literal gives, seen through the views.
pub open spec fn number_view(r: Result<i32, ScanError>) -> Result<i32, ErrorView> {
    match r {
        Ok(n) => Ok(n),
        Err(e) => Err(e@),
    }
}

/// Reads the number literal `v[from..to]`.
fn parse_number(v: &Vec<char>, from: usize, to: usize) -> (r: Result<i32, ScanError>)
    requires
        from <= to <= v@.len(),
    ensures
        number_view(r) == number_of(v@.subrange(from as int, to as int)),
{
    let ghost t = v@.subrange(from as int, to as int);
    let mut acc: i32 = 0;
    let mut i = from;
    assert(t.take(0) =~= Seq::<char>::empty());
    while i < to
        invariant
            from <= i <= to <= v@.len(),
            t == v@.subrange(from as int, to as int),
            forall|k: int| 0 <= k < i - from ==> is_digit(#[trigger] t[k]),
            0 <= acc,
            acc as int == digits_value(t.take(i - from)),
        decreases to - i,
    {
        let ghost m = i - from;
        let c = v[i];
        assert(t[m] == c);
        if !('0' <= c && c <= '9') {
            proof {
                lemma_run_end_at(t, 0, m, CharClass::Digit);
            }
            return Err(ScanError::InvalidDigit);
        }
        let next: i64 = acc as i64 * 10 + (c as u32 - '0' as u32) as i64;
        assert(t.take(m + 1).drop_last() =~= t.take(m));
        assert(next == digits_value(t.take(m + 1)));
        if next > i32::MAX as i64 {
            proof {
                lemma_run_end(t, 0, CharClass::Digit);
                let e = run_end(t, 0, CharClass::Digit);
                if e < m + 1 {
                    assert(is_digit(t[e]));
                }
                lemma_digits_value_prefix(t, m + 1, e);
            }
            return Err(ScanError::NumberOverflow);
        }
        acc = next as i32;
        i += 1;
    }
    proof {
        lemma_run_end_at(t, 0, t.len() as int, CharClass::Digit);
        assert(t.take(t.len() as int) =~= t);
    }
    Ok(acc)
}

/// Whether `v[from..to]` is the word `k`.
fn spells(v: &Vec<char>, from: usize, to: usize, k: &[char]) -> (r: bool)
    requires
        from <= to <= v@.len(),
    ensures
        r == (v@.subrange(from as int, to as int) == k@),
{
    if to - from != k.len() {
        return false;
    }
    let mut i: usize = 0;
    while i < k.len()
        invariant
            from <= to <= v@.len(),
            to - from == k@.len(),
            0 <= i <= k@.len(),
            forall|m: int| 0 <= m < i ==> v@[from + m] == k@[m],
        decreases k.len() - i,
    {
        if v[from + i] != k[i] {
            assert(v@.subrange(from as int, to as int)[i as int] != k@[i as int]);
            return false;
        }
        i += 1;
    }
    assert(v@.subrange(from as int, to as int) =~= k@);
    true
}

/// The keyword token that `v[from..to]` spells, if any.
fn keyword_kind(v: &Vec<char>, from: usize, to: usize) -> (r: Option<TokenKind>)
    requires
        from <= to <= v@.len(),
    ensures
        match r {
            Some(k) => keyword(v@.subrange(from as int, to as int)) == Some(k@),
            None => keyword(v@.subrange(from as int, to as int)) is None,
        },
{
    let w = Ghost(v@.subrange(from as int, to as int));
    if spells(v, from, to, &['a', 'n', 'd']) {
        Some(TokenKind::And)
    } else if spells(v, from, to, &['c', 'l', 'a', 's', 's']) {
        Some(TokenKind::Class)
    } else if spells(v, from, to, &['e', 'l', 's', 'e']) {
        Some(TokenKind::Else)
    } else if spells(v, from, to, &['f', 'a', 'l', 's', 'e']) {
        Some(TokenKind::False)
    } else if spells(v, from, to, &['f', 'o', 'r']) {
        Some(TokenKind::For)
    } else if spells(v, from, to, &['f', 'u', 'n']) {
        Some(TokenKind::Fun)
    } else if spells(v, from, to, &['i', 'f']) {
        Some(TokenKind::If)
    } else if spells(v, from, to, &['n', 'i', 'l']) {
        Some(TokenKind::Nil)
    } else if spells(v, from, to, &['o', 'r']) {
        Some(TokenKind::Or)
    } else if spells(v, from, to, &['p', 'r', 'i', 'n', 't']) {
        Some(TokenKind::Print)
    } else if spells(v, from, to, &['r', 'e', 't', 'u', 'r', 'n']) {
        Some(TokenKind::Return)
    } else if spells(v, from, to, &['s', 'u', 'p', 'e', 'r']) {
        Some(TokenKind::Super)
    } else if spells(v, from, to, &['t', 'h', 'i', 's']) {
        Some(TokenKind::This)
    } else if spells(v, from, to, &['t', 'r', 'u', 'e']) {
        Some(TokenKind::True)
    } else if spells(v, from, to, &['v', 'a', 'r']) {
        Some(TokenKind::Var)
    } else if spells(v, from, to, &['w', 'h', 'i', 'l', 'e']) {
        Some(TokenKind::While)
    } else {
        None
    }
}


/// Scans `input` into its tokens, which end with a single `EndOfFile`, or stops at
/// the first error.
pub fn scan(input: &str) -> (r: Result<Vec<Token>, ScanError>)
    ensures
        match r {
            Ok(ts) => {
                &&& scanned(input@) == Ok::<KindSeq, ErrorView>(kinds_of(ts@))
                &&& ends_with_single_eof(kinds_of(ts@))
            },
            Err(e) => scanned(input@) == Err::<KindSeq, ErrorView>(e@),
        },
{
    proof {
        lemma_scan_from_eof(input@, 0);
    }
    let mut scanner = Scanner::new(input);
    scanner.scan()
}

/// A cursor over the characters of one input, and the tokens found so far.
struct Scanner {
    input: Vec<char>,
    current: usize,
    tokens: Vec<Token>,
}

impl Scanner {
    /// The cursor stands within the input, or just past its end.
    spec fn wf(&self) -> bool {
        self.current <= self.input@.len() <= usize::MAX
    }

    fn new(input: &str) -> (r: Self)
        ensures
            r.wf(),
            r.input@ == input@,
            r.current == 0,
            r.tokens@.len() == 0,
    {
        let input = chars_of(input);
        // A call of `len` makes known that the length fits in a `usize`.
        let _ = input.len();
        Scanner { input, current: 0, tokens: Vec::new() }
    }

    /// Reads tokens until the input ends, then adds `EndOfFile` and hands them out.
    fn scan(&mut self) -> (r: Result<Vec<Token>, ScanError>)
        requires
            old(self).wf(),
            old(self).current == 0,
            old(self).tokens@.len() == 0,
        ensures
            match r {
                Ok(ts) => scanned(old(self).input@) == Ok::<KindSeq, ErrorView>(
                    kinds_of(ts@),
                ),
                Err(e) => scanned(old(self).input@) == Err::<KindSeq, ErrorView>(e@),
            },
    {
        let ghost s = self.input@;
        assert(kinds_of(self.tokens@) =~= Seq::<KindView>::empty());
        assert(prepend(Seq::empty(), scan_from(s, 0)) =~= scan_from(s, 0)) by {
            match scan_from(s, 0) {
                Ok(ts) => assert(Seq::<KindView>::empty() + ts =~= ts),
                Err(_) => {},
            }
        }
        loop
            invariant
                self.wf(),
                self.input@ == s,
                s == old(self).input@,
                scanned(s) == prepend(kinds_of(self.tokens@), scan_from(s, self.current as int)),
            decreases s.len() - self.current,
        {
            let ghost before = *self;
            if let Err(e) = self.scan_next_token() {
                assert(scan_from(s, before.current as int) == Err::<KindSeq, ErrorView>(e@));
                return Err(e);
            }
            proof {
                let j = run_end(s, before.current as int, CharClass::Space);
                lemma_run_end(s, before.current as int, CharClass::Space);
                if j < s.len() {
                    lemma_lex_at_advances(s, j);
                    let (t, k) = lex_at(s, j)->Ok_0;
                    if let Ok(ts) = scan_from(s, k) {
                        assert(kinds_of(before.tokens@) + (opt_seq(t) + ts) =~= kinds_of(
                            self.tokens@,
                        ) + ts);
                    }
                }
            }
            if self.is_at_end() {
                assert(scan_from(s, self.current as int) == Ok::<KindSeq, ErrorView>(
                    seq![KindView::EndOfFile],
                ));
                let ghost ks = kinds_of(self.tokens@);
                self.add_token(TokenKind::EndOfFile);
                assert(ks.push(KindView::EndOfFile) =~= ks + seq![KindView::EndOfFile]);
                let mut out: Vec<Token> = Vec::new();
                std::mem::swap(&mut out, &mut self.tokens);
                return Ok(out);
            }
        }
    }

    /// Skips whitespace, then reads one token or comment, if any is left.
    fn scan_next_token(&mut self) -> (r: Result<(), ScanError>)
        requires
            old(self).wf(),
        ensures
            final(self).wf(),
            final(self).input == old(self).input,
            ({
                let s = old(self).input@;
                let j = run_end(s, old(self).current as int, CharClass::Space);
                match r {
                    Ok(_) => if j >= s.len() {
                        final(self).current == j && kinds_of(final(self).tokens@) == kinds_of(
                            old(self).tokens@,
                        )
                    } else {
                        lex_at(s, j) matches Ok((t, k)) && final(self).current == k && kinds_of(
                            final(self).tokens@,
                        ) == kinds_of(old(self).tokens@) + opt_seq(t)
                    },
                    Err(e) => j < s.len() && lex_at(s, j) == Err::<(Option<KindView>, int), ErrorView>(e@),
                }
            }),
    {
        let ghost s = self.input@;
        self.consume_whitespace();
        if self.is_at_end() {
            return Ok(());
        }
        let ghost j = self.current as int;
        proof {
            lemma_run_end(s, j + 1, CharClass::NotQuote);
            lemma_run_end(s, j + 1, CharClass::Numeric);
            lemma_run_end(s, j + 1, CharClass::Alphabetic);
        }
        let ch = self.eat_next();
        match ch {
            '(' => self.add_token(TokenKind::LeftParen),
            ')' => self.add_token(TokenKind::RightParen),
            '{' => self.add_token(TokenKind::LeftBrace),
            '}' => self.add_token(TokenKind::RightBrace),
            ',' => self.add_token(TokenKind::Comma),
            '.' => self.add_token(TokenKind::Dot),
            ';' => self.add_token(TokenKind::Semicolon),
            '-' => self.add_token(TokenKind::Minus),
            '+' => self.add_token(TokenKind::Plus),
            '*' => self.add_token(TokenKind::Star),
            '/' => match self.try_eat_next(CharClass::Exactly('/')) {
                Some(_) => self.consume_single_line_comment(),
                None => self.add_token(TokenKind::Slash),
            },
            '!' => match self.try_eat_next(CharClass::Exactly('=')) {
                Some(_) => self.add_token(TokenKind::BangEqual),
                None => self.add_token(TokenKind::Bang),
            },
            '=' => match self.try_eat_next(CharClass::Exactly('=')) {
                Some(_) => self.add_token(TokenKind::EqualEqual),
                None => self.add_token(TokenKind::Equal),
            },
            '<' => match self.try_eat_next(CharClass::Exactly('=')) {
                Some(_) => self.add_token(TokenKind::LessEqual),
                None => self.add_token(TokenKind::Less),
            },
            '>' => match self.try_eat_next(CharClass::Exactly('=')) {
                Some(_) => self.add_token(TokenKind::GreaterEqual),
                None => self.add_token(TokenKind::Greater),
            },
            '"' => {
                let start = self.current;
                self.consume_while(CharClass::NotQuote);
                if self.is_at_end() {
                    return Err(ScanError::UnterminatedString);
                }
                self.advance();
                let end = self.current - 1;
                let string = string_of(&self.input, start, end);
                self.add_token(TokenKind::String(string));
            },
            _ => {
                let start = self.current - 1;
                if CharClass::Numeric.holds(ch) {
                    self.consume_while(CharClass::Numeric);
                    let number = parse_number(&self.input, start, self.current)?;
                    self.add_token(TokenKind::Number(number));
                } else if CharClass::Alphabetic.holds(ch) {
                    self.consume_while(CharClass::Alphabetic);
                    match keyword_kind(&self.input, start, self.current) {
                        Some(kind) => self.add_token(kind),
                        None => {
                            let word = string_of(&self.input, start, self.current);
                            return Err(ScanError::UnrecognizedKeyword(word));
                        },
                    }
                } else {
                    return Err(ScanError::UnrecognizedToken(ch));
                }
            },
        }
        Ok(())
    }

    fn consume_whitespace(&mut self)
        requires
            old(self).wf(),
        ensures
            final(self).wf(),
            final(self).input == old(self).input,
            final(self).tokens == old(self).tokens,
            final(self).current == run_end(old(self).input@, old(self).current as int, CharClass::Space),
    {
        self.consume_while(CharClass::Space)
    }

    fn consume_single_line_comment(&mut self)
        requires
            old(self).wf(),
        ensures
            final(self).wf(),
            final(self).input == old(self).input,
            final(self).tokens == old(self).tokens,
            final(self).current == run_end(old(self).input@, old(self).current as int, CharClass::NotNewline),
    {
        self.consume_while(CharClass::NotNewline)
    }

    /// Consumes the longest run of characters of `class` at the cursor.
    fn consume_while(&mut self, class: CharClass)
        requires
            old(self).wf(),
        ensures
            final(self).wf(),
            final(self).input == old(self).input,
            final(self).tokens == old(self).tokens,
            final(self).current == run_end(old(self).input@, old(self).current as int, class),
    {
        let ghost s = self.input@;
        let ghost i = self.current as int;
        proof {
            lemma_run_end(s, i, class);
        }
        loop
            invariant
                self.wf(),
                self.input == old(self).input,
                self.input@ == s,
                i == old(self).current,
                self.tokens == old(self).tokens,
                i <= self.current <= run_end(s, i, class),
                run_end(s, self.current as int, class) == run_end(s, i, class),
            ensures
                self.current == run_end(s, i, class),
            decreases s.len() - self.current,
        {
            let ghost cur = self.current as int;
            if let None = self.try_eat_next(class) {
                assert(run_end(s, cur, class) == cur);
                break;
            }
            assert(run_end(s, cur, class) == run_end(s, cur + 1, class));
            proof {
                lemma_run_end(s, cur + 1, class);
            }
        }
    }

    /// Takes the character at the cursor.
    fn eat_next(&mut self) -> (r: char)
        requires
            old(self).wf(),
            old(self).current < old(self).input@.len(),
        ensures
            final(self).wf(),
            final(self).input == old(self).input,
            final(self).tokens == old(self).tokens,
            final(self).current == old(self).current + 1,
            r == old(self).input@[old(self).current as int],
    {
        let c = self.next();
        self.advance();
        c
    }

    /// Takes the character at the cursor if there is one and it is of `class`.
    fn try_eat_next(&mut self, class: CharClass) -> (r: Option<char>)
        requires
            old(self).wf(),
        ensures
            final(self).wf(),
            final(self).input == old(self).input,
            final(self).tokens == old(self).tokens,
            ({
                let at = old(self).current as int;
                if at < old(self).input@.len() && class.spec_holds(old(self).input@[at]) {
                    r == Some(old(self).input@[at]) && final(self).current == at + 1
                } else {
                    r is None && final(self).current == at
                }
            }),
    {
        if self.is_at_end() {
            return None;
        }
        let ch = self.next();
        if class.holds(ch) {
            self.advance();
            return Some(ch);
        }
        None
    }

    fn next(&self) -> (r: char)
        requires
            self.current < self.input@.len(),
        ensures
            r == self.input@[self.current as int],
    {
        self.input[self.current]
    }

    fn advance(&mut self)
        requires
            old(self).wf(),
            old(self).current < old(self).input@.len(),
        ensures
            final(self).wf(),
            final(self).input == old(self).input,
            final(self).tokens == old(self).tokens,
            final(self).current == old(self).current + 1,
    {
        self.current += 1
    }

    fn is_at_end(&self) -> (r: bool)
        ensures
            r == (self.current >= self.input@.len()),
    {
        self.current >= self.input.len()
    }

    fn add_token(&mut self, kind: TokenKind)
        ensures
            final(self).input == old(self).input,
            final(self).current == old(self).current,
            kinds_of(final(self).tokens@) == kinds_of(old(self).tokens@).push(kind@),
    {
        let new_token = Token { kind };
        self.tokens.push(new_token);
        assert(kinds_of(self.tokens@) =~= kinds_of(old(self).tokens@).push(kind@));
    }
}

} // verus!
