use vstd::prelude::*;
use vstd::std_specs::iter::IteratorSpec;

verus! {

/// What `char::is_numeric` answers for `c`: whether `c` is in one of Unicode's
/// general categories for numbers.
pub uninterp spec fn unicode_numeric(c: char) -> bool;

/// What `char::is_alphabetic` answers for `c`: whether `c` has Unicode's
/// `Alphabetic` property.
pub uninterp spec fn unicode_alphabetic(c: char) -> bool;

pub open spec fn is_ascii(c: char) -> bool {
    (c as u32) < 128
}

pub open spec fn is_digit(c: char) -> bool {
    '0' <= c && c <= '9'
}

pub open spec fn is_letter(c: char) -> bool {
    ('a' <= c && c <= 'z') || ('A' <= c && c <= 'Z')
}

/// Whether `c` is one of the four characters that separate tokens.
pub open spec fn is_space(c: char) -> bool {
    c == ' ' || c == '\t' || c == '\n' || c == '\r'
}

/// Whether `c` is numeric: among ASCII characters, exactly the ten decimal digits.
pub open spec fn numeric_char(c: char) -> bool {
    if is_ascii(c) {
        is_digit(c)
    } else {
        unicode_numeric(c)
    }
}

/// Whether `c` is alphabetic: among ASCII characters, exactly the 52 Latin letters.
pub open spec fn alphabetic_char(c: char) -> bool {
    if is_ascii(c) {
        is_letter(c)
    } else {
        unicode_alphabetic(c)
    }
}

/// Relies on `char::is_numeric`: the answer depends on the character alone; an
/// ASCII character is numeric exactly when it is one of `'0'..='9'`.
#[verifier::external_body]
fn numeric(c: char) -> (r: bool)
    ensures
        is_ascii(c) ==> r == is_digit(c),
        !is_ascii(c) ==> r == unicode_numeric(c),
{
    c.is_numeric()
}

/// Relies on `char::is_alphabetic`: the answer depends on the character alone; an
/// ASCII character is alphabetic exactly when it is in `'a'..='z'` or `'A'..='Z'`.
#[verifier::external_body]
fn alphabetic(c: char) -> (r: bool)
    ensures
        is_ascii(c) ==> r == is_letter(c),
        !is_ascii(c) ==> r == unicode_alphabetic(c),
{
    c.is_alphabetic()
}

/// The classes of characters that the scanner tests and consumes runs of.
#[derive(Clone, Copy)]
pub enum CharClass {
    Exactly(char),
    Space,
    NotNewline,
    NotQuote,
    Numeric,
    Alphabetic,
    Digit,
}

impl CharClass {
    /// Whether `c` belongs to the class.
    pub open spec fn spec_holds(self, c: char) -> bool {
        match self {
            CharClass::Exactly(x) => c == x,
            CharClass::Space => is_space(c),
            CharClass::NotNewline => c != '\n',
            CharClass::NotQuote => c != '"',
            CharClass::Numeric => numeric_char(c),
            CharClass::Alphabetic => alphabetic_char(c),
            CharClass::Digit => is_digit(c),
        }
    }

    /// Tests whether `c` belongs to the class.
    pub fn holds(&self, c: char) -> (r: bool)
        ensures
            r == self.spec_holds(c),
    {
        match self {
            CharClass::Exactly(x) => c == *x,
            CharClass::Space => c == ' ' || c == '\t' || c == '\n' || c == '\r',
            CharClass::NotNewline => c != '\n',
            CharClass::NotQuote => c != '"',
            CharClass::Numeric => numeric(c),
            CharClass::Alphabetic => alphabetic(c),
            CharClass::Digit => '0' <= c && c <= '9',
        }
    }
}

/// The end of the longest run of characters of `class` in `s` that starts at `i`.
pub open spec fn run_end(s: Seq<char>, i: int, class: CharClass) -> int
    decreases s.len() - i,
{
    if 0 <= i < s.len() && class.spec_holds(s[i]) {
        run_end(s, i + 1, class)
    } else {
        i
    }
}

/// A run stays within `s`, holds only characters of its class, and stops at the
/// end of `s` or at a character of another class.
pub proof fn lemma_run_end(s: Seq<char>, i: int, class: CharClass)
    requires
        0 <= i <= s.len(),
    ensures
        i <= run_end(s, i, class) <= s.len(),
        forall|k: int| i <= k < run_end(s, i, class) ==> class.spec_holds(#[trigger] s[k]),
        run_end(s, i, class) < s.len() ==> !class.spec_holds(s[run_end(s, i, class)]),
    decreases s.len() - i,
{
    if i < s.len() && class.spec_holds(s[i]) {
        lemma_run_end(s, i + 1, class);
    }
}

/// A run of `class` from `i` that stops at `e` ends at `e`.
pub proof fn lemma_run_end_at(s: Seq<char>, i: int, e: int, class: CharClass)
    requires
        0 <= i <= e <= s.len(),
        forall|k: int| i <= k < e ==> class.spec_holds(#[trigger] s[k]),
        e == s.len() || !class.spec_holds(s[e]),
    ensures
        run_end(s, i, class) == e,
    decreases e - i,
{
    if i < e {
        lemma_run_end_at(s, i + 1, e, class);
    }
}

/// A run is the same in `p + r` as in `r`, shifted by the length of `p`.
pub proof fn lemma_run_end_shift(p: Seq<char>, r: Seq<char>, j: int, class: CharClass)
    requires
        0 <= j <= r.len(),
    ensures
        run_end(p + r, p.len() + j, class) == p.len() + run_end(r, j, class),
    decreases r.len() - j,
{
    if j < r.len() {
        assert((p + r)[p.len() + j] == r[j]);
        if class.spec_holds(r[j]) {
            lemma_run_end_shift(p, r, j + 1, class);
        }
    }
}

/// A run that stops inside `a` stops at the same place in any extension of `a`;
/// one that reaches the end of `a` goes on as the run from there.
pub proof fn lemma_run_end_extend(a: Seq<char>, t: Seq<char>, i: int, class: CharClass)
    requires
        0 <= i <= a.len(),
    ensures
        run_end(a, i, class) < a.len() ==> run_end(a + t, i, class) == run_end(a, i, class),
        run_end(a, i, class) == a.len() ==> run_end(a + t, i, class) == run_end(
            a + t,
            a.len() as int,
            class,
        ),
    decreases a.len() - i,
{
    if i < a.len() {
        assert((a + t)[i] == a[i]);
        if class.spec_holds(a[i]) {
            lemma_run_end_extend(a, t, i + 1, class);
        }
    }
}

/// The characters of `s`, in order.
pub fn chars_of(s: &str) -> (r: Vec<char>)
    ensures
        r@ == s@,
{
    broadcast use vstd::string::group_string_axioms;

    let mut it = s.chars();
    let mut v: Vec<char> = Vec::new();
    assert(v@ + it.remaining() =~= s@);
    loop
        invariant
            v@ + it.remaining() == s@,
            it.obeys_prophetic_iter_laws(),
            it.decrease() is Some,
        ensures
            v@ == s@,
        decreases it.decrease()->0,
    {
        match it.next() {
            Some(c) => {
                v.push(c);
                assert(v@ + it.remaining() =~= s@);
            },
            None => {
                break;
            },
        }
    }
    v
}

} // verus!
