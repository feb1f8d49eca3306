use vstd::prelude::*;
use vstd::string::StringExecFns;

verus! {

/// Why a scan stopped.
#[derive(Debug, PartialEq, Clone)]
pub enum ScanError {
    /// A character that starts no token.
    UnrecognizedToken(char),
    /// A run of alphabetic characters that is not a keyword.
    UnrecognizedKeyword(String),
    /// The input ended inside a string literal.
    UnterminatedString,
    /// A number literal does not fit in an `i32`.
    NumberOverflow,
    /// A run of numeric characters holds one that is not a decimal digit.
    InvalidDigit,
}

/// The mathematical value of a `ScanError`: a word is seen as its characters.
pub enum ErrorView {
    UnrecognizedToken(char),
    UnrecognizedKeyword(Seq<char>),
    UnterminatedString,
    NumberOverflow,
    InvalidDigit,
}

impl View for ScanError {
    type V = ErrorView;

    open spec fn view(&self) -> ErrorView {
        match self {
            ScanError::UnrecognizedToken(c) => ErrorView::UnrecognizedToken(*c),
            ScanError::UnrecognizedKeyword(w) => ErrorView::UnrecognizedKeyword(w@),
            ScanError::UnterminatedString => ErrorView::UnterminatedString,
            ScanError::NumberOverflow => ErrorView::NumberOverflow,
            ScanError::InvalidDigit => ErrorView::InvalidDigit,
        }
    }
}

/// The text that describes an error.
pub open spec fn message_of(e: ErrorView) -> Seq<char> {
    match e {
        ErrorView::UnrecognizedToken(c) => "scanner: unrecognized token: '"@ + seq![c] + "'"@,
        ErrorView::UnrecognizedKeyword(w) => "unrecognized keyword: "@ + w,
        ErrorView::UnterminatedString => "unterminated string"@,
        ErrorView::NumberOverflow => "number too large to fit in target type"@,
        ErrorView::InvalidDigit => "invalid digit found in string"@,
    }
}

/// Relies on `String::push`: appends `c` to the end of `s`.
#[verifier::external_body]
pub(crate) fn push_char(s: &mut String, c: char)
    ensures
        final(s)@ == old(s)@.push(c),
{
    s.push(c)
}

impl ScanError {
    /// A description of the error for people to read.
    pub fn message(&self) -> (r: String)
        ensures
            r@ == message_of(self@),
    {
        match self {
            ScanError::UnrecognizedToken(c) => {
                let mut m = String::from_str("scanner: unrecognized token: '");
                push_char(&mut m, *c);
                m.append("'");
                m
            },
            ScanError::UnrecognizedKeyword(w) => {
                let mut m = String::from_str("unrecognized keyword: ");
                m.append(w.as_str());
                m
            },
            ScanError::UnterminatedString => String::from_str("unterminated string"),
            ScanError::NumberOverflow => String::from_str("number too large to fit in target type"),
            ScanError::InvalidDigit => String::from_str("invalid digit found in string"),
        }
    }
}

} // verus!
