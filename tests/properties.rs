use lox_scanner::error::ScanError;
use lox_scanner::scanner::scan;
use lox_scanner::token::TokenKind;
use lox_scanner::token::TokenKind::{
    And, Class, Else, EndOfFile, Equal, EqualEqual, False, For, Fun, If, LeftParen, Less,
    LessEqual, Minus, Nil, Number, Or, Plus, Print, Return, RightParen, Semicolon, Slash, Super,
    This, True, Var, While,
};

fn kinds(input: &str) -> Vec<TokenKind> {
    match scan(input) {
        Ok(tokens) => tokens.into_iter().map(|t| t.kind).collect(),
        Err(e) => panic!("input '{}' failed to scan: {}", input, e.message()),
    }
}

fn error(input: &str) -> ScanError {
    match scan(input) {
        Ok(tokens) => panic!("input '{}' scanned to {:?}", input, tokens),
        Err(e) => e,
    }
}

fn without_end(mut ks: Vec<TokenKind>) -> Vec<TokenKind> {
    assert_eq!(ks.pop(), Some(EndOfFile));
    ks
}

#[test]
fn end_of_file_comes_once_and_last() {
    for input in ["", "(", "1 + 2", "// c\n;", "\"s\" and or", "  \n"] {
        let ks = kinds(input);
        assert_eq!(ks.last(), Some(&EndOfFile));
        assert_eq!(ks.iter().filter(|k| **k == EndOfFile).count(), 1);
    }
}

#[test]
fn whitespace_only_inputs() {
    assert_eq!(kinds(" \r\n\t\t\n  \r"), vec![EndOfFile]);
    assert_eq!(kinds("\n"), vec![EndOfFile]);
}

#[test]
fn other_whitespace_is_no_separator() {
    assert_eq!(error("\u{000C}"), ScanError::UnrecognizedToken('\u{000C}'));
}

#[test]
fn comment_is_erased() {
    assert_eq!(kinds("// anything\n"), kinds(""));
    assert_eq!(kinds("// anything\n- 4;"), kinds("- 4;"));
    assert_eq!(kinds("// a / \" b\n("), vec![LeftParen, EndOfFile]);
    assert_eq!(kinds("1 // x\n2"), vec![Number(1), Number(2), EndOfFile]);
}

#[test]
fn operators_munch_maximally() {
    assert_eq!(kinds("<<=="), vec![Less, LessEqual, Equal, EndOfFile]);
    assert_eq!(kinds("==="), vec![EqualEqual, Equal, EndOfFile]);
    assert_eq!(kinds("/ /"), vec![Slash, Slash, EndOfFile]);
}

#[test]
fn numbers_round_trip() {
    for n in [0, 7, 10, 99, 1234567890, i32::MAX] {
        assert_eq!(kinds(&n.to_string()), vec![Number(n), EndOfFile]);
    }
}

#[test]
fn number_past_i32_overflows() {
    assert_eq!(error("2147483648"), ScanError::NumberOverflow);
    assert_eq!(error("99999999999"), ScanError::NumberOverflow);
    assert!(error("21474836470").message().contains("too large"));
}

#[test]
fn numeric_run_with_other_digits_is_invalid() {
    assert_eq!(error("1\u{0663}"), ScanError::InvalidDigit);
    assert_eq!(error("\u{00B2}"), ScanError::InvalidDigit);
    assert_eq!(error("\u{00B2}").message(), "invalid digit found in string");
}

#[test]
fn string_literal_extraction() {
    assert_eq!(
        kinds("\"abc\""),
        vec![TokenKind::String("abc".to_string()), EndOfFile]
    );
    assert_eq!(
        kinds("\"\"-"),
        vec![TokenKind::String(String::new()), Minus, EndOfFile]
    );
    assert_eq!(
        kinds("\"a // b\""),
        vec![TokenKind::String("a // b".to_string()), EndOfFile]
    );
    assert_eq!(error("\"abc"), ScanError::UnterminatedString);
    assert_eq!(error("\""), ScanError::UnterminatedString);
    assert_eq!(error("\"abc").message(), "unterminated string");
}

#[test]
fn each_keyword_scans_alone() {
    let table = [
        ("and", And),
        ("class", Class),
        ("else", Else),
        ("false", False),
        ("for", For),
        ("fun", Fun),
        ("if", If),
        ("nil", Nil),
        ("or", Or),
        ("print", Print),
        ("return", Return),
        ("super", Super),
        ("this", This),
        ("true", True),
        ("var", Var),
        ("while", While),
    ];
    for (word, kind) in table {
        assert_eq!(kinds(word), vec![kind, EndOfFile]);
    }
}

#[test]
fn other_words_are_unrecognized() {
    assert_eq!(error("d"), ScanError::UnrecognizedKeyword("d".to_string()));
    assert_eq!(error("classy"), ScanError::UnrecognizedKeyword("classy".to_string()));
    assert_eq!(error("And"), ScanError::UnrecognizedKeyword("And".to_string()));
    assert_eq!(error("12abc"), ScanError::UnrecognizedKeyword("abc".to_string()));
    assert_eq!(error("classy").message(), "unrecognized keyword: classy");
}

#[test]
fn non_ascii_letters_form_words() {
    assert_eq!(error("\u{00E9}t\u{00E9}"), ScanError::UnrecognizedKeyword("\u{00E9}t\u{00E9}".to_string()));
    assert_eq!(error("or\u{4F1A}"), ScanError::UnrecognizedKeyword("or\u{4F1A}".to_string()));
}

#[test]
fn numeric_letter_starts_a_number() {
    assert_eq!(error("\u{216B}"), ScanError::InvalidDigit);
}

#[test]
fn unrecognized_character_is_named() {
    assert_eq!(error("?"), ScanError::UnrecognizedToken('?'));
    assert!(error("?").message().contains('?'));
    assert_eq!(error("?").message(), "scanner: unrecognized token: '?'");
    assert_eq!(error("1 + @").message(), "scanner: unrecognized token: '@'");
}

#[test]
fn joined_inputs_scan_to_joined_tokens() {
    let pairs = [
        ("1 +", "2;"),
        ("=", "="),
        ("/", "/"),
        ("and", "or"),
        ("12", "34"),
        ("\"a\"", "(1)"),
        ("", "print"),
    ];
    for (a, b) in pairs {
        for sep in [" ", "\n", "\t\r", " \n "] {
            let mut expected = without_end(kinds(a));
            expected.extend(kinds(b));
            assert_eq!(kinds(&format!("{}{}{}", a, sep, b)), expected);
        }
    }
}

#[test]
fn trailing_comment_needs_a_newline_to_join() {
    let a = "1 // note";
    let mut expected = without_end(kinds(a));
    expected.extend(kinds("2"));
    assert_eq!(kinds(&format!("{}\n{}", a, "2")), expected);
    assert_eq!(kinds(&format!("{} {}", a, "2")), vec![Number(1), EndOfFile]);
}

#[test]
fn punctuation_after_numbers() {
    assert_eq!(kinds("(12);"), vec![LeftParen, Number(12), RightParen, Semicolon, EndOfFile]);
}
