use lox_scanner::scanner::scan;
use lox_scanner::token::TokenKind;
use lox_scanner::token::TokenKind::{
    And, Bang, BangEqual, Class, Comma, Dot, Else, EndOfFile, Equal, EqualEqual, False, For, Fun,
    Greater, GreaterEqual, If, LeftBrace, LeftParen, Less, LessEqual, Minus, Nil, Number, Or, Plus,
    Print, Return, RightBrace, RightParen, Semicolon, Slash, Star, Super, This, True, Var, While,
};

fn expect_kinds(name: &str, input: &str, expected: &[TokenKind]) {
    match scan(input) {
        Ok(tokens) => {
            let actual: Vec<TokenKind> = tokens.iter().map(|t| t.kind.clone()).collect();
            assert_eq!(actual, expected.to_vec(), "case '{}', input '{}'", name, input);
        }
        Err(e) => panic!(
            "case '{}', input '{}': expected success, but the scan failed with: {}",
            name,
            input,
            e.message()
        ),
    }
}

fn expect_error(name: &str, input: &str, expected: &str) {
    match scan(input) {
        Ok(_) => panic!("case '{}', input '{}': expected a scan error", name, input),
        Err(e) => {
            let actual = e.message();
            assert!(
                actual.contains(expected),
                "case '{}', input '{}': message '{}' does not contain '{}'",
                name,
                input,
                actual,
                expected
            );
        }
    }
}

fn text(s: &str) -> TokenKind {
    TokenKind::String(s.to_string())
}

#[test]
fn ignores_whitespace() {
    expect_kinds("success - only spaces", "  ", &[EndOfFile]);
    expect_kinds("success - only tabs", "\t\t", &[EndOfFile]);
    expect_kinds("success - only newlines", "\n\n", &[EndOfFile]);
    expect_kinds("success - only carriage returns", "\r\r", &[EndOfFile]);
    expect_kinds("success - mixed whitespace", " \t \n \r ", &[EndOfFile]);
    expect_kinds("success - leading whitespace", "  + ", &[Plus, EndOfFile]);
    expect_kinds("success - trailing whitespace", "+  ", &[Plus, EndOfFile]);
    expect_kinds("success - surrounding whitespace", " +  ", &[Plus, EndOfFile]);
    expect_kinds(
        "success - whitespace between numbers",
        "10 + 20",
        &[Number(10), Plus, Number(20), EndOfFile],
    );
    expect_kinds(
        "success - mixed whitespace between numbers",
        " 10\t+\n20\r ",
        &[Number(10), Plus, Number(20), EndOfFile],
    );
    expect_kinds("success - empty input", "", &[EndOfFile]);
}

#[test]
fn number_literal() {
    expect_kinds("success - single digit", "4", &[Number(4), EndOfFile]);
    expect_kinds("success - multiple digits", "44", &[Number(44), EndOfFile]);
    expect_kinds("success - zero", "0", &[Number(0), EndOfFile]);
    expect_kinds("success - max i32 value", "2147483647", &[Number(i32::MAX), EndOfFile]);
    expect_kinds(
        "success - numbers in an expression",
        "12 + 345",
        &[Number(12), Plus, Number(345), EndOfFile],
    );
    expect_error(
        "failure - invalid character after a number",
        "0d",
        "unrecognized keyword: d",
    );
}

#[test]
fn string_literal() {
    expect_kinds(
        "success - single char string",
        "\n                    \"a\"\n                ",
        &[text("a"), EndOfFile],
    );
    expect_kinds(
        "success - multi char string",
        "\n                    \"test string\"\n                ",
        &[text("test string"), EndOfFile],
    );
    expect_kinds(
        "success - string with numbers and symbols",
        "\n                    \"abc !@ 会意 3ab.d\"\n                ",
        &[text("abc !@ 会意 3ab.d"), EndOfFile],
    );
    expect_kinds(
        "success - string concat",
        "\n                    \"a\" + \"bbb\"\n                ",
        &[text("a"), Plus, text("bbb"), EndOfFile],
    );
    expect_error(
        "failure - unterminated string literal",
        "\n                    \"a + 3\n                ",
        "unterminated string",
    );
}

#[test]
fn addition_stress_test() {
    expect_kinds("success - simple addition", "8 + 2", &[Number(8), Plus, Number(2), EndOfFile]);
    expect_kinds(
        "success - chained addition",
        "8 + 2 + 1",
        &[Number(8), Plus, Number(2), Plus, Number(1), EndOfFile],
    );
    expect_kinds(
        "success - multi-digit addition",
        "882 + 2",
        &[Number(882), Plus, Number(2), EndOfFile],
    );
}

#[test]
fn single_character() {
    expect_kinds("success - parenthesis", "()", &[LeftParen, RightParen, EndOfFile]);
    expect_kinds("success - brace", "{}", &[LeftBrace, RightBrace, EndOfFile]);
    expect_kinds("success - punctuation", ",.;", &[Comma, Dot, Semicolon, EndOfFile]);
    expect_kinds("success - operators", "-+/*", &[Minus, Plus, Slash, Star, EndOfFile]);
}

#[test]
fn multi_character() {
    expect_kinds("success - bang equal", "!=!", &[BangEqual, Bang, EndOfFile]);
    expect_kinds("success - equal equal", "===", &[EqualEqual, Equal, EndOfFile]);
    expect_kinds("success - less equal", "<<==", &[Less, LessEqual, Equal, EndOfFile]);
    expect_kinds(
        "success - greater equal",
        ">>==",
        &[Greater, GreaterEqual, Equal, EndOfFile],
    );
}

#[test]
fn code_comments() {
    expect_kinds("success - division", "/", &[Slash, EndOfFile]);
    expect_kinds("success - single line comment", "// single line comment", &[EndOfFile]);
    expect_kinds(
        "success - single line comment with slash",
        "\n                    /\n                    // comment\n                    /\n                ",
        &[Slash, Slash, EndOfFile],
    );
}

#[test]
fn keyword() {
    expect_kinds(
        "success - all keywords",
        "\n                    and\n                    class\n                    else\n                    false\n                    for\n                    fun\n                    if\n                    nil\n                    or\n                    print\n                    return\n                    super\n                    this\n                    true\n                    var\n                    while\n                ",
        &[
            And, Class, Else, False, For, Fun, If, Nil, Or, Print, Return, Super, This, True, Var,
            While, EndOfFile,
        ],
    );
    expect_kinds("success - keyword expression", "3 and true", &[Number(3), And, True, EndOfFile]);
    expect_error("failure - invalid keyword", "d", "unrecognized keyword: d");
}

#[test]
fn fails_on_unrecognized_input() {
    expect_error(
        "failures - unrecognized single character",
        "?",
        "unrecognized token: '?'",
    );
}
