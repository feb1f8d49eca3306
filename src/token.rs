use vstd::prelude::*;

verus! {

/// The classification of a token, with the value that a literal carries.
#[derive(Debug, PartialEq, Clone)]
pub enum TokenKind {
    LeftParen,
    RightParen,
    LeftBrace,
    RightBrace,
    Comma,
    Dot,
    Semicolon,
    Minus,
    Plus,
    Star,
    Slash,
    Bang,
    BangEqual,
    Equal,
    EqualEqual,
    Less,
    LessEqual,
    Greater,
    GreaterEqual,
    Number(i32),
    String(String),
    And,
    Class,
    Else,
    False,
    For,
    Fun,
    If,
    Nil,
    Or,
    Print,
    Return,
    Super,
    This,
    True,
    Var,
    While,
    EndOfFile,
}

/// The mathematical value of a `TokenKind`: a string literal is seen as its characters.
pub enum KindView {
    LeftParen,
    RightParen,
    LeftBrace,
    RightBrace,
    Comma,
    Dot,
    Semicolon,
    Minus,
    Plus,
    Star,
    Slash,
    Bang,
    BangEqual,
    Equal,
    EqualEqual,
    Less,
    LessEqual,
    Greater,
    GreaterEqual,
    Number(i32),
    Str(Seq<char>),
    And,
    Class,
    Else,
    False,
    For,
    Fun,
    If,
    Nil,
    Or,
    Print,
    Return,
    Super,
    This,
    True,
    Var,
    While,
    EndOfFile,
}

impl View for TokenKind {
    type V = KindView;

    open spec fn view(&self) -> KindView {
        match self {
            TokenKind::LeftParen => KindView::LeftParen,
            TokenKind::RightParen => KindView::RightParen,
            TokenKind::LeftBrace => KindView::LeftBrace,
            TokenKind::RightBrace => KindView::RightBrace,
            TokenKind::Comma => KindView::Comma,
            TokenKind::Dot => KindView::Dot,
            TokenKind::Semicolon => KindView::Semicolon,
            TokenKind::Minus => KindView::Minus,
            TokenKind::Plus => KindView::Plus,
            TokenKind::Star => KindView::Star,
            TokenKind::Slash => KindView::Slash,
            TokenKind::Bang => KindView::Bang,
            TokenKind::BangEqual => KindView::BangEqual,
            TokenKind::Equal => KindView::Equal,
            TokenKind::EqualEqual => KindView::EqualEqual,
            TokenKind::Less => KindView::Less,
            TokenKind::LessEqual => KindView::LessEqual,
            TokenKind::Greater => KindView::Greater,
            TokenKind::GreaterEqual => KindView::GreaterEqual,
            TokenKind::Number(n) => KindView::Number(*n),
            TokenKind::String(s) => KindView::Str(s@),
            TokenKind::And => KindView::And,
            TokenKind::Class => KindView::Class,
            TokenKind::Else => KindView::Else,
            TokenKind::False => KindView::False,
            TokenKind::For => KindView::For,
            TokenKind::Fun => KindView::Fun,
            TokenKind::If => KindView::If,
            TokenKind::Nil => KindView::Nil,
            TokenKind::Or => KindView::Or,
            TokenKind::Print => KindView::Print,
            TokenKind::Return => KindView::Return,
            TokenKind::Super => KindView::Super,
            TokenKind::This => KindView::This,
            TokenKind::True => KindView::True,
            TokenKind::Var => KindView::Var,
            TokenKind::While => KindView::While,
            TokenKind::EndOfFile => KindView::EndOfFile,
        }
    }
}

/// One unit of the scanner's output.
#[derive(Debug)]
pub struct Token {
    pub kind: TokenKind,
}

/// The kinds of a sequence of tokens, in order.
pub open spec fn kinds_of(ts: Seq<Token>) -> Seq<KindView> {
    ts.map_values(|t: Token| t.kind@)
}

} // verus!
