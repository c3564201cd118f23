//! Tokens, and their mathematical view.
use vstd::prelude::*;

verus! {

/// A classified, indivisible lexical unit.
#[derive(Debug, PartialEq, Eq)]
pub enum Token {
    Illegal,
    Eof,

    // identifiers + literals
    Ident(String),
    Int(i32),
    /// A run of digits whose value does not fit in an `i32`; holds the digits.
    IntOverflow(String),

    // operators
    Assign,
    Plus,
    Minus,
    Gt,
    Lt,
    Bang,
    Asterisk,
    Slash,
    Eq,
    Neq,
    Geq,
    Leq,

    // delimiters
    Lparen,
    Rparen,
    Lbrace,
    Rbrace,
    Comma,
    Semicolon,

    // keywords
    Function,
    Let,
    True,
    False,
    If,
    Else,
    Return,
}

/// The mathematical value of a [`Token`]: text payloads become character sequences.
pub enum TokenView {
    Illegal,
    Eof,
    Ident(Seq<char>),
    Int(i32),
    IntOverflow(Seq<char>),
    Assign,
    Plus,
    Minus,
    Gt,
    Lt,
    Bang,
    Asterisk,
    Slash,
    Eq,
    Neq,
    Geq,
    Leq,
    Lparen,
    Rparen,
    Lbrace,
    Rbrace,
    Comma,
    Semicolon,
    Function,
    Let,
    True,
    False,
    If,
    Else,
    Return,
}

impl View for Token {
    type V = TokenView;

    open spec fn view(&self) -> TokenView {
        match self {
            Token::Illegal => TokenView::Illegal,
            Token::Eof => TokenView::Eof,
            Token::Ident(s) => TokenView::Ident(s@),
            Token::Int(v) => TokenView::Int(*v),
            Token::IntOverflow(s) => TokenView::IntOverflow(s@),
            Token::Assign => TokenView::Assign,
            Token::Plus => TokenView::Plus,
            Token::Minus => TokenView::Minus,
            Token::Gt => TokenView::Gt,
            Token::Lt => TokenView::Lt,
            Token::Bang => TokenView::Bang,
            Token::Asterisk => TokenView::Asterisk,
            Token::Slash => TokenView::Slash,
            Token::Eq => TokenView::Eq,
            Token::Neq => TokenView::Neq,
            Token::Geq => TokenView::Geq,
            Token::Leq => TokenView::Leq,
            Token::Lparen => TokenView::Lparen,
            Token::Rparen => TokenView::Rparen,
            Token::Lbrace => TokenView::Lbrace,
            Token::Rbrace => TokenView::Rbrace,
            Token::Comma => TokenView::Comma,
            Token::Semicolon => TokenView::Semicolon,
            Token::Function => TokenView::Function,
            Token::Let => TokenView::Let,
            Token::True => TokenView::True,
            Token::False => TokenView::False,
            Token::If => TokenView::If,
            Token::Else => TokenView::Else,
            Token::Return => TokenView::Return,
        }
    }
}

/// The views of a sequence of tokens.
pub open spec fn views(ts: Seq<Token>) -> Seq<TokenView> {
    ts.map_values(|t: Token| t@)
}

} // verus!
