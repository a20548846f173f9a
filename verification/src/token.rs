//! Tokens of the QBasic grammar.
use vstd::prelude::*;

verus! {

/// Keywords of the language. `Rem` carries the text of the remark.
#[derive(Debug, PartialEq, Clone)]
pub enum Keyword {
    Rem(String),
    Let,
    Print,
    Input,
    If,
    Then,
    Goto,
    End,
}

/// Math expression operators
#[derive(Debug, PartialEq, Eq, Structural, Clone, Copy)]
pub enum Math {
    Plus,
    Minus,
    Times,
    Division,
    Power,
    Modulo,
}

/// Math expression groupings
#[derive(Debug, PartialEq, Eq, Structural, Clone, Copy)]
pub enum Side {
    Left,
    Right,
}

/// Relational operators
#[derive(Debug, PartialEq, Eq, Structural, Clone, Copy)]
pub enum Relational {
    Lt,
    LtEq,
    Gt,
    GtEq,
    NotEq,
    Eq,
}

/// A lexical token.
#[derive(Debug, PartialEq, Clone)]
pub enum Token {
    /// A comment introduced by an apostrophe; the text follows the apostrophes.
    Comment(String),
    Keyword(Keyword),
    Operator(Math),
    Relational(Relational),
    Paran(Side),
    /// Equal sign: both assignment and equality.
    Equal,
    Identifier(String),
    Integer(u32),
    /// A string literal, quotes included.
    String(String),
    /// A quote with no closing quote.
    UnterminatedString,
    /// One or more newlines: a statement separator.
    Newline,
}

/// The mathematical value of a keyword.
pub enum KeywordV {
    Rem(Seq<char>),
    Let,
    Print,
    Input,
    If,
    Then,
    Goto,
    End,
}

/// The mathematical value of a token.
pub enum TokenV {
    Comment(Seq<char>),
    Keyword(KeywordV),
    Operator(Math),
    Relational(Relational),
    Paran(Side),
    Equal,
    Identifier(Seq<char>),
    Integer(u32),
    String(Seq<char>),
    UnterminatedString,
    Newline,
}

impl View for Keyword {
    type V = KeywordV;

    open spec fn view(&self) -> KeywordV {
        match self {
            Keyword::Rem(s) => KeywordV::Rem(s@),
            Keyword::Let => KeywordV::Let,
            Keyword::Print => KeywordV::Print,
            Keyword::Input => KeywordV::Input,
            Keyword::If => KeywordV::If,
            Keyword::Then => KeywordV::Then,
            Keyword::Goto => KeywordV::Goto,
            Keyword::End => KeywordV::End,
        }
    }
}

impl View for Token {
    type V = TokenV;

    open spec fn view(&self) -> TokenV {
        match self {
            Token::Comment(s) => TokenV::Comment(s@),
            Token::Keyword(k) => TokenV::Keyword(k@),
            Token::Operator(m) => TokenV::Operator(*m),
            Token::Relational(r) => TokenV::Relational(*r),
            Token::Paran(p) => TokenV::Paran(*p),
            Token::Equal => TokenV::Equal,
            Token::Identifier(s) => TokenV::Identifier(s@),
            Token::Integer(n) => TokenV::Integer(*n),
            Token::String(s) => TokenV::String(s@),
            Token::UnterminatedString => TokenV::UnterminatedString,
            Token::Newline => TokenV::Newline,
        }
    }
}

} // verus!
