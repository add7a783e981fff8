//! Tokens: the on-the-wire representation of a Lox lexeme.
//!
//! A number literal is carried as the exact digit text of its lexeme
//! (`123`, `123.456`); converting it to a binary floating-point value is
//! the runtime's business, not the scanner's.

use vstd::prelude::*;

use crate::number::Number;

verus! {

/// Every kind of token the scanner can produce.
#[derive(Debug, Clone, Copy, PartialEq, Eq, Structural, Hash)]
pub enum TokenType {
    // Single-character tokens.
    LeftParen,
    RightParen,
    LeftBrace,
    RightBrace,
    Comma,
    Dot,
    Minus,
    Plus,
    Semicolon,
    Slash,
    Star,
    // One or two character tokens.
    Bang,
    BangEqual,
    Equal,
    EqualEqual,
    Greater,
    GreaterEqual,
    Less,
    LessEqual,
    // Literals.
    Identifier,
    String,
    Number,
    // Keywords.
    And,
    Class,
    Else,
    False,
    Fun,
    For,
    If,
    Nil,
    Or,
    Print,
    Return,
    Super,
    This,
    True,
    Var,
    While,
    Eof,
}

/// The token-dump name of each token type (`LEFT_PAREN`, ...).
pub open spec fn dump_name(t: TokenType) -> Seq<char> {
    match t {
        TokenType::LeftParen => "LEFT_PAREN"@,
        TokenType::RightParen => "RIGHT_PAREN"@,
        TokenType::LeftBrace => "LEFT_BRACE"@,
        TokenType::RightBrace => "RIGHT_BRACE"@,
        TokenType::Comma => "COMMA"@,
        TokenType::Dot => "DOT"@,
        TokenType::Minus => "MINUS"@,
        TokenType::Plus => "PLUS"@,
        TokenType::Semicolon => "SEMICOLON"@,
        TokenType::Slash => "SLASH"@,
        TokenType::Star => "STAR"@,
        TokenType::Bang => "BANG"@,
        TokenType::BangEqual => "BANG_EQUAL"@,
        TokenType::Equal => "EQUAL"@,
        TokenType::EqualEqual => "EQUAL_EQUAL"@,
        TokenType::Greater => "GREATER"@,
        TokenType::GreaterEqual => "GREATER_EQUAL"@,
        TokenType::Less => "LESS"@,
        TokenType::LessEqual => "LESS_EQUAL"@,
        TokenType::Identifier => "IDENTIFIER"@,
        TokenType::String => "STRING"@,
        TokenType::Number => "NUMBER"@,
        TokenType::And => "AND"@,
        TokenType::Class => "CLASS"@,
        TokenType::Else => "ELSE"@,
        TokenType::False => "FALSE"@,
        TokenType::Fun => "FUN"@,
        TokenType::For => "FOR"@,
        TokenType::If => "IF"@,
        TokenType::Nil => "NIL"@,
        TokenType::Or => "OR"@,
        TokenType::Print => "PRINT"@,
        TokenType::Return => "RETURN"@,
        TokenType::Super => "SUPER"@,
        TokenType::This => "THIS"@,
        TokenType::True => "TRUE"@,
        TokenType::Var => "VAR"@,
        TokenType::While => "WHILE"@,
        TokenType::Eof => "EOF"@,
    }
}

impl TokenType {
    /// The token-dump name of this token type, e.g. `LEFT_PAREN`.
    pub fn name(self) -> (r: &'static str)
        ensures
            r@ == dump_name(self),
    {
        match self {
            TokenType::LeftParen => "LEFT_PAREN",
            TokenType::RightParen => "RIGHT_PAREN",
            TokenType::LeftBrace => "LEFT_BRACE",
            TokenType::RightBrace => "RIGHT_BRACE",
            TokenType::Comma => "COMMA",
            TokenType::Dot => "DOT",
            TokenType::Minus => "MINUS",
            TokenType::Plus => "PLUS",
            TokenType::Semicolon => "SEMICOLON",
            TokenType::Slash => "SLASH",
            TokenType::Star => "STAR",
            TokenType::Bang => "BANG",
            TokenType::BangEqual => "BANG_EQUAL",
            TokenType::Equal => "EQUAL",
            TokenType::EqualEqual => "EQUAL_EQUAL",
            TokenType::Greater => "GREATER",
            TokenType::GreaterEqual => "GREATER_EQUAL",
            TokenType::Less => "LESS",
            TokenType::LessEqual => "LESS_EQUAL",
            TokenType::Identifier => "IDENTIFIER",
            TokenType::String => "STRING",
            TokenType::Number => "NUMBER",
            TokenType::And => "AND",
            TokenType::Class => "CLASS",
            TokenType::Else => "ELSE",
            TokenType::False => "FALSE",
            TokenType::Fun => "FUN",
            TokenType::For => "FOR",
            TokenType::If => "IF",
            TokenType::Nil => "NIL",
            TokenType::Or => "OR",
            TokenType::Print => "PRINT",
            TokenType::Return => "RETURN",
            TokenType::Super => "SUPER",
            TokenType::This => "THIS",
            TokenType::True => "TRUE",
            TokenType::Var => "VAR",
            TokenType::While => "WHILE",
            TokenType::Eof => "EOF",
        }
    }
}

/// The literal payload attached to `NUMBER` and `STRING` tokens.
///
/// `Number` holds the exact decimal text of the literal as written in the
/// source; `String` holds the string body without its surrounding quotes.
#[derive(Debug, PartialEq)]
pub enum Literal {
    Number(String),
    String(String),
}

/// Mathematical view of a [`Literal`].
pub enum LiteralV {
    Number(Seq<char>),
    Str(Seq<char>),
}

impl View for Literal {
    type V = LiteralV;

    open spec fn view(&self) -> LiteralV {
        match self {
            Literal::Number(s) => LiteralV::Number(s@),
            Literal::String(s) => LiteralV::Str(s@),
        }
    }
}

/// View of an optional literal.
pub open spec fn opt_lit_view(l: Option<Literal>) -> Option<LiteralV> {
    match l {
        Some(x) => Some(x@),
        None => None,
    }
}

/// A scanned token: its type, the exact source text it covers, its literal
/// payload (numbers and strings only) and the source line it ends on.
#[derive(Debug, PartialEq)]
pub struct Token {
    pub ttype: TokenType,
    pub lexeme: String,
    pub literal: Option<Literal>,
    pub line: usize,
}

/// Mathematical view of a [`Token`].
pub struct TokenV {
    pub ttype: TokenType,
    pub lexeme: Seq<char>,
    pub literal: Option<LiteralV>,
    pub line: nat,
}

impl View for Token {
    type V = TokenV;

    open spec fn view(&self) -> TokenV {
        TokenV {
            ttype: self.ttype,
            lexeme: self.lexeme@,
            literal: opt_lit_view(self.literal),
            line: self.line as nat,
        }
    }
}

impl Clone for Literal {
    fn clone(&self) -> (r: Literal)
        ensures
            r == *self,
    {
        match self {
            Literal::Number(s) => Literal::Number(s.clone()),
            Literal::String(s) => Literal::String(s.clone()),
        }
    }
}

impl Clone for Token {
    fn clone(&self) -> (r: Token)
        ensures
            r == *self,
    {
        let literal = match &self.literal {
            Some(l) => Some(l.clone()),
            None => None,
        };
        Token { ttype: self.ttype, lexeme: self.lexeme.clone(), literal, line: self.line }
    }
}

impl Token {
    /// Build a token from its parts.
    pub fn new(ttype: TokenType, lexeme: &str, literal: Option<Literal>, line: usize) -> (t: Token)
        ensures
            t.ttype == ttype,
            t.lexeme@ == lexeme@,
            t.literal == literal,
            t.line == line,
    {
        Token { ttype, lexeme: lexeme.to_owned(), literal, line }
    }

    /// The token in the book's token-dump format: type name, lexeme and
    /// literal separated by single spaces, with `null` for a token that
    /// carries no literal (`NUMBER 123 123.0`, `DOT . null`, `EOF  null`).
    pub fn render<N: Number>(&self) -> (s: String)
        ensures
            s@ == dump_name(self.ttype) + " "@ + self.lexeme@ + " "@ + literal_text::<N>(
                self@.literal,
            ),
    {
        let mut s = String::from_str(self.ttype.name());
        s.append(" ");
        s.append(self.lexeme.as_str());
        s.append(" ");
        let lit = match &self.literal {
            Some(l) => l.render::<N>(),
            None => String::from_str("null"),
        };
        s.append(lit.as_str());
        proof {
            reveal_strlit(" ");
            reveal_strlit("null");
            assert(s@ =~= dump_name(self.ttype) + " "@ + self.lexeme@ + " "@ + lit@);
        }
        s
    }
}

/// The text a token shows for its literal: `null` for none, a string's
/// contents, a number as the number type shows the number it denotes.
pub open spec fn literal_text<N: Number>(l: Option<LiteralV>) -> Seq<char> {
    match l {
        None => "null"@,
        Some(LiteralV::Str(x)) => x,
        Some(LiteralV::Number(t)) => N::spec_from_literal(t).spec_show(),
    }
}

impl Literal {
    /// The literal as a token dump shows it: a string's contents without
    /// quotes, a number as [`Number::show`] writes it.
    pub fn render<N: Number>(&self) -> (s: String)
        ensures
            s@ == literal_text::<N>(Some(self@)),
    {
        match self {
            Literal::Number(text) => N::from_literal(text.as_str()).show(),
            Literal::String(x) => x.clone(),
        }
    }
}

} // verus!
