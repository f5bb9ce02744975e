//! Tokens and the places they are found at.

use vstd::prelude::*;
use crate::text::{decimal, decimal_digits};

verus! {

/// A place in a text: the line and the column, both counted from 0 and in
/// grapheme clusters, and the index in bytes.
#[derive(Clone, Copy, Debug, PartialEq, Eq, Structural)]
pub struct Location {
    pub line: usize,
    pub column: usize,
    pub index: usize,
}

/// What a token is.
#[derive(Clone, Copy, Debug, PartialEq, Eq, Structural)]
pub enum TokenKind {
    Identifier,
    Integer,
    Float,
    String,
    OpenBrace,
    CloseBrace,
    OpenParen,
    CloseParen,
    OpenBracket,
    CloseBracket,
    Plus,
    Hyphen,
    ForwardSlash,
    Asterisk,
    Equal,
    Less,
    Greater,
    Bang,
    Comma,
    Colon,
    BangEqual,
    EqualEqual,
    LessLess,
    GreaterGreater,
    PlusPlus,
    HyphenHyphen,
    ColonColon,
}

/// A token: its kind, its text, and the place at which the text behind it
/// starts.
#[derive(Debug, PartialEq, Eq)]
pub struct Token {
    pub location: Location,
    pub kind: TokenKind,
    pub contents: String,
}

/// What a [`Token`] holds.
pub struct TokenView {
    pub location: Location,
    pub kind: TokenKind,
    pub contents: Seq<char>,
}

impl View for Token {
    type V = TokenView;

    open spec fn view(&self) -> TokenView {
        TokenView { location: self.location, kind: self.kind, contents: self.contents@ }
    }
}

/// The place as a reader counts it: the line and the column, both counted
/// from 1, with a colon between them.
pub open spec fn location_text(location: Location) -> Seq<char> {
    decimal_digits((location.line + 1) as nat).push(':') + decimal_digits(
        (location.column + 1) as nat,
    )
}

/// The name of the kind.
pub open spec fn kind_name(kind: TokenKind) -> Seq<char> {
    match kind {
        TokenKind::Identifier => "Identifier"@,
        TokenKind::Integer => "Integer"@,
        TokenKind::Float => "Float"@,
        TokenKind::String => "String"@,
        TokenKind::OpenBrace => "OpenBrace"@,
        TokenKind::CloseBrace => "CloseBrace"@,
        TokenKind::OpenParen => "OpenParen"@,
        TokenKind::CloseParen => "CloseParen"@,
        TokenKind::OpenBracket => "OpenBracket"@,
        TokenKind::CloseBracket => "CloseBracket"@,
        TokenKind::Plus => "Plus"@,
        TokenKind::Hyphen => "Hyphen"@,
        TokenKind::ForwardSlash => "ForwardSlash"@,
        TokenKind::Asterisk => "Asterisk"@,
        TokenKind::Equal => "Equal"@,
        TokenKind::Less => "Less"@,
        TokenKind::Greater => "Greater"@,
        TokenKind::Bang => "Bang"@,
        TokenKind::Comma => "Comma"@,
        TokenKind::Colon => "Colon"@,
        TokenKind::BangEqual => "BangEqual"@,
        TokenKind::EqualEqual => "EqualEqual"@,
        TokenKind::LessLess => "LessLess"@,
        TokenKind::GreaterGreater => "GreaterGreater"@,
        TokenKind::PlusPlus => "PlusPlus"@,
        TokenKind::HyphenHyphen => "HyphenHyphen"@,
        TokenKind::ColonColon => "ColonColon"@,
    }
}

impl Location {
    /// The place as a reader counts it, such as `1:1` for the start of a text.
    pub fn to_string(&self) -> (text: String)
        ensures
            text@ == location_text(*self),
    {
        let mut text = decimal(self.line as u128 + 1);
        proof {
            reveal_strlit(":");
        }
        text.append(":");
        let column = decimal(self.column as u128 + 1);
        text.append(column.as_str());
        text
    }
}

impl TokenKind {
    /// The name of the kind.
    pub fn to_string(&self) -> (text: String)
        ensures
            text@ == kind_name(*self),
    {
        let name = match self {
            TokenKind::Identifier => "Identifier",
            TokenKind::Integer => "Integer",
            TokenKind::Float => "Float",
            TokenKind::String => "String",
            TokenKind::OpenBrace => "OpenBrace",
            TokenKind::CloseBrace => "CloseBrace",
            TokenKind::OpenParen => "OpenParen",
            TokenKind::CloseParen => "CloseParen",
            TokenKind::OpenBracket => "OpenBracket",
            TokenKind::CloseBracket => "CloseBracket",
            TokenKind::Plus => "Plus",
            TokenKind::Hyphen => "Hyphen",
            TokenKind::ForwardSlash => "ForwardSlash",
            TokenKind::Asterisk => "Asterisk",
            TokenKind::Equal => "Equal",
            TokenKind::Less => "Less",
            TokenKind::Greater => "Greater",
            TokenKind::Bang => "Bang",
            TokenKind::Comma => "Comma",
            TokenKind::Colon => "Colon",
            TokenKind::BangEqual => "BangEqual",
            TokenKind::EqualEqual => "EqualEqual",
            TokenKind::LessLess => "LessLess",
            TokenKind::GreaterGreater => "GreaterGreater",
            TokenKind::PlusPlus => "PlusPlus",
            TokenKind::HyphenHyphen => "HyphenHyphen",
            TokenKind::ColonColon => "ColonColon",
        };
        name.to_owned()
    }
}

impl Token {
    /// The token of `kind` with the text `contents`, behind which `location` lies.
    pub fn new(location: Location, kind: TokenKind, contents: &str) -> (token: Self)
        ensures
            token@ == (TokenView { location, kind, contents: contents@ }),
    {
        Self { location, kind, contents: contents.to_owned() }
    }
}

} // verus!
