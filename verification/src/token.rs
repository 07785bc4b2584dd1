use vstd::prelude::*;

verus! {

/// The categories of lexemes the lexer recognises.
#[derive(Debug, Copy, Clone, PartialEq, Eq, Structural)]
pub enum TokenKind {
    Keyword,
    Identifier,
    Int,
    Real,
    Char,
    String,
    Operator,
    Delimiter,
    Whitespace,
    Comment,
    EOF,
    Error,
}

/// A token: its category and the exact text it was lexed from.
pub type Token = (TokenKind, String);

/// A token as a mathematical value: its kind and the characters of its lexeme.
pub open spec fn tok_view(t: Token) -> (TokenKind, Seq<char>) {
    (t.0, t.1@)
}

/// The ways lexing can fail: a malformed character or string literal, or a character
/// that no token starts with.
#[derive(Debug, Copy, Clone, PartialEq, Eq, Structural)]
pub enum LexError {
    /// A character literal that is not closed by `'` where one is due.
    UnterminatedChar,
    /// A backslash in a character literal followed by an unknown escape letter.
    InvalidCharEscape,
    /// The literal `''`.
    EmptyChar,
    /// A character literal holding an unescaped `"`.
    DoubleQuoteInChar,
    /// A string literal that reaches a line break before its closing quote.
    MultilineString,
    /// A string literal holding an unescaped `'`.
    SingleQuoteInString,
    /// A backslash in a string literal followed by an unknown escape letter.
    InvalidStringEscape,
    /// A string literal that reaches the end of the input before its closing quote.
    UnterminatedString,
    /// No token starts at this position; `found` is the first character there.
    UnrecognizedToken { line: usize, column: usize, found: char },
}

/// The name of a token kind, as its `Debug` form prints it.
pub open spec fn kind_text(k: TokenKind) -> Seq<char> {
    match k {
        TokenKind::Keyword => "Keyword"@,
        TokenKind::Identifier => "Identifier"@,
        TokenKind::Int => "Int"@,
        TokenKind::Real => "Real"@,
        TokenKind::Char => "Char"@,
        TokenKind::String => "String"@,
        TokenKind::Operator => "Operator"@,
        TokenKind::Delimiter => "Delimiter"@,
        TokenKind::Whitespace => "Whitespace"@,
        TokenKind::Comment => "Comment"@,
        TokenKind::EOF => "EOF"@,
        TokenKind::Error => "Error"@,
    }
}

/// Returns the name of `k`, the same text that `{:?}` prints for it.
pub fn kind_name(k: TokenKind) -> (name: &'static str)
    ensures
        name@ == kind_text(k),
{
    match k {
        TokenKind::Keyword => "Keyword",
        TokenKind::Identifier => "Identifier",
        TokenKind::Int => "Int",
        TokenKind::Real => "Real",
        TokenKind::Char => "Char",
        TokenKind::String => "String",
        TokenKind::Operator => "Operator",
        TokenKind::Delimiter => "Delimiter",
        TokenKind::Whitespace => "Whitespace",
        TokenKind::Comment => "Comment",
        TokenKind::EOF => "EOF",
        TokenKind::Error => "Error",
    }
}

} // verus!
