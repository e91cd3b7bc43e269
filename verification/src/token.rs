use vstd::prelude::*;

verus! {

/// Lexical classification of a token.
///
/// `UnaryOp` is produced only for a `-` that follows a binary operator or an
/// opening parenthesis; `Function` for a run of letters. The grammar has no
/// production for either, so the parser rejects them as unexpected tokens:
/// the classifications exist as an extension point of the tokenizer.
/// `Null` is never produced by the tokenizer.
#[derive(Debug, Clone, Copy, PartialEq, Eq, Structural)]
pub enum TokenType {
    Number,
    BinaryOp,
    UnaryOp,
    Function,
    Parenthesis,
    Null,
}

/// One lexical token: its classification and the exact source text.
pub struct Token {
    pub typ: TokenType,
    pub lex: String,
}

/// Mathematical image of a token: its classification and the sequence of
/// characters of its lexeme.
pub struct SpecToken {
    pub typ: TokenType,
    pub lex: Seq<char>,
}

impl View for Token {
    type V = SpecToken;

    open spec fn view(&self) -> SpecToken {
        SpecToken { typ: self.typ, lex: self.lex@ }
    }
}

impl Token {
    /// An independent copy of the token, equal to it in classification and text.
    pub fn copy(&self) -> (t: Token)
        ensures
            t@ == self@,
    {
        Token { typ: self.typ, lex: self.lex.clone() }
    }
}

/// The view of a token vector: the sequence of token images.
pub open spec fn tokens_view(ts: Seq<Token>) -> Seq<SpecToken> {
    ts.map_values(|t: Token| t@)
}

pub open spec fn spec_is_operator(c: char) -> bool {
    c == '+' || c == '-' || c == '*' || c == '/' || c == '^'
}

/// Whether `c` is one of the five operator characters.
pub fn is_operator(c: char) -> (r: bool)
    ensures
        r == spec_is_operator(c),
{
    match c {
        '+' => true,
        '-' => true,
        '*' => true,
        '/' => true,
        '^' => true,
        _ => false,
    }
}

pub open spec fn spec_is_decimal(c: char) -> bool {
    c == ',' || c == '.'
}

/// Whether `c` is a decimal separator character.
pub fn is_decimal(c: char) -> (r: bool)
    ensures
        r == spec_is_decimal(c),
{
    match c {
        ',' => true,
        '.' => true,
        _ => false,
    }
}

pub open spec fn spec_is_parenthesis(c: char) -> bool {
    c == '(' || c == ')'
}

/// Whether `c` is an opening or closing parenthesis.
pub fn is_parenthesis(c: char) -> (r: bool)
    ensures
        r == spec_is_parenthesis(c),
{
    match c {
        '(' => true,
        ')' => true,
        _ => false,
    }
}

pub open spec fn spec_is_digit(c: char) -> bool {
    48 <= c as u32 && c as u32 <= 57
}

/// Whether `c` is one of the digits `0` through `9`.
pub fn is_digit(c: char) -> (r: bool)
    ensures
        r == spec_is_digit(c),
{
    let v = c as u32;
    48 <= v && v <= 57
}

pub open spec fn spec_is_alpha(c: char) -> bool {
    (65 <= c as u32 && c as u32 <= 90) || (97 <= c as u32 && c as u32 <= 122)
}

/// Whether `c` is a letter, `a` through `z` in either case.
pub fn is_alpha(c: char) -> (r: bool)
    ensures
        r == spec_is_alpha(c),
{
    let v = c as u32;
    (65 <= v && v <= 90) || (97 <= v && v <= 122)
}

pub open spec fn spec_is_space(c: char) -> bool {
    c == ' ' || c == '\t' || c == '\n' || c == '\r'
}

/// Whether `c` is a blank character the tokenizer skips.
pub fn is_space(c: char) -> (r: bool)
    ensures
        r == spec_is_space(c),
{
    c == ' ' || c == '\t' || c == '\n' || c == '\r'
}

} // verus!
