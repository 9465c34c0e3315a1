//! The token alphabet of the expression front end. The tokenizer is
//! scaffolding: it recognizes shapes but does not yet build real tokens.

use crate::number::Number;
use vstd::prelude::*;

verus! {

/// One lexical unit of an expression.
pub enum Token {
    Number(Number),
    Operator(Operator),
    Prefix(Prefix),
    Suffix(Suffix),
    Parenthesis(Parenthesis),
    Identifier(String),
    Comma,
    SemiColon,
    End,
}

/// A binary operator symbol.
pub enum Operator {
    Add,
    Sub,
    Mul,
    Div,
    Mod,
    Pow,
}

impl Operator {
    /// The left and right binding powers the parser's precedence climbing
    /// uses: additive operators bind weakest, multiplicative ones tighter,
    /// and exponentiation tightest and right-associative.
    pub fn binding_power(self) -> (r: (i8, i8))
        ensures
            r == (match self {
                Operator::Add => (2i8, 3i8),
                Operator::Sub => (2i8, 3i8),
                Operator::Mul => (4i8, 5i8),
                Operator::Div => (4i8, 5i8),
                Operator::Mod => (4i8, 5i8),
                Operator::Pow => (7i8, 6i8),
            }),
    {
        match self {
            Operator::Add => (2, 3),
            Operator::Sub => (2, 3),
            Operator::Mul => (4, 5),
            Operator::Div => (4, 5),
            Operator::Mod => (4, 5),
            Operator::Pow => (7, 6),
        }
    }
}

/// A prefix sign symbol.
pub enum Prefix {
    Plus,
    Minus,
}

/// A magnitude or factorial suffix symbol.
pub enum Suffix {
    Thousand,
    Million,
    Billion,
    Trillion,
    Factorial,
}

/// An opening or closing parenthesis.
pub enum Parenthesis {
    Open,
    Close,
}

} // verus!
