//! The vocabulary of an expression: operators, tokens and operator precedence.

use vstd::prelude::*;
use crate::text::{decimal, push_integer};

verus! {

/// One of the four binary arithmetic operators.
#[derive(Clone, Copy, Debug, PartialEq, Eq, Hash, Structural)]
pub enum Operator {
    Add,
    Subtract,
    Multiply,
    Divide,
}

/// One lexical element of an expression.
#[derive(Clone, Copy, Debug, PartialEq, Eq, Structural)]
pub enum Token {
    /// An integer literal.
    Operand(isize),
    /// A binary operator.
    Operator(Operator),
    /// An opening parenthesis.
    LeftParen,
    /// A closing parenthesis.
    RightParen,
}

impl Operator {
    /// How tightly the operator binds: `*` and `/` bind tighter than `+` and `-`.
    pub open spec fn rank(self) -> nat {
        match self {
            Operator::Add | Operator::Subtract => 1,
            Operator::Multiply | Operator::Divide => 2,
        }
    }

    /// The binding strength of the operator, 1 for the additive operators and
    /// 2 for the multiplicative ones.
    pub fn precedence(self) -> (p: u8)
        ensures
            p == self.rank(),
    {
        match self {
            Operator::Add => 1,
            Operator::Subtract => 1,
            Operator::Multiply => 2,
            Operator::Divide => 2,
        }
    }

    /// The name of the operator as it is written in messages.
    pub open spec fn name(self) -> Seq<char> {
        match self {
            Operator::Add => "Add"@,
            Operator::Subtract => "Subtract"@,
            Operator::Multiply => "Multiply"@,
            Operator::Divide => "Divide"@,
        }
    }

    /// Appends the name of the operator to `text`.
    pub(crate) fn push_name(self, text: &mut String)
        ensures
            final(text)@ == old(text)@ + self.name(),
    {
        match self {
            Operator::Add => text.append("Add"),
            Operator::Subtract => text.append("Subtract"),
            Operator::Multiply => text.append("Multiply"),
            Operator::Divide => text.append("Divide"),
        }
    }
}

impl Token {
    /// The token as it is written in messages: the variant's name and, in
    /// parentheses, what it holds.
    pub open spec fn notation(self) -> Seq<char> {
        match self {
            Token::Operand(value) => "Operand("@ + decimal(value as int) + ")"@,
            Token::Operator(operator) => "Operator("@ + operator.name() + ")"@,
            Token::LeftParen => "LeftParen"@,
            Token::RightParen => "RightParen"@,
        }
    }

    /// Appends the notation of the token to `text`.
    pub(crate) fn push_notation(self, text: &mut String)
        ensures
            final(text)@ == old(text)@ + self.notation(),
    {
        match self {
            Token::Operand(value) => {
                text.append("Operand(");
                push_integer(text, value);
                text.append(")");
            },
            Token::Operator(operator) => {
                text.append("Operator(");
                operator.push_name(text);
                text.append(")");
            },
            Token::LeftParen => text.append("LeftParen"),
            Token::RightParen => text.append("RightParen"),
        }
        assert(text@ =~= old(text)@ + self.notation());
    }
}

} // verus!
