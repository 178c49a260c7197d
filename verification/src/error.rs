//! The ways in which evaluating an expression can fail.

use vstd::prelude::*;
use crate::text::{decimal, push_char, push_integer, push_natural};

verus! {

/// Why an expression could not be evaluated.
#[derive(Debug, PartialEq, Eq)]
pub enum Error {
    /// The text holds a character that is no digit, operator, parenthesis or
    /// space; the second field is its zero-based position, counted in characters.
    InvalidCharacter(char, usize),
    /// The expression holds no token at all.
    ZeroLengthExpression,
    /// Operands and operators do not alternate as they should; the field says
    /// which rule is broken, and by which tokens.
    InvalidExpression(String),
    /// A parenthesis has no partner.
    MismatchedParentheses,
    /// A division whose divisor is zero; the fields are dividend and divisor.
    DivideByZero(isize, isize),
}

/// The mathematical content of an [`Error`]: the same variants, with the
/// position as a natural number, the detail as a sequence of characters and
/// the operands of the division as integers.
pub enum ErrorView {
    InvalidCharacter(char, nat),
    ZeroLengthExpression,
    InvalidExpression(Seq<char>),
    MismatchedParentheses,
    DivideByZero(int, int),
}

impl Clone for Error {
    /// A copy of the error with the same content.
    fn clone(&self) -> (copy: Error)
        ensures
            copy@ == self@,
    {
        match self {
            Error::InvalidCharacter(c, position) => Error::InvalidCharacter(*c, *position),
            Error::ZeroLengthExpression => Error::ZeroLengthExpression,
            Error::InvalidExpression(detail) => Error::InvalidExpression(detail.clone()),
            Error::MismatchedParentheses => Error::MismatchedParentheses,
            Error::DivideByZero(a, b) => Error::DivideByZero(*a, *b),
        }
    }
}

impl View for Error {
    type V = ErrorView;

    open spec fn view(&self) -> ErrorView {
        match *self {
            Error::InvalidCharacter(c, position) => ErrorView::InvalidCharacter(c, position as nat),
            Error::ZeroLengthExpression => ErrorView::ZeroLengthExpression,
            Error::InvalidExpression(detail) => ErrorView::InvalidExpression(detail@),
            Error::MismatchedParentheses => ErrorView::MismatchedParentheses,
            Error::DivideByZero(a, b) => ErrorView::DivideByZero(a as int, b as int),
        }
    }
}

impl ErrorView {
    /// The error in words.
    pub open spec fn message(self) -> Seq<char> {
        match self {
            ErrorView::InvalidCharacter(c, position) => "encountered invalid character "@.push(c)
                + " in expression at position "@ + decimal(position as int),
            ErrorView::ZeroLengthExpression => "input expression appears to have zero length and cannot be evaluated"@,
            ErrorView::InvalidExpression(detail) => "input expression is invalid: "@ + detail,
            ErrorView::MismatchedParentheses => "input expression contains mismatched parentheses"@,
            ErrorView::DivideByZero(a, b) => "attempted to divide by zero: "@ + decimal(a) + " / "@
                + decimal(b),
        }
    }
}

impl Error {
    /// Puts the error into words, for the person who wrote the expression.
    pub fn message(&self) -> (text: String)
        ensures
            text@ == self@.message(),
    {
        let mut text = String::new();
        match self {
            Error::InvalidCharacter(c, position) => {
                text.append("encountered invalid character ");
                push_char(&mut text, *c);
                text.append(" in expression at position ");
                push_natural(&mut text, *position as u128);
            },
            Error::ZeroLengthExpression => {
                text.append(
                    "input expression appears to have zero length and cannot be evaluated",
                );
            },
            Error::InvalidExpression(detail) => {
                text.append("input expression is invalid: ");
                text.append(detail.as_str());
            },
            Error::MismatchedParentheses => {
                text.append("input expression contains mismatched parentheses");
            },
            Error::DivideByZero(a, b) => {
                text.append("attempted to divide by zero: ");
                push_integer(&mut text, *a);
                text.append(" / ");
                push_integer(&mut text, *b);
            },
        }
        assert(text@ =~= self@.message());
        text
    }
}

/// The mathematical content of a result whose value is plain: the value as
/// it is, the error by its view.
pub open spec fn outcome<T>(result: Result<T, Error>) -> Result<T, ErrorView> {
    match result {
        Ok(value) => Ok(value),
        Err(error) => Err(error@),
    }
}

/// The mathematical content of a result whose value has a view: value and
/// error by their views.
pub open spec fn viewed_outcome<T: View>(result: Result<T, Error>) -> Result<T::V, ErrorView> {
    match result {
        Ok(value) => Ok(value@),
        Err(error) => Err(error@),
    }
}

} // verus!
