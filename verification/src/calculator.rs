//! The calculator itself: the whole way from the text of an expression to
//! its value.

use vstd::prelude::*;
use crate::converter::{conversion, postfix_of};
use crate::error::{outcome, Error, ErrorView};
use crate::evaluator::{is_postfix, lemma_run_fails_by_division_only, postfix_value};
use crate::infix::{is_infix, lemma_infix_becomes_postfix, lemma_infix_is_valid};
use crate::token::Token;
use crate::tokenizer::{literals_fit, tokenization};
use crate::validator::{lemma_validation_passes_the_valid, validation};

verus! {

/// Evaluates arithmetic expressions written in infix notation.
///
/// The stages of evaluation are associated functions of this type; each is
/// defined in the module that specifies it.
pub struct Calculator;

/// What evaluation makes of `text`: the value of the expression, or the
/// objection of the first stage that has one. The stages are tokenization,
/// validation, conversion to postfix notation, and evaluation of that.
pub open spec fn evaluation(text: Seq<char>) -> Result<isize, ErrorView> {
    match tokenization(text) {
        Err(error) => Err(error),
        Ok(tokens) => match validation(tokens) {
            Err(error) => Err(error),
            Ok(_) => match conversion(tokens) {
                Err(error) => Err(error),
                Ok(postfix) => postfix_value(postfix),
            },
        },
    }
}

/// The postfix expression that the first three stages make of `text`, if
/// none of them objects.
pub open spec fn postfix_form(text: Seq<char>) -> Option<Seq<Token>> {
    match tokenization(text) {
        Err(_) => None,
        Ok(tokens) => match validation(tokens) {
            Err(_) => None,
            Ok(_) => postfix_of(tokens),
        },
    }
}

/// Whether `text` can be evaluated: its numbers fit an operand, and where
/// the first three stages pass it, what they hand to the last is an
/// expression in postfix notation.
pub open spec fn evaluable(text: Seq<char>) -> bool {
    &&& literals_fit(text)
    &&& postfix_form(text) matches Some(postfix) ==> is_postfix(postfix)
}

/// Text whose numbers fit and whose tokens are an expression in infix
/// notation can be evaluated, and evaluation gives its value unless it
/// divides by zero.
pub proof fn lemma_infix_text_is_evaluable(text: Seq<char>)
    requires
        literals_fit(text),
        tokenization(text) matches Ok(tokens) && is_infix(tokens),
    ensures
        evaluable(text),
        evaluation(text) matches Err(error) ==> error is DivideByZero,
{
    let tokens = tokenization(text)->Ok_0;
    lemma_infix_is_valid(tokens);
    lemma_validation_passes_the_valid(tokens);
    lemma_infix_becomes_postfix(tokens);
    lemma_run_fails_by_division_only(postfix_of(tokens)->Some_0);
}

/// Evaluation keeps no state: two results of evaluating the same text are
/// the same.
pub proof fn lemma_evaluate_is_repeatable(
    text: Seq<char>,
    first: Result<isize, Error>,
    second: Result<isize, Error>,
)
    requires
        outcome(first) == evaluation(text),
        outcome(second) == evaluation(text),
    ensures
        outcome(first) == outcome(second),
{
}

impl Calculator {
    /// Whether `input` can be evaluated: the condition of [`Calculator::evaluate`].
    pub fn is_evaluable(input: &str) -> (accepted: bool)
        ensures
            accepted == evaluable(input@),
    {
        if !Self::has_fitting_literals(input) {
            return false;
        }
        let tokens = match Self::tokenize_expression(input) {
            Ok(tokens) => tokens,
            Err(_) => {
                return true;
            },
        };
        if Self::validate_expression(tokens.as_slice()).is_err() {
            return true;
        }
        match Self::marshal_infix_expression_to_postfix(tokens) {
            Ok(postfix) => Self::is_postfix_expression(postfix.as_slice()),
            Err(_) => true,
        }
    }

    /// Evaluates an arithmetic expression in infix notation.
    ///
    /// The expression may hold non-negative integers, the binary operators
    /// `+`, `-`, `*` and `/`, parentheses and spaces. The text is tokenized,
    /// validated, converted to postfix notation and evaluated; the first
    /// stage that objects decides the error. `*` and `/` bind tighter than
    /// `+` and `-`; operators that bind equally are applied from the right.
    ///
    /// The text must be evaluable, which [`Calculator::is_evaluable`] tells;
    /// every expression in infix notation whose numbers fit is.
    pub fn evaluate(input: &str) -> (result: Result<isize, Error>)
        requires
            evaluable(input@),
        ensures
            outcome(result) == evaluation(input@),
    {
        let infix = Self::tokenize_expression(input)?;
        Self::validate_expression(infix.as_slice())?;
        let postfix = Self::marshal_infix_expression_to_postfix(infix)?;
        Self::evaluate_postfix_expression(postfix)
    }
}

} // verus!
