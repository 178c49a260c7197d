//! Evaluation of a postfix expression on a stack of operands.

use vstd::prelude::*;
use crate::arithmetic::{division, wrap};
use crate::calculator::Calculator;
use crate::error::{outcome, Error, ErrorView};
use crate::token::{Operator, Token};

verus! {

/// The result of applying `operator` to `a` on the left and `b` on the
/// right: the value, or the division by zero that prevents it.
pub open spec fn apply(operator: Operator, a: isize, b: isize) -> Result<isize, ErrorView> {
    match operator {
        Operator::Add => Ok(wrap(a + b)),
        Operator::Subtract => Ok(wrap(a - b)),
        Operator::Multiply => Ok(wrap(a * b)),
        Operator::Divide => division(a, b),
    }
}

/// The operand stack after one more token: an operand is pushed, an
/// operator replaces the two most recent values, the more recent being its
/// right operand, by its result.
pub open spec fn step(stack: Seq<isize>, token: Token) -> Result<Seq<isize>, ErrorView> {
    match token {
        Token::Operand(value) => Ok(stack.push(value)),
        Token::Operator(operator) => {
            let b = stack[stack.len() - 1];
            let a = stack[stack.len() - 2];
            match apply(operator, a, b) {
                Ok(value) => Ok(stack.take(stack.len() - 2).push(value)),
                Err(error) => Err(error),
            }
        },
        _ => Ok(stack),
    }
}

/// The operand stack after all of `tokens`, or the first division by zero
/// met on the way.
pub open spec fn run(tokens: Seq<Token>) -> Result<Seq<isize>, ErrorView>
    decreases tokens.len(),
{
    if tokens.len() == 0 {
        Ok(Seq::empty())
    } else {
        match run(tokens.drop_last()) {
            Ok(stack) => step(stack, tokens.last()),
            Err(error) => Err(error),
        }
    }
}

/// The number of operands in `tokens` less the number of operators: how many
/// values wait on the stack once `tokens` have been worked off.
pub open spec fn surplus(tokens: Seq<Token>) -> int
    decreases tokens.len(),
{
    if tokens.len() == 0 {
        0
    } else {
        surplus(tokens.drop_last()) + match tokens.last() {
            Token::Operand(_) => 1int,
            Token::Operator(_) => -1int,
            _ => 0int,
        }
    }
}

/// Whether `tokens` can be worked off on a stack: they are operands and
/// operators only, and every operator finds two values to work on.
pub open spec fn is_workable(tokens: Seq<Token>) -> bool {
    &&& forall|i: int|
        0 <= i < tokens.len() ==> (#[trigger] tokens[i]) is Operand || tokens[i] is Operator
    &&& forall|k: int| 1 <= k <= tokens.len() ==> surplus(#[trigger] tokens.take(k)) >= 1
}

/// Whether `tokens` are an expression in postfix notation: they can be
/// worked off on a stack, and one value is left at the end.
pub open spec fn is_postfix(tokens: Seq<Token>) -> bool {
    is_workable(tokens) && surplus(tokens) == 1
}

/// The value of the postfix expression `tokens`, or the first division by
/// zero met while computing it.
pub open spec fn postfix_value(tokens: Seq<Token>) -> Result<isize, ErrorView> {
    match run(tokens) {
        Ok(stack) => Ok(stack.last()),
        Err(error) => Err(error),
    }
}

/// A division by zero ends the run: what follows does not change the outcome.
proof fn lemma_run_failure_persists(tokens: Seq<Token>, k: int)
    requires
        0 <= k <= tokens.len(),
        run(tokens.take(k)) is Err,
    ensures
        run(tokens) == run(tokens.take(k)),
    decreases tokens.len() - k,
{
    if k < tokens.len() {
        assert(tokens.take(k + 1).drop_last() =~= tokens.take(k));
        lemma_run_failure_persists(tokens, k + 1);
    } else {
        assert(tokens.take(k) =~= tokens);
    }
}

/// Nothing but a division by zero makes a run fail.
pub proof fn lemma_run_fails_by_division_only(tokens: Seq<Token>)
    ensures
        run(tokens) matches Err(error) ==> error is DivideByZero,
    decreases tokens.len(),
{
    if tokens.len() > 0 {
        lemma_run_fails_by_division_only(tokens.drop_last());
    }
}

/// A run over workable tokens that meets no division by zero leaves as many
/// values on the stack as there are operands more than operators.
pub proof fn lemma_run_leaves_surplus(tokens: Seq<Token>)
    requires
        is_workable(tokens),
    ensures
        run(tokens) matches Ok(stack) ==> stack.len() == surplus(tokens),
    decreases tokens.len(),
{
    if tokens.len() > 0 {
        let init = tokens.drop_last();
        assert forall|i: int| 0 <= i < init.len() implies (#[trigger] init[i]) is Operand
            || init[i] is Operator by {
            assert(init[i] == tokens[i]);
        }
        assert forall|k: int| 1 <= k <= init.len() implies surplus(#[trigger] init.take(k))
            >= 1 by {
            assert(init.take(k) =~= tokens.take(k));
        }
        lemma_run_leaves_surplus(init);
        assert(tokens.take(tokens.len() as int) =~= tokens);
        assert(tokens.last() == tokens[tokens.len() - 1]);
    }
}

impl Calculator {
    /// Applies `operator` to `a` on the left and `b` on the right.
    fn apply_operator(operator: Operator, a: isize, b: isize) -> (result: Result<isize, Error>)
        ensures
            outcome(result) == apply(operator, a, b),
    {
        match operator {
            Operator::Add => Ok(Self::add(a, b)),
            Operator::Subtract => Ok(Self::subtract(a, b)),
            Operator::Multiply => Ok(Self::multiply(a, b)),
            Operator::Divide => Self::divide(a, b),
        }
    }

    /// Whether `expression` is in postfix notation: the condition under which
    /// it can be evaluated.
    pub fn is_postfix_expression(expression: &[Token]) -> (postfix: bool)
        ensures
            postfix == is_postfix(expression@),
    {
        let n = expression.len();
        let mut waiting: usize = 0;
        let mut i: usize = 0;
        while i < n
            invariant
                0 <= i <= n == expression@.len(),
                waiting == surplus(expression@.take(i as int)),
                waiting <= i,
                forall|k: int|
                    0 <= k < i ==> (#[trigger] expression@[k]) is Operand || expression@[k]
                        is Operator,
                forall|k: int| 1 <= k <= i ==> surplus(#[trigger] expression@.take(k)) >= 1,
            decreases n - i,
        {
            proof {
                assert(expression@.take(i + 1).drop_last() =~= expression@.take(i as int));
                assert(expression@.take(i + 1).last() == expression@[i as int]);
            }
            match expression[i] {
                Token::Operand(_) => {
                    waiting += 1;
                },
                Token::Operator(_) => {
                    if waiting < 2 {
                        assert(surplus(expression@.take(i + 1)) < 1);
                        return false;
                    }
                    waiting -= 1;
                },
                _ => {
                    assert(!(expression@[i as int] is Operand) && !(expression@[i as int]
                        is Operator));
                    return false;
                },
            }
            i += 1;
        }
        proof {
            assert(expression@.take(n as int) =~= expression@);
        }
        waiting == 1
    }

    /// Computes the value of an expression in postfix notation.
    ///
    /// Operands are pushed on a stack; an operator takes the two most recent
    /// values off it, the more recent as its right operand, and pushes its
    /// result. The one value left at the end is the result. A division by
    /// zero ends the computation with `DivideByZero`.
    pub fn evaluate_postfix_expression(expression: Vec<Token>) -> (result: Result<isize, Error>)
        requires
            is_postfix(expression@),
        ensures
            outcome(result) == postfix_value(expression@),
    {
        let mut stack: Vec<isize> = Vec::new();
        let n = expression.len();
        let mut i: usize = 0;
        while i < n
            invariant
                0 <= i <= n == expression@.len(),
                is_postfix(expression@),
                run(expression@.take(i as int)) == Ok::<Seq<isize>, ErrorView>(stack@),
                stack@.len() == surplus(expression@.take(i as int)),
            decreases n - i,
        {
            let token = expression[i];
            proof {
                assert(expression@.take(i + 1).drop_last() =~= expression@.take(i as int));
                assert(expression@.take(i + 1).last() == token);
                assert(surplus(expression@.take(i + 1)) >= 1);
            }
            match token {
                Token::Operand(value) => {
                    stack.push(value);
                },
                Token::Operator(operator) => {
                    let ghost before = stack@;
                    let b = stack.pop().unwrap();
                    let a = stack.pop().unwrap();
                    match Self::apply_operator(operator, a, b) {
                        Ok(value) => {
                            stack.push(value);
                            assert(stack@ =~= before.take(before.len() - 2).push(value));
                        },
                        Err(error) => {
                            proof {
                                lemma_run_failure_persists(expression@, i + 1);
                            }
                            return Err(error);
                        },
                    }
                },
                _ => {
                    assert(false);
                },
            }
            i += 1;
        }
        proof {
            assert(expression@.take(n as int) =~= expression@);
        }
        Ok(stack.pop().unwrap())
    }
}

} // verus!
