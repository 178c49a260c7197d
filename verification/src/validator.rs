//! Structural validation of an infix expression: which token may stand next
//! to which. Whether parentheses match is not looked at here.

use vstd::prelude::*;
use crate::calculator::Calculator;
use crate::error::{outcome, Error, ErrorView};
use crate::text::{decimal, push_integer};
use crate::token::{Operator, Token};

verus! {

/// One breach of the rules on neighbouring tokens.
#[derive(Clone, Copy, Debug, PartialEq, Eq, Structural)]
pub enum Violation {
    /// Two operands stand side by side.
    ConsecutiveOperands(isize, isize),
    /// An operator is the first token.
    NoLeadingOperand(Operator),
    /// An operator is the last token.
    NoTrailingOperand(Operator),
    /// An operator is followed by another operator or by a closing parenthesis.
    InvalidFollower(Operator, Token),
}

impl Violation {
    /// The wording of the breach.
    pub open spec fn detail(self) -> Seq<char> {
        match self {
            Violation::ConsecutiveOperands(first, second) => "consecutive operands "@ + decimal(
                first as int,
            ) + ", "@ + decimal(second as int),
            Violation::NoLeadingOperand(operator) => "operator "@ + operator.name()
                + " with no leading operand"@,
            Violation::NoTrailingOperand(operator) => "operator "@ + operator.name()
                + " with no trailing operand"@,
            Violation::InvalidFollower(operator, follower) => "operator "@ + operator.name()
                + " followed by invalid token "@ + follower.notation(),
        }
    }

    /// Puts the breach into words.
    pub fn describe(self) -> (text: String)
        ensures
            text@ == self.detail(),
    {
        let mut text = String::new();
        match self {
            Violation::ConsecutiveOperands(first, second) => {
                text.append("consecutive operands ");
                push_integer(&mut text, first);
                text.append(", ");
                push_integer(&mut text, second);
            },
            Violation::NoLeadingOperand(operator) => {
                text.append("operator ");
                operator.push_name(&mut text);
                text.append(" with no leading operand");
            },
            Violation::NoTrailingOperand(operator) => {
                text.append("operator ");
                operator.push_name(&mut text);
                text.append(" with no trailing operand");
            },
            Violation::InvalidFollower(operator, follower) => {
                text.append("operator ");
                operator.push_name(&mut text);
                text.append(" followed by invalid token ");
                follower.push_notation(&mut text);
            },
        }
        assert(text@ =~= self.detail());
        text
    }
}

/// The rule that the token at `index` breaks together with its neighbours, if
/// it breaks one.
///
/// An operand must not be followed by an operand. An operator must not come
/// first, must not come last, and must be followed by an operand or an
/// opening parenthesis. Parentheses are bound by no rule of their own.
pub open spec fn violation_at(tokens: Seq<Token>, index: int) -> Option<Violation>
    recommends
        0 <= index < tokens.len(),
{
    match tokens[index] {
        Token::Operand(first) => {
            if index + 1 < tokens.len() {
                match tokens[index + 1] {
                    Token::Operand(second) => Some(Violation::ConsecutiveOperands(first, second)),
                    _ => None,
                }
            } else {
                None
            }
        },
        Token::Operator(operator) => {
            if index == 0 {
                Some(Violation::NoLeadingOperand(operator))
            } else if index + 1 == tokens.len() {
                Some(Violation::NoTrailingOperand(operator))
            } else if tokens[index + 1] is Operand || tokens[index + 1] is LeftParen {
                None
            } else {
                Some(Violation::InvalidFollower(operator, tokens[index + 1]))
            }
        },
        _ => None,
    }
}

/// The first breach at or after `from`, going left to right.
pub open spec fn first_violation(tokens: Seq<Token>, from: int) -> Option<Violation>
    decreases tokens.len() - from,
{
    if from < 0 || from >= tokens.len() {
        None
    } else if violation_at(tokens, from) is Some {
        violation_at(tokens, from)
    } else {
        first_violation(tokens, from + 1)
    }
}

/// What validation makes of `tokens`: nothing to object to, or the first
/// objection.
pub open spec fn validation(tokens: Seq<Token>) -> Result<(), ErrorView> {
    if tokens.len() == 0 {
        Err(ErrorView::ZeroLengthExpression)
    } else {
        match first_violation(tokens, 0) {
            Some(violation) => Err(ErrorView::InvalidExpression(violation.detail())),
            None => Ok(()),
        }
    }
}

/// Whether `tokens` pass validation: there is at least one token, and none
/// breaks a rule.
pub open spec fn is_valid(tokens: Seq<Token>) -> bool {
    &&& tokens.len() > 0
    &&& forall|index: int| 0 <= index < tokens.len() ==> violation_at(tokens, index) is None
}

/// What the first breach is: the breach of some token at or after `from`
/// before which, from `from` on, no token breaks a rule. There is none
/// exactly when no token from `from` on breaks a rule.
pub proof fn lemma_first_violation(tokens: Seq<Token>, from: int)
    requires
        0 <= from,
    ensures
        match first_violation(tokens, from) {
            Some(violation) => exists|index: int|
                {
                    &&& from <= index < tokens.len()
                    &&& #[trigger] violation_at(tokens, index) == Some(violation)
                    &&& forall|k: int| from <= k < index ==> violation_at(tokens, k) is None
                },
            None => forall|k: int| from <= k < tokens.len() ==> violation_at(tokens, k) is None,
        },
    decreases tokens.len() - from,
{
    if from < tokens.len() {
        if violation_at(tokens, from) is Some {
            assert(violation_at(tokens, from) == first_violation(tokens, from));
        } else {
            lemma_first_violation(tokens, from + 1);
            if let Some(violation) = first_violation(tokens, from + 1) {
                let index = choose|index: int|
                    {
                        &&& from + 1 <= index < tokens.len()
                        &&& #[trigger] violation_at(tokens, index) == Some(violation)
                        &&& forall|k: int|
                            from + 1 <= k < index ==> violation_at(tokens, k) is None
                    };
                assert(violation_at(tokens, index) == Some(violation));
            }
        }
    }
}

/// Validation passes exactly the expressions that are valid.
pub proof fn lemma_validation_passes_the_valid(tokens: Seq<Token>)
    ensures
        validation(tokens) is Ok <==> is_valid(tokens),
{
    lemma_first_violation(tokens, 0);
}

impl Calculator {
    /// The rule that the token at `index` breaks, if any.
    fn inspect(expression: &[Token], index: usize) -> (found: Option<Violation>)
        requires
            index < expression@.len(),
        ensures
            found == violation_at(expression@, index as int),
    {
        let last = index == expression.len() - 1;
        match expression[index] {
            Token::Operand(first) => {
                if last {
                    None
                } else {
                    match expression[index + 1] {
                        Token::Operand(second) => Some(
                            Violation::ConsecutiveOperands(first, second),
                        ),
                        _ => None,
                    }
                }
            },
            Token::Operator(operator) => {
                if index == 0 {
                    Some(Violation::NoLeadingOperand(operator))
                } else if last {
                    Some(Violation::NoTrailingOperand(operator))
                } else {
                    match expression[index + 1] {
                        Token::Operand(_) => None,
                        Token::LeftParen => None,
                        follower => Some(Violation::InvalidFollower(operator, follower)),
                    }
                }
            },
            _ => None,
        }
    }

    /// Checks that operands and operators alternate as they should, and
    /// reports the first breach.
    ///
    /// Fails with `ZeroLengthExpression` on an empty expression, and with
    /// `InvalidExpression` on the first token, from the left, that breaks a
    /// rule of [`violation_at`]. Parentheses are not matched here.
    pub fn validate_expression(expression: &[Token]) -> (result: Result<(), Error>)
        ensures
            outcome(result) == validation(expression@),
    {
        if expression.len() == 0 {
            return Err(Error::ZeroLengthExpression);
        }
        let n = expression.len();
        let mut i: usize = 0;
        while i < n
            invariant
                0 <= i <= n == expression@.len(),
                first_violation(expression@, 0) == first_violation(expression@, i as int),
            decreases n - i,
        {
            match Self::inspect(expression, i) {
                Some(violation) => {
                    return Err(Error::InvalidExpression(violation.describe()));
                },
                None => {},
            }
            i += 1;
        }
        Ok(())
    }
}

} // verus!
