use simple_calc::chain;
use simple_calc::chain::Operand::{Expression, Value};
use simple_calc::chain::Operation::{Add, Divide, Multiply, Subtract};
use simple_calc::{Calculator, Error, Operator, Token};

#[test]
fn tokenized_text_is_converted_to_postfix() {
    let tokens = Calculator::tokenize_expression("3+4*2").unwrap();
    assert_eq!(
        Calculator::marshal_infix_expression_to_postfix(tokens),
        Ok(vec![
            Token::Operand(3),
            Token::Operand(4),
            Token::Operand(2),
            Token::Operator(Operator::Multiply),
            Token::Operator(Operator::Add),
        ])
    );
    let tokens = Calculator::tokenize_expression("(3+4)*2").unwrap();
    assert_eq!(
        Calculator::marshal_infix_expression_to_postfix(tokens),
        Ok(vec![
            Token::Operand(3),
            Token::Operand(4),
            Token::Operator(Operator::Add),
            Token::Operand(2),
            Token::Operator(Operator::Multiply),
        ])
    );
    let tokens = Calculator::tokenize_expression("(3+4").unwrap();
    assert_eq!(
        Calculator::marshal_infix_expression_to_postfix(tokens),
        Err(Error::MismatchedParentheses)
    );
    let tokens = Calculator::tokenize_expression("3+4)").unwrap();
    assert_eq!(
        Calculator::marshal_infix_expression_to_postfix(tokens),
        Err(Error::MismatchedParentheses)
    );
}

#[test]
fn expressions_are_evaluated_from_text() {
    assert_eq!(Calculator::evaluate("3 + 4 * 2"), Ok(11));
    assert_eq!(Calculator::evaluate("3 + 4 / 2"), Ok(5));
    assert_eq!(Calculator::evaluate("1 + 2 + 3 + 4 + 5 * 14 / 7"), Ok(20));
    assert_eq!(Calculator::evaluate("(3 + 4) * 2"), Ok(14));
    assert_eq!(Calculator::evaluate("2 * (3 + 4) - 5"), Ok(9));
    assert_eq!(Calculator::evaluate("((7))"), Ok(7));
    assert_eq!(Calculator::evaluate("42"), Ok(42));
    assert_eq!(Calculator::evaluate("0 - 5"), Ok(-5));
    assert_eq!(Calculator::evaluate("(0 - 7) / 2"), Ok(-3));
}

#[test]
fn operators_of_equal_precedence_group_from_the_right() {
    assert_eq!(Calculator::evaluate("8 - 3 - 2"), Ok(7));
    assert_eq!(Calculator::evaluate("8 / 4 * 2"), Ok(1));
    assert_eq!(Calculator::evaluate("(8 - 3) - 2"), Ok(3));
    assert_eq!(Calculator::evaluate("10 - 4 + 3"), Ok(3));
}

#[test]
fn each_stage_reports_its_own_error() {
    assert_eq!(Calculator::evaluate("5 / 0"), Err(Error::DivideByZero(5, 0)));
    assert_eq!(Calculator::evaluate(""), Err(Error::ZeroLengthExpression));
    assert_eq!(Calculator::evaluate("   "), Err(Error::ZeroLengthExpression));
    assert_eq!(
        Calculator::evaluate("2 2"),
        Err(Error::InvalidExpression(String::from("consecutive operands 2, 2")))
    );
    assert_eq!(Calculator::evaluate("3+4!2"), Err(Error::InvalidCharacter('!', 3)));
    assert_eq!(Calculator::evaluate("(3+4"), Err(Error::MismatchedParentheses));
    assert_eq!(Calculator::evaluate("3+4)"), Err(Error::MismatchedParentheses));
    assert_eq!(
        Calculator::evaluate("-3"),
        Err(Error::InvalidExpression(String::from(
            "operator Subtract with no leading operand"
        )))
    );
}

#[test]
fn the_earlier_stage_wins() {
    // a rejected character beats the breach before it
    assert_eq!(Calculator::evaluate("2 2 !"), Err(Error::InvalidCharacter('!', 4)));
    // a breach beats the unmatched parenthesis
    assert_eq!(
        Calculator::evaluate("(2 2"),
        Err(Error::InvalidExpression(String::from("consecutive operands 2, 2")))
    );
    // an unmatched parenthesis beats the division by zero
    assert_eq!(Calculator::evaluate("(1 / 0"), Err(Error::MismatchedParentheses));
}

#[test]
fn evaluating_twice_gives_the_same() {
    for text in ["3 + 4 * 2", "5 / 0", "", "2 2", "(3+4", "7 ? 7"] {
        let first = Calculator::evaluate(text);
        let second = Calculator::evaluate(text);
        assert_eq!(first, second);
    }
}

#[test]
fn what_can_be_evaluated_is_told_beforehand() {
    assert!(Calculator::is_evaluable("3 + 4 * 2"));
    assert!(Calculator::is_evaluable("5 / 0"));
    assert!(Calculator::is_evaluable(""));
    assert!(Calculator::is_evaluable("2 2"));
    assert!(Calculator::is_evaluable("3 +"));
    assert!(Calculator::is_evaluable("(3+4"));
    assert!(Calculator::is_evaluable("3 $ 4"));
    assert!(Calculator::is_evaluable("() 2"));
    // nothing is left to evaluate
    assert!(!Calculator::is_evaluable("()"));
    // the operator finds one value only
    assert!(!Calculator::is_evaluable("(+2)"));
    // two values are left
    assert!(!Calculator::is_evaluable("2 (3)"));
    assert!(!Calculator::is_evaluable("(2) 3"));
    // a number does not fit
    assert!(!Calculator::is_evaluable("1 + 99999999999999999999999999"));
}

#[test]
fn overflow_wraps_during_evaluation() {
    let text = format!("{} + 1", isize::MAX);
    assert_eq!(Calculator::evaluate(&text), Ok(isize::MIN));
    let text = format!("(0 - {} - 1) / (0 - 1)", isize::MAX);
    assert!(Calculator::is_evaluable(&text));
    // 0 - (MAX - 1) = -MAX + 1, divided by -1
    assert_eq!(Calculator::evaluate(&text), Ok(isize::MAX - 1));
    let text = format!("((0 - {}) - 1) / (0 - 1)", isize::MAX);
    assert_eq!(Calculator::evaluate(&text), Ok(isize::MIN));
}

#[test]
fn a_chain_starts_at_zero_and_goes_from_the_left() {
    assert_eq!(chain::Calculator::calculate(vec![].into()), Ok(0));
    assert_eq!(chain::Calculator::calculate(vec![Subtract(Value(4))].into()), Ok(-4));
    assert_eq!(chain::Calculator::calculate(vec![Multiply(Value(4))].into()), Ok(0));
    assert_eq!(
        chain::Calculator::calculate(
            vec![Add(Value(2)), Multiply(Value(5)), Subtract(Value(1)), Divide(Value(2))].into()
        ),
        Ok(4)
    );
}

#[test]
fn a_chain_refuses_to_divide_by_zero_in_words() {
    assert_eq!(
        chain::Calculator::divide(5, 0),
        Err(String::from("Attempting to divide by zero: 5 / 0"))
    );
    assert_eq!(
        chain::Calculator::calculate(vec![Subtract(Value(12)), Divide(Value(0))].into()),
        Err(String::from("Attempting to divide by zero: -12 / 0"))
    );
    // the operand chain is evaluated first, and its refusal comes out
    assert_eq!(
        chain::Calculator::calculate(
            vec![
                Add(Value(1)),
                Divide(Expression(vec![Add(Value(3)), Divide(Value(0))].into())),
                Divide(Value(0)),
            ]
            .into()
        ),
        Err(String::from("Attempting to divide by zero: 3 / 0"))
    );
    // a chain of value zero as divisor
    assert_eq!(
        chain::Calculator::calculate(
            vec![Add(Value(9)), Divide(Expression(vec![].into()))].into()
        ),
        Err(String::from("Attempting to divide by zero: 9 / 0"))
    );
}

#[test]
fn chains_nest() {
    assert_eq!(
        chain::Calculator::calculate(
            vec![
                Add(Value(20)),
                Subtract(Expression(
                    vec![
                        Add(Value(2)),
                        Multiply(Expression(vec![Add(Value(3)), Add(Value(4))].into())),
                    ]
                    .into()
                )),
            ]
            .into()
        ),
        Ok(6)
    );
}

#[test]
fn chain_arithmetic_wraps_and_rounds_toward_zero() {
    assert_eq!(chain::Calculator::add(isize::MAX, 1), isize::MIN);
    assert_eq!(chain::Calculator::subtract(isize::MIN, 1), isize::MAX);
    assert_eq!(chain::Calculator::multiply(isize::MAX, 2), -2);
    assert_eq!(chain::Calculator::divide(-7, 2), Ok(-3));
    assert_eq!(chain::Calculator::divide(isize::MIN, -1), Ok(isize::MIN));
}
