use simple_calc::validator::Violation;
use simple_calc::{Calculator, Error, Operator, Token};

fn operand(value: isize) -> Token {
    Token::Operand(value)
}

fn operator(operator: Operator) -> Token {
    Token::Operator(operator)
}

#[test]
fn a_run_of_digits_is_one_operand_whatever_spaces_surround_it() {
    assert_eq!(Calculator::tokenize_expression("1234").unwrap(), vec![operand(1234)]);
    assert_eq!(Calculator::tokenize_expression("   1234").unwrap(), vec![operand(1234)]);
    assert_eq!(Calculator::tokenize_expression("1234  ").unwrap(), vec![operand(1234)]);
    assert_eq!(Calculator::tokenize_expression(" 1234 ").unwrap(), vec![operand(1234)]);
}

#[test]
fn a_space_inside_a_run_of_digits_makes_two_operands() {
    assert_eq!(
        Calculator::tokenize_expression("12 34").unwrap(),
        vec![operand(12), operand(34)]
    );
}

#[test]
fn leading_zeros_do_not_change_the_number() {
    assert_eq!(Calculator::tokenize_expression("007").unwrap(), vec![operand(7)]);
    assert_eq!(Calculator::tokenize_expression("0").unwrap(), vec![operand(0)]);
}

#[test]
fn spaces_between_tokens_change_nothing() {
    let dense = Calculator::tokenize_expression("(3+4)*2").unwrap();
    let loose = Calculator::tokenize_expression(" ( 3 +  4 ) * 2 ").unwrap();
    assert_eq!(dense, loose);
    assert_eq!(
        dense,
        vec![
            Token::LeftParen,
            operand(3),
            operator(Operator::Add),
            operand(4),
            Token::RightParen,
            operator(Operator::Multiply),
            operand(2),
        ]
    );
}

#[test]
fn every_symbol_is_its_own_token() {
    assert_eq!(
        Calculator::tokenize_expression("+-*/()").unwrap(),
        vec![
            operator(Operator::Add),
            operator(Operator::Subtract),
            operator(Operator::Multiply),
            operator(Operator::Divide),
            Token::LeftParen,
            Token::RightParen,
        ]
    );
}

#[test]
fn empty_text_has_no_tokens() {
    assert_eq!(Calculator::tokenize_expression("").unwrap(), vec![]);
    assert_eq!(Calculator::tokenize_expression("    ").unwrap(), vec![]);
}

#[test]
fn the_first_rejected_character_is_reported_with_its_position() {
    assert_eq!(
        Calculator::tokenize_expression("3+4!2"),
        Err(Error::InvalidCharacter('!', 3))
    );
    assert_eq!(
        Calculator::tokenize_expression("x"),
        Err(Error::InvalidCharacter('x', 0))
    );
    assert_eq!(
        Calculator::tokenize_expression("1 + a + b"),
        Err(Error::InvalidCharacter('a', 4))
    );
}

#[test]
fn positions_count_characters_not_bytes() {
    assert_eq!(
        Calculator::tokenize_expression("é+1"),
        Err(Error::InvalidCharacter('é', 0))
    );
    assert_eq!(
        Calculator::tokenize_expression("1 + 2 € 3 ü"),
        Err(Error::InvalidCharacter('€', 6))
    );
}

#[test]
fn the_largest_operand_fits_and_the_next_number_does_not() {
    let largest = format!("{}", isize::MAX);
    let too_large = format!("{}", isize::MAX as i128 + 1);
    assert!(Calculator::has_fitting_literals(&largest));
    assert_eq!(
        Calculator::tokenize_expression(&largest).unwrap(),
        vec![operand(isize::MAX)]
    );
    assert!(!Calculator::has_fitting_literals(&too_large));
    assert!(!Calculator::has_fitting_literals("1 + 99999999999999999999999999"));
}

#[test]
fn numbers_after_a_rejected_character_need_not_fit() {
    assert!(Calculator::has_fitting_literals("1 ! 99999999999999999999999999"));
    assert_eq!(
        Calculator::tokenize_expression("1 ! 99999999999999999999999999"),
        Err(Error::InvalidCharacter('!', 2))
    );
    assert!(!Calculator::has_fitting_literals("99999999999999999999999999 ! 1"));
}

#[test]
fn validation_names_the_first_breach() {
    assert_eq!(
        Calculator::validate_expression(&[]),
        Err(Error::ZeroLengthExpression)
    );
    assert_eq!(
        Calculator::validate_expression(&[operand(2), operand(-3)]),
        Err(Error::InvalidExpression(String::from("consecutive operands 2, -3")))
    );
    assert_eq!(
        Calculator::validate_expression(&[operator(Operator::Add), operand(2)]),
        Err(Error::InvalidExpression(String::from(
            "operator Add with no leading operand"
        )))
    );
    assert_eq!(
        Calculator::validate_expression(&[operand(2), operator(Operator::Divide)]),
        Err(Error::InvalidExpression(String::from(
            "operator Divide with no trailing operand"
        )))
    );
    assert_eq!(
        Calculator::validate_expression(&[
            operand(2),
            operator(Operator::Subtract),
            operator(Operator::Multiply),
        ]),
        Err(Error::InvalidExpression(String::from(
            "operator Subtract followed by invalid token Operator(Multiply)"
        )))
    );
    assert_eq!(
        Calculator::validate_expression(&[
            operand(2),
            operator(Operator::Add),
            Token::RightParen,
        ]),
        Err(Error::InvalidExpression(String::from(
            "operator Add followed by invalid token RightParen"
        )))
    );
}

#[test]
fn a_lone_operator_lacks_its_leading_operand_first() {
    assert_eq!(
        Calculator::validate_expression(&[operator(Operator::Multiply)]),
        Err(Error::InvalidExpression(String::from(
            "operator Multiply with no leading operand"
        )))
    );
}

#[test]
fn of_two_breaches_the_left_one_is_reported() {
    // 1 2 + +
    assert_eq!(
        Calculator::validate_expression(&[
            operand(1),
            operand(2),
            operator(Operator::Add),
            operator(Operator::Add),
        ]),
        Err(Error::InvalidExpression(String::from("consecutive operands 1, 2")))
    );
}

#[test]
fn validation_does_not_look_at_parentheses() {
    assert_eq!(Calculator::validate_expression(&[Token::RightParen]), Ok(()));
    assert_eq!(
        Calculator::validate_expression(&[Token::LeftParen, Token::RightParen]),
        Ok(())
    );
    // ( + 2 )
    assert_eq!(
        Calculator::validate_expression(&[
            Token::LeftParen,
            operator(Operator::Add),
            operand(2),
            Token::RightParen,
        ]),
        Ok(())
    );
    // 2 ( 3 )
    assert_eq!(
        Calculator::validate_expression(&[
            operand(2),
            Token::LeftParen,
            operand(3),
            Token::RightParen,
        ]),
        Ok(())
    );
    // 2 + ( 3 )
    assert_eq!(
        Calculator::validate_expression(&[
            operand(2),
            operator(Operator::Add),
            Token::LeftParen,
            operand(3),
            Token::RightParen,
        ]),
        Ok(())
    );
}

#[test]
fn a_breach_is_described_in_words() {
    assert_eq!(
        Violation::ConsecutiveOperands(10, 200).describe(),
        "consecutive operands 10, 200"
    );
    assert_eq!(
        Violation::ConsecutiveOperands(isize::MIN, isize::MAX).describe(),
        format!("consecutive operands {}, {}", isize::MIN, isize::MAX)
    );
    assert_eq!(
        Violation::InvalidFollower(Operator::Add, Token::Operand(-5)).describe(),
        "operator Add followed by invalid token Operand(-5)"
    );
    assert_eq!(
        Violation::InvalidFollower(Operator::Add, Token::LeftParen).describe(),
        "operator Add followed by invalid token LeftParen"
    );
}

#[test]
fn precedence_is_one_for_sums_and_two_for_products() {
    assert_eq!(Operator::Add.precedence(), 1);
    assert_eq!(Operator::Subtract.precedence(), 1);
    assert_eq!(Operator::Multiply.precedence(), 2);
    assert_eq!(Operator::Divide.precedence(), 2);
}

#[test]
fn conversion_lets_tighter_operators_out_first() {
    // 2 * 3 + 4  ->  2 3 * 4 +
    assert_eq!(
        Calculator::marshal_infix_expression_to_postfix(vec![
            operand(2),
            operator(Operator::Multiply),
            operand(3),
            operator(Operator::Add),
            operand(4),
        ]),
        Ok(vec![
            operand(2),
            operand(3),
            operator(Operator::Multiply),
            operand(4),
            operator(Operator::Add),
        ])
    );
}

#[test]
fn conversion_keeps_operators_of_equal_precedence_waiting() {
    // 8 - 3 - 2  ->  8 3 2 - -
    assert_eq!(
        Calculator::marshal_infix_expression_to_postfix(vec![
            operand(8),
            operator(Operator::Subtract),
            operand(3),
            operator(Operator::Subtract),
            operand(2),
        ]),
        Ok(vec![
            operand(8),
            operand(3),
            operand(2),
            operator(Operator::Subtract),
            operator(Operator::Subtract),
        ])
    );
    // 8 / 4 * 2  ->  8 4 2 * /
    assert_eq!(
        Calculator::marshal_infix_expression_to_postfix(vec![
            operand(8),
            operator(Operator::Divide),
            operand(4),
            operator(Operator::Multiply),
            operand(2),
        ]),
        Ok(vec![
            operand(8),
            operand(4),
            operand(2),
            operator(Operator::Multiply),
            operator(Operator::Divide),
        ])
    );
}

#[test]
fn conversion_stops_yielding_at_an_opening_parenthesis() {
    // 2 * ( 3 + 4 )  ->  2 3 4 + *
    assert_eq!(
        Calculator::marshal_infix_expression_to_postfix(vec![
            operand(2),
            operator(Operator::Multiply),
            Token::LeftParen,
            operand(3),
            operator(Operator::Add),
            operand(4),
            Token::RightParen,
        ]),
        Ok(vec![
            operand(2),
            operand(3),
            operand(4),
            operator(Operator::Add),
            operator(Operator::Multiply),
        ])
    );
}

#[test]
fn conversion_of_nothing_is_nothing() {
    assert_eq!(Calculator::marshal_infix_expression_to_postfix(vec![]), Ok(vec![]));
    assert_eq!(
        Calculator::marshal_infix_expression_to_postfix(vec![
            Token::LeftParen,
            Token::RightParen,
        ]),
        Ok(vec![])
    );
}

#[test]
fn conversion_fails_exactly_on_unmatched_parentheses() {
    let mismatched = Err(Error::MismatchedParentheses);
    assert_eq!(
        Calculator::marshal_infix_expression_to_postfix(vec![Token::LeftParen]),
        mismatched
    );
    assert_eq!(
        Calculator::marshal_infix_expression_to_postfix(vec![Token::RightParen]),
        mismatched
    );
    assert_eq!(
        Calculator::marshal_infix_expression_to_postfix(vec![
            Token::RightParen,
            Token::LeftParen,
        ]),
        mismatched
    );
    assert_eq!(
        Calculator::marshal_infix_expression_to_postfix(vec![
            Token::LeftParen,
            Token::LeftParen,
            operand(1),
            Token::RightParen,
        ]),
        mismatched
    );
    assert_eq!(
        Calculator::marshal_infix_expression_to_postfix(vec![
            Token::LeftParen,
            Token::LeftParen,
            operand(1),
            Token::RightParen,
            Token::RightParen,
        ]),
        Ok(vec![operand(1)])
    );
}

#[test]
fn postfix_evaluation_takes_the_left_operand_from_below() {
    // 7 2 -  and  7 2 /
    assert_eq!(
        Calculator::evaluate_postfix_expression(vec![
            operand(7),
            operand(2),
            operator(Operator::Subtract),
        ]),
        Ok(5)
    );
    assert_eq!(
        Calculator::evaluate_postfix_expression(vec![
            operand(7),
            operand(2),
            operator(Operator::Divide),
        ]),
        Ok(3)
    );
}

#[test]
fn postfix_evaluation_reports_the_first_division_by_zero() {
    // 5 0 /
    assert_eq!(
        Calculator::evaluate_postfix_expression(vec![
            operand(5),
            operand(0),
            operator(Operator::Divide),
        ]),
        Err(Error::DivideByZero(5, 0))
    );
    // 1 0 / 2 0 / +
    assert_eq!(
        Calculator::evaluate_postfix_expression(vec![
            operand(1),
            operand(0),
            operator(Operator::Divide),
            operand(2),
            operand(0),
            operator(Operator::Divide),
            operator(Operator::Add),
        ]),
        Err(Error::DivideByZero(1, 0))
    );
    // 6 3 3 - /
    assert_eq!(
        Calculator::evaluate_postfix_expression(vec![
            operand(6),
            operand(3),
            operand(3),
            operator(Operator::Subtract),
            operator(Operator::Divide),
        ]),
        Err(Error::DivideByZero(6, 0))
    );
}

#[test]
fn postfix_notation_is_recognised() {
    assert!(Calculator::is_postfix_expression(&[operand(5)]));
    assert!(Calculator::is_postfix_expression(&[
        operand(3),
        operand(4),
        operand(2),
        operator(Operator::Multiply),
        operator(Operator::Add),
    ]));
    assert!(!Calculator::is_postfix_expression(&[]));
    assert!(!Calculator::is_postfix_expression(&[operand(1), operand(2)]));
    assert!(!Calculator::is_postfix_expression(&[operator(Operator::Add)]));
    assert!(!Calculator::is_postfix_expression(&[operand(2), operator(Operator::Add)]));
    assert!(!Calculator::is_postfix_expression(&[
        operator(Operator::Add),
        operand(3),
        operand(2),
    ]));
    assert!(!Calculator::is_postfix_expression(&[
        operand(1),
        operator(Operator::Add),
        operand(2),
    ]));
    assert!(!Calculator::is_postfix_expression(&[Token::LeftParen, operand(1)]));
    assert!(!Calculator::is_postfix_expression(&[operand(1), Token::RightParen]));
}

#[test]
fn division_rounds_toward_zero() {
    assert_eq!(Calculator::divide(7, 2), Ok(3));
    assert_eq!(Calculator::divide(-7, 2), Ok(-3));
    assert_eq!(Calculator::divide(7, -2), Ok(-3));
    assert_eq!(Calculator::divide(-7, -2), Ok(3));
    assert_eq!(Calculator::divide(0, -2), Ok(0));
    assert_eq!(Calculator::divide(1, isize::MIN), Ok(0));
    assert_eq!(Calculator::divide(isize::MIN, isize::MIN), Ok(1));
    assert_eq!(Calculator::divide(isize::MIN, 1), Ok(isize::MIN));
    assert_eq!(Calculator::divide(isize::MAX, -1), Ok(-isize::MAX));
}

#[test]
fn division_by_zero_names_dividend_and_divisor() {
    assert_eq!(Calculator::divide(1, 0), Err(Error::DivideByZero(1, 0)));
    assert_eq!(Calculator::divide(0, 0), Err(Error::DivideByZero(0, 0)));
    assert_eq!(Calculator::divide(-9, 0), Err(Error::DivideByZero(-9, 0)));
}

#[test]
fn results_out_of_range_wrap_around() {
    assert_eq!(Calculator::add(isize::MAX, 1), isize::MIN);
    assert_eq!(Calculator::add(isize::MIN, -1), isize::MAX);
    assert_eq!(Calculator::subtract(isize::MIN, 1), isize::MAX);
    assert_eq!(Calculator::subtract(0, isize::MIN), isize::MIN);
    assert_eq!(Calculator::multiply(isize::MAX, 2), -2);
    assert_eq!(Calculator::multiply(isize::MIN, -1), isize::MIN);
    assert_eq!(Calculator::divide(isize::MIN, -1), Ok(isize::MIN));
}

#[test]
fn errors_are_put_into_words() {
    assert_eq!(
        Error::InvalidCharacter('!', 3).message(),
        "encountered invalid character ! in expression at position 3"
    );
    assert_eq!(
        Error::InvalidCharacter('€', 1234567890).message(),
        "encountered invalid character € in expression at position 1234567890"
    );
    assert_eq!(
        Error::InvalidCharacter('a', 0).message(),
        "encountered invalid character a in expression at position 0"
    );
    assert_eq!(
        Error::ZeroLengthExpression.message(),
        "input expression appears to have zero length and cannot be evaluated"
    );
    assert_eq!(
        Error::InvalidExpression(String::from("consecutive operands 2, 2")).message(),
        "input expression is invalid: consecutive operands 2, 2"
    );
    assert_eq!(
        Error::MismatchedParentheses.message(),
        "input expression contains mismatched parentheses"
    );
    assert_eq!(
        Error::DivideByZero(5, 0).message(),
        "attempted to divide by zero: 5 / 0"
    );
    assert_eq!(
        Error::DivideByZero(-120, 0).message(),
        "attempted to divide by zero: -120 / 0"
    );
    assert_eq!(
        Error::DivideByZero(isize::MIN, 0).message(),
        format!("attempted to divide by zero: {} / 0", isize::MIN)
    );
}
