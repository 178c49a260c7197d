use simple_calc::chain::Calculator;
use simple_calc::chain::Operand::{Expression, Value};
use simple_calc::chain::Operation::{Add, Divide, Multiply, Subtract};

#[test]
fn calculator_addition_behaves_correctly() {
    assert_eq!(Calculator::add(1, 2), 3);
}

#[test]
fn calculator_subtraction_behaves_correctly() {
    assert_eq!(Calculator::subtract(3, 2), 1);
}

#[test]
fn calculator_multiplication_behaves_correctly() {
    assert_eq!(Calculator::multiply(2, 3), 6);
}

#[test]
fn calculator_division_behaves_correctly() {
    assert_eq!(Calculator::divide(6, 3).unwrap(), 2);
}

#[test]
fn calculator_division_behaves_correctly_with_zero_divisor() {
    assert!(Calculator::divide(1, 0).is_err());
}

#[test]
fn calculation_behaves_correctly() {
    assert_eq!(
        Calculator::calculate(vec![Add(Value(1)), Add(Value(2))].into()).unwrap(),
        3
    );
    assert_eq!(
        Calculator::calculate(vec![Add(Value(1)), Subtract(Value(2))].into()).unwrap(),
        -1
    );
    assert_eq!(
        Calculator::calculate(vec![Add(Value(8)), Multiply(Value(2))].into()).unwrap(),
        16
    );
    assert_eq!(
        Calculator::calculate(vec![Add(Value(10)), Divide(Value(5))].into()).unwrap(),
        2
    );
}

#[test]
fn calculation_behaves_correctly_with_zero_divisor() {
    assert!(Calculator::calculate(vec![Add(Value(5)), Divide(Value(0))].into()).is_err());
}

#[test]
fn calculation_can_handle_nested_expressions() {
    assert_eq!(
        Calculator::calculate(
            vec![
                Add(Value(5)),
                Add(Expression(vec![Add(Value(4)), Divide(Value(2))].into()))
            ]
            .into()
        )
        .unwrap(),
        7
    );
}
