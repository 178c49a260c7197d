//! A calculator for chains of operations: each operation combines the value
//! so far, which starts at zero, with an operand that is a number or a chain
//! of its own.

use vstd::prelude::*;
use vstd::std_specs::convert::FromSpecImpl;
use crate::arithmetic::{quotient, wrap};
use crate::text::{decimal, push_integer};

verus! {

/// A chain of operations, applied from the left to a value that starts at
/// zero.
pub struct Expression(Vec<Operation>);

/// One link of a chain: what to do to the value so far, and with what.
pub enum Operation {
    Add(Operand),
    Subtract(Operand),
    Multiply(Operand),
    Divide(Operand),
}

/// The right-hand side of an operation.
pub enum Operand {
    /// A number.
    Value(isize),
    /// The value of a chain.
    Expression(Expression),
}

impl View for Expression {
    type V = Seq<Operation>;

    closed spec fn view(&self) -> Seq<Operation> {
        self.0@
    }
}

impl From<Vec<Operation>> for Expression {
    /// The chain of the given operations, in their order.
    fn from(operations: Vec<Operation>) -> (expression: Expression)
        ensures
            expression@ == operations@,
    {
        Expression(operations)
    }
}

impl FromSpecImpl<Vec<Operation>> for Expression {
    open spec fn obeys_from_spec() -> bool {
        true
    }

    closed spec fn from_spec(operations: Vec<Operation>) -> Expression {
        Expression(operations)
    }
}

/// The words in which a division of `x` by zero is refused.
pub open spec fn refusal(x: int, y: int) -> Seq<char> {
    "Attempting to divide by zero: "@ + decimal(x) + " / "@ + decimal(y)
}

/// The value so far after one more operation whose operand has the value
/// `y`, or the refusal to divide by zero.
pub open spec fn combine(operation: Operation, x: isize, y: isize) -> Result<isize, Seq<char>> {
    match operation {
        Operation::Add(_) => Ok(wrap(x + y)),
        Operation::Subtract(_) => Ok(wrap(x - y)),
        Operation::Multiply(_) => Ok(wrap(x * y)),
        Operation::Divide(_) => if y == 0 {
            Err(refusal(x as int, y as int))
        } else {
            Ok(wrap(quotient(x as int, y as int)))
        },
    }
}

impl Operation {
    /// The operand of the operation.
    pub open spec fn operand(self) -> Operand {
        match self {
            Operation::Add(operand) => operand,
            Operation::Subtract(operand) => operand,
            Operation::Multiply(operand) => operand,
            Operation::Divide(operand) => operand,
        }
    }
}

impl Operand {
    /// The value of the operand: the number itself, or the value of the chain.
    pub open spec fn value(self) -> Result<isize, Seq<char>>
        decreases self, 0nat,
    {
        match self {
            Operand::Value(y) => Ok(y),
            Operand::Expression(chain) => chain.value(),
        }
    }
}

impl Expression {
    /// The value after the first `count` operations of the chain, or the
    /// first refusal met on the way. An operation evaluates its operand
    /// before it combines it with the value so far.
    pub open spec fn value_after(self, count: nat) -> Result<isize, Seq<char>>
        decreases self, count,
    {
        if count == 0 || count > self@.len() {
            Ok(0)
        } else {
            match self.value_after((count - 1) as nat) {
                Err(refused) => Err(refused),
                Ok(x) => {
                    let operation = self@[count - 1];
                    match operation.operand().value() {
                        Err(refused) => Err(refused),
                        Ok(y) => combine(operation, x, y),
                    }
                },
            }
        }
    }

    /// The value of the chain: the value after all of its operations.
    pub open spec fn value(self) -> Result<isize, Seq<char>>
        decreases self, self@.len() + 1,
    {
        self.value_after(self@.len())
    }
}

/// The mathematical content of a result of this calculator: the value as it
/// is, the refusal by its characters.
pub open spec fn outcome(result: Result<isize, String>) -> Result<isize, Seq<char>> {
    match result {
        Ok(value) => Ok(value),
        Err(refused) => Err(refused@),
    }
}

/// A refusal ends the chain: the operations after it change nothing.
proof fn lemma_refusal_persists(expression: Expression, count: nat, later: nat)
    requires
        count <= later <= expression@.len(),
        expression.value_after(count) is Err,
    ensures
        expression.value_after(later) == expression.value_after(count),
    decreases later,
{
    if count < later {
        lemma_refusal_persists(expression, count, (later - 1) as nat);
    }
}

/// Evaluates chains of operations.
pub struct Calculator;

impl Calculator {
    /// The value of a chain of operations: each operation in turn combines
    /// the value so far, which starts at zero, with its operand. Fails with
    /// the first refusal to divide by zero, be it in the chain or in a chain
    /// that serves as an operand.
    pub fn calculate(expression: Expression) -> (result: Result<isize, String>)
        ensures
            outcome(result) == expression.value(),
    {
        Self::value_of(&expression)
    }

    /// The value of the chain `expression`.
    fn value_of(expression: &Expression) -> (result: Result<isize, String>)
        ensures
            outcome(result) == expression.value(),
        decreases expression,
    {
        let n = expression.0.len();
        let mut x: isize = 0;
        let mut i: usize = 0;
        while i < n
            invariant
                0 <= i <= n == expression@.len(),
                expression.value_after(i as nat) == Ok::<isize, Seq<char>>(x),
            decreases n - i,
        {
            let operation = &expression.0[i];
            assert(*operation == expression@[i as int]);
            let operand = match operation {
                Operation::Add(operand) => operand,
                Operation::Subtract(operand) => operand,
                Operation::Multiply(operand) => operand,
                Operation::Divide(operand) => operand,
            };
            assert(*operand == operation.operand());
            let evaluated = match operand {
                Operand::Value(y) => Ok(*y),
                Operand::Expression(chain) => Self::value_of(chain),
            };
            assert(outcome(evaluated) == operand.value());
            let combined = match evaluated {
                Ok(y) => match operation {
                    Operation::Add(_) => Ok(Self::add(x, y)),
                    Operation::Subtract(_) => Ok(Self::subtract(x, y)),
                    Operation::Multiply(_) => Ok(Self::multiply(x, y)),
                    Operation::Divide(_) => Self::divide(x, y),
                },
                Err(refused) => Err(refused),
            };
            assert(expression.value_after(((i + 1) as nat - 1) as nat) == Ok::<isize, Seq<char>>(x));
            assert(outcome(combined) == expression.value_after((i + 1) as nat));
            match combined {
                Ok(value) => {
                    x = value;
                },
                Err(refused) => {
                    proof {
                        lemma_refusal_persists(*expression, (i + 1) as nat, n as nat);
                    }
                    return Err(refused);
                },
            }
            i += 1;
        }
        Ok(x)
    }

    /// The sum of `x` and `y`.
    pub fn add(x: isize, y: isize) -> (sum: isize)
        ensures
            sum == wrap(x + y),
            isize::MIN <= x + y <= isize::MAX ==> sum == x + y,
    {
        crate::calculator::Calculator::add(x, y)
    }

    /// The difference of `x` and `y`.
    pub fn subtract(x: isize, y: isize) -> (difference: isize)
        ensures
            difference == wrap(x - y),
            isize::MIN <= x - y <= isize::MAX ==> difference == x - y,
    {
        crate::calculator::Calculator::subtract(x, y)
    }

    /// The product of `x` and `y`.
    pub fn multiply(x: isize, y: isize) -> (product: isize)
        ensures
            product == wrap(x * y),
            isize::MIN <= x * y <= isize::MAX ==> product == x * y,
    {
        crate::calculator::Calculator::multiply(x, y)
    }

    /// The quotient of `x` by `y`, rounded toward zero; refused, in words,
    /// exactly when `y` is zero.
    pub fn divide(x: isize, y: isize) -> (result: Result<isize, String>)
        ensures
            outcome(result) == if y == 0 {
                Err::<isize, Seq<char>>(refusal(x as int, y as int))
            } else {
                Ok::<isize, Seq<char>>(wrap(quotient(x as int, y as int)))
            },
            y != 0 && !(x == isize::MIN && y == -1) ==> result == Ok::<isize, String>(
                quotient(x as int, y as int) as isize,
            ),
    {
        match crate::calculator::Calculator::divide(x, y) {
            Ok(value) => Ok(value),
            Err(_) => {
                let mut refused = String::new();
                refused.append("Attempting to divide by zero: ");
                push_integer(&mut refused, x);
                refused.append(" / ");
                push_integer(&mut refused, y);
                assert(refused@ =~= refusal(x as int, y as int));
                Err(refused)
            },
        }
    }
}

} // verus!
