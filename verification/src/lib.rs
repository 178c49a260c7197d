//! An integer calculator for arithmetic expressions in infix notation.
//!
//! [`Calculator::evaluate`] takes the text of an expression made of
//! non-negative integers, the operators `+`, `-`, `*` and `/`, parentheses
//! and spaces, and gives its value or the reason why it has none. It works in
//! four stages, each specified and verified in a module of its own:
//!
//! * [`tokenizer`]: from characters to tokens;
//! * [`validator`]: which token may stand next to which;
//! * [`converter`]: from infix to postfix notation, by the shunting-yard
//!   algorithm;
//! * [`evaluator`]: the value of a postfix expression, computed on a stack.
//!
//! [`infix`] says what an expression in infix notation is and proves that
//! the stages take every such expression through to a value or to a division
//! by zero. [`arithmetic`] holds the four operations, [`text`] decimal
//! notation, [`token`] and [`error`] the vocabulary. [`chain`] is a second,
//! smaller calculator, for operations given as data and not as text.

pub mod arithmetic;
pub mod calculator;
pub mod chain;
pub mod converter;
pub mod error;
pub mod evaluator;
pub mod infix;
pub mod text;
pub mod token;
pub mod tokenizer;
pub mod validator;

pub use calculator::Calculator;
pub use error::Error;
pub use token::{Operator, Token};
