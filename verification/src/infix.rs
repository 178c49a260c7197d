//! The shape of an infix expression, and the proof that conversion turns
//! every expression of that shape into one in postfix notation.

use vstd::prelude::*;
use crate::converter::{
    is_balanced,
    lemma_conversion_succeeds_iff_balanced,
    lemma_shunt_follows_nesting,
    postfix_of,
    shunt,
    Yard,
};
use crate::evaluator::{is_postfix, is_workable, surplus};
use crate::token::{Operator, Token};
use crate::validator::{is_valid, violation_at};

verus! {

/// Whether a value may begin with `token`: an operand or an opening
/// parenthesis.
pub open spec fn starts_value(token: Token) -> bool {
    token is Operand || token is LeftParen
}

/// Whether a value may end with `token`: an operand or a closing parenthesis.
pub open spec fn ends_value(token: Token) -> bool {
    token is Operand || token is RightParen
}

/// Whether values and operators take turns in `tokens`: a token begins a
/// value exactly where none has just ended, that is at the very beginning,
/// after an operator and after an opening parenthesis.
pub open spec fn alternates(tokens: Seq<Token>) -> bool {
    forall|i: int|
        0 <= i < tokens.len() ==> (starts_value(#[trigger] tokens[i]) <==> i == 0 || !ends_value(
            tokens[i - 1],
        ))
}

/// Whether `tokens` are an expression in infix notation: values and
/// operators take turns, the last token ends a value, and the parentheses
/// match.
pub open spec fn is_infix(tokens: Seq<Token>) -> bool {
    &&& tokens.len() > 0
    &&& alternates(tokens)
    &&& ends_value(tokens.last())
    &&& is_balanced(tokens)
}

/// The number of operators among `tokens`.
spec fn operators_in(tokens: Seq<Token>) -> nat
    decreases tokens.len(),
{
    if tokens.len() == 0 {
        0
    } else {
        operators_in(tokens.drop_last()) + if tokens.last() is Operator {
            1nat
        } else {
            0nat
        }
    }
}

/// Whether `tokens` end with the end of a value.
spec fn is_complete(tokens: Seq<Token>) -> bool {
    tokens.len() > 0 && ends_value(tokens.last())
}

/// Whether the yard is in step with an expression read so far: it is
/// orderly, what it has emitted can be worked off on a stack, and that leaves
/// one value for each waiting operator, and one more if the expression read
/// so far ends with the end of a value.
spec fn is_in_step(yard: Yard, complete: bool) -> bool {
    &&& yard.is_orderly()
    &&& is_workable(yard.output)
    &&& surplus(yard.output) == operators_in(yard.stack) + if complete {
        1int
    } else {
        0int
    }
}

/// One more token that leaves a value on the stack keeps the tokens workable.
proof fn lemma_workable_push(tokens: Seq<Token>, token: Token)
    requires
        is_workable(tokens),
        token is Operand || token is Operator,
        token is Operator ==> surplus(tokens) >= 2,
    ensures
        is_workable(tokens.push(token)),
        surplus(tokens.push(token)) == surplus(tokens) + if token is Operand {
            1int
        } else {
            -1int
        },
{
    let longer = tokens.push(token);
    assert(longer.drop_last() =~= tokens);
    assert(surplus(tokens) >= 0) by {
        if tokens.len() > 0 {
            assert(tokens.take(tokens.len() as int) =~= tokens);
        }
    }
    assert forall|i: int| 0 <= i < longer.len() implies (#[trigger] longer[i]) is Operand
        || longer[i] is Operator by {
        if i < tokens.len() {
            assert(longer[i] == tokens[i]);
        }
    }
    assert forall|k: int| 1 <= k <= longer.len() implies surplus(#[trigger] longer.take(k))
        >= 1 by {
        if k <= tokens.len() {
            assert(longer.take(k) =~= tokens.take(k));
        } else {
            assert(longer.take(k) =~= longer);
        }
    }
}

/// Releasing a waiting operator once a value has ended keeps the yard in step.
proof fn lemma_release_in_step(yard: Yard)
    requires
        is_in_step(yard, true),
        yard.stack.len() > 0,
        yard.stack.last() is Operator,
    ensures
        is_in_step(yard.release(), true),
{
    let after = yard.release();
    assert forall|i: int| 0 <= i < after.stack.len() implies (#[trigger] after.stack[i])
        is Operator || after.stack[i] is LeftParen by {
        assert(after.stack[i] == yard.stack[i]);
    }
    lemma_workable_push(yard.output, yard.stack.last());
}

/// Yielding to an operator once a value has ended keeps the yard in step.
proof fn lemma_yield_in_step(yard: Yard, incoming: Operator)
    requires
        is_in_step(yard, true),
    ensures
        is_in_step(yard.yield_to(incoming), true),
    decreases yard.stack.len(),
{
    if yard.outranks(incoming) {
        lemma_release_in_step(yard);
        lemma_yield_in_step(yard.release(), incoming);
    }
}

/// Closing a group once a value has ended keeps the yard in step.
proof fn lemma_close_in_step(yard: Yard)
    requires
        is_in_step(yard, true),
    ensures
        yard.close_group() matches Some(closed) ==> is_in_step(closed, true),
    decreases yard.stack.len(),
{
    if yard.stack.len() > 0 {
        assert(yard.stack.last() == yard.stack[yard.stack.len() - 1]);
        if yard.stack.last() is LeftParen {
            let closed = yard.close_group()->Some_0;
            assert forall|i: int| 0 <= i < closed.stack.len() implies (
            #[trigger] closed.stack[i]) is Operator || closed.stack[i] is LeftParen by {
                assert(closed.stack[i] == yard.stack[i]);
            }
        } else {
            lemma_release_in_step(yard);
            lemma_close_in_step(yard.release());
        }
    }
}

/// Draining a yard that is in step with a complete expression gives an
/// expression in postfix notation.
proof fn lemma_drain_in_step(yard: Yard)
    requires
        is_in_step(yard, true),
    ensures
        yard.drain() matches Some(output) ==> is_postfix(output),
    decreases yard.stack.len(),
{
    if yard.stack.len() > 0 {
        assert(yard.stack.last() == yard.stack[yard.stack.len() - 1]);
        if !(yard.stack.last() is LeftParen) {
            lemma_release_in_step(yard);
            lemma_drain_in_step(yard.release());
        }
    }
}

/// While values and operators take turns, the yard stays in step with what
/// has been read.
proof fn lemma_shunt_in_step(tokens: Seq<Token>)
    requires
        alternates(tokens),
    ensures
        shunt(tokens) matches Some(yard) ==> is_in_step(yard, is_complete(tokens)),
    decreases tokens.len(),
{
    if tokens.len() > 0 {
        let init = tokens.drop_last();
        let last = tokens.last();
        assert forall|i: int| 0 <= i < init.len() implies (starts_value(#[trigger] init[i]) <==> i
            == 0 || !ends_value(init[i - 1])) by {
            assert(init[i] == tokens[i]);
            if i > 0 {
                assert(init[i - 1] == tokens[i - 1]);
            }
        }
        lemma_shunt_in_step(init);
        assert(starts_value(last) <==> !is_complete(init)) by {
            assert(last == tokens[tokens.len() - 1]);
            if init.len() > 0 {
                assert(init.last() == tokens[tokens.len() - 2]);
            }
        }
        if let Some(yard) = shunt(init) {
            match last {
                Token::Operand(_) => {
                    lemma_workable_push(yard.output, last);
                },
                Token::LeftParen => {
                    let next = yard.accept(last)->Some_0;
                    assert(next.stack.drop_last() =~= yard.stack);
                    assert forall|i: int| 0 <= i < next.stack.len() implies (
                    #[trigger] next.stack[i]) is Operator || next.stack[i] is LeftParen by {
                        if i < yard.stack.len() {
                            assert(next.stack[i] == yard.stack[i]);
                        }
                    }
                },
                Token::Operator(incoming) => {
                    lemma_yield_in_step(yard, incoming);
                    let yielded = yard.yield_to(incoming);
                    let next = yard.accept(last)->Some_0;
                    assert(next.stack.drop_last() =~= yielded.stack);
                    assert forall|i: int| 0 <= i < next.stack.len() implies (
                    #[trigger] next.stack[i]) is Operator || next.stack[i] is LeftParen by {
                        if i < yielded.stack.len() {
                            assert(next.stack[i] == yielded.stack[i]);
                        }
                    }
                },
                Token::RightParen => {
                    lemma_close_in_step(yard);
                },
            }
        }
    }
}

/// An expression in infix notation is valid.
pub proof fn lemma_infix_is_valid(tokens: Seq<Token>)
    requires
        is_infix(tokens),
    ensures
        is_valid(tokens),
{
    assert forall|index: int| 0 <= index < tokens.len() implies violation_at(tokens, index)
        is None by {
        assert(starts_value(tokens[index]) <==> index == 0 || !ends_value(tokens[index - 1]));
        if index + 1 < tokens.len() {
            assert(starts_value(tokens[index + 1]) <==> !ends_value(tokens[index]));
        } else {
            assert(tokens[index] == tokens.last());
        }
    }
}

/// Conversion turns an expression in infix notation into one in postfix
/// notation.
pub proof fn lemma_infix_becomes_postfix(tokens: Seq<Token>)
    requires
        is_infix(tokens),
    ensures
        postfix_of(tokens) matches Some(postfix) && is_postfix(postfix),
{
    lemma_conversion_succeeds_iff_balanced(tokens);
    lemma_shunt_follows_nesting(tokens);
    lemma_shunt_in_step(tokens);
    lemma_drain_in_step(shunt(tokens)->Some_0);
}

} // verus!
