//! Conversion from infix to postfix notation by the shunting-yard algorithm.

use vstd::multiset::Multiset;
use vstd::prelude::*;
use crate::calculator::Calculator;
use crate::error::{viewed_outcome, Error, ErrorView};
use crate::token::{Operator, Token};

verus! {

/// The state of the shunting yard: what has been emitted so far, and the
/// operators and opening parentheses that still wait, the most recent last.
pub struct Yard {
    pub output: Seq<Token>,
    pub stack: Seq<Token>,
}

impl Yard {
    /// The yard before any token has arrived.
    pub open spec fn start() -> Yard {
        Yard { output: Seq::empty(), stack: Seq::empty() }
    }

    /// The yard with the given output and waiting tokens.
    pub open spec fn holding(output: Seq<Token>, stack: Seq<Token>) -> Yard {
        Yard { output, stack }
    }

    /// Moves the most recent waiting token to the output.
    pub open spec fn release(self) -> Yard {
        Yard { output: self.output.push(self.stack.last()), stack: self.stack.drop_last() }
    }

    /// Whether the most recent waiting token is an operator that binds
    /// strictly tighter than `incoming`.
    pub open spec fn outranks(self, incoming: Operator) -> bool {
        &&& self.stack.len() > 0
        &&& self.stack.last() matches Token::Operator(top)
        &&& top.rank() > incoming.rank()
    }

    /// Releases waiting operators for as long as the most recent one binds
    /// strictly tighter than `incoming`.
    pub open spec fn yield_to(self, incoming: Operator) -> Yard
        decreases self.stack.len(),
    {
        if self.outranks(incoming) {
            self.release().yield_to(incoming)
        } else {
            self
        }
    }

    /// Releases what waits above the most recent opening parenthesis and
    /// discards that parenthesis; `None` if no opening parenthesis waits.
    pub open spec fn close_group(self) -> Option<Yard>
        decreases self.stack.len(),
    {
        if self.stack.len() == 0 {
            None
        } else if self.stack.last() is LeftParen {
            Some(Yard { output: self.output, stack: self.stack.drop_last() })
        } else {
            self.release().close_group()
        }
    }

    /// The yard after one more token has arrived; `None` if the token is a
    /// closing parenthesis without a partner.
    pub open spec fn accept(self, token: Token) -> Option<Yard> {
        match token {
            Token::Operand(_) => Some(Yard { output: self.output.push(token), stack: self.stack }),
            Token::LeftParen => Some(Yard { output: self.output, stack: self.stack.push(token) }),
            Token::Operator(incoming) => {
                let yielded = self.yield_to(incoming);
                Some(Yard { output: yielded.output, stack: yielded.stack.push(token) })
            },
            Token::RightParen => self.close_group(),
        }
    }

    /// Releases everything that still waits; `None` if an opening parenthesis
    /// is among it.
    pub open spec fn drain(self) -> Option<Seq<Token>>
        decreases self.stack.len(),
    {
        if self.stack.len() == 0 {
            Some(self.output)
        } else if self.stack.last() is LeftParen {
            None
        } else {
            self.release().drain()
        }
    }
}

/// The yard after all of `tokens` have arrived in order; `None` once a
/// closing parenthesis came without a partner.
pub open spec fn shunt(tokens: Seq<Token>) -> Option<Yard>
    decreases tokens.len(),
{
    if tokens.len() == 0 {
        Some(Yard::start())
    } else {
        match shunt(tokens.drop_last()) {
            Some(yard) => yard.accept(tokens.last()),
            None => None,
        }
    }
}

/// The postfix form of the infix expression `tokens`; `None` if its
/// parentheses do not match.
pub open spec fn postfix_of(tokens: Seq<Token>) -> Option<Seq<Token>> {
    match shunt(tokens) {
        Some(yard) => yard.drain(),
        None => None,
    }
}

/// What conversion makes of `tokens`: their postfix form, or the objection
/// that parentheses do not match.
pub open spec fn conversion(tokens: Seq<Token>) -> Result<Seq<Token>, ErrorView> {
    match postfix_of(tokens) {
        Some(postfix) => Ok(postfix),
        None => Err(ErrorView::MismatchedParentheses),
    }
}

/// Once a closing parenthesis has come without a partner, no further token
/// mends the expression.
proof fn lemma_shunt_failure_persists(tokens: Seq<Token>, k: int)
    requires
        0 <= k <= tokens.len(),
        shunt(tokens.take(k)) is None,
    ensures
        shunt(tokens) is None,
    decreases tokens.len() - k,
{
    if k < tokens.len() {
        assert(tokens.take(k + 1).drop_last() =~= tokens.take(k));
        lemma_shunt_failure_persists(tokens, k + 1);
    } else {
        assert(tokens.take(k) =~= tokens);
    }
}

/// The opening parentheses among `tokens` less the closing ones.
pub open spec fn nesting(tokens: Seq<Token>) -> int
    decreases tokens.len(),
{
    if tokens.len() == 0 {
        0
    } else {
        nesting(tokens.drop_last()) + match tokens.last() {
            Token::LeftParen => 1int,
            Token::RightParen => -1int,
            _ => 0int,
        }
    }
}

/// Whether no closing parenthesis in `tokens` comes before its partner.
pub open spec fn closes_in_order(tokens: Seq<Token>) -> bool {
    forall|k: int| 0 <= k <= tokens.len() ==> nesting(#[trigger] tokens.take(k)) >= 0
}

/// Whether the parentheses in `tokens` match: none closes before its
/// partner has opened, and none stays open.
pub open spec fn is_balanced(tokens: Seq<Token>) -> bool {
    closes_in_order(tokens) && nesting(tokens) == 0
}

impl Yard {
    /// Whether the yard holds what the algorithm puts there: operators and
    /// opening parentheses wait, operands and operators have been emitted.
    pub open spec fn is_orderly(self) -> bool {
        &&& forall|i: int|
            0 <= i < self.stack.len() ==> (#[trigger] self.stack[i]) is Operator
                || self.stack[i] is LeftParen
        &&& forall|i: int|
            0 <= i < self.output.len() ==> (#[trigger] self.output[i]) is Operand
                || self.output[i] is Operator
    }
}

/// Among waiting tokens, which are operators and opening parentheses, the
/// nesting counts the opening parentheses.
proof fn lemma_waiting_nesting(stack: Seq<Token>)
    requires
        forall|i: int|
            0 <= i < stack.len() ==> (#[trigger] stack[i]) is Operator || stack[i] is LeftParen,
    ensures
        nesting(stack) >= 0,
        nesting(stack) == 0 <==> forall|i: int|
            0 <= i < stack.len() ==> (#[trigger] stack[i]) is Operator,
    decreases stack.len(),
{
    if stack.len() > 0 {
        let rest = stack.drop_last();
        assert forall|i: int| 0 <= i < rest.len() implies (#[trigger] rest[i]) is Operator
            || rest[i] is LeftParen by {
            assert(rest[i] == stack[i]);
        }
        lemma_waiting_nesting(rest);
        if nesting(stack) == 0 {
            assert(stack.last() == stack[stack.len() - 1]);
            assert forall|i: int| 0 <= i < stack.len() implies (#[trigger] stack[i])
                is Operator by {
                if i < rest.len() {
                    assert(rest[i] == stack[i]);
                }
            }
        } else {
            if forall|i: int| 0 <= i < stack.len() ==> (#[trigger] stack[i]) is Operator {
                assert(stack[stack.len() - 1] is Operator);
                assert forall|i: int| 0 <= i < rest.len() implies (#[trigger] rest[i])
                    is Operator by {
                    assert(rest[i] == stack[i]);
                }
            }
        }
    }
}

/// Releasing the most recent waiting token, an operator, keeps the yard
/// orderly and the waiting parentheses as they are.
proof fn lemma_release_keeps_order(yard: Yard)
    requires
        yard.is_orderly(),
        yard.stack.len() > 0,
        yard.stack.last() is Operator,
    ensures
        yard.release().is_orderly(),
        nesting(yard.release().stack) == nesting(yard.stack),
{
    let after = yard.release();
    assert forall|i: int| 0 <= i < after.stack.len() implies (#[trigger] after.stack[i])
        is Operator || after.stack[i] is LeftParen by {
        assert(after.stack[i] == yard.stack[i]);
    }
    assert forall|i: int| 0 <= i < after.output.len() implies (#[trigger] after.output[i])
        is Operand || after.output[i] is Operator by {
        if i < yard.output.len() {
            assert(after.output[i] == yard.output[i]);
        }
    }
}

/// Yielding to an operator keeps the yard orderly and the waiting
/// parentheses as they are.
proof fn lemma_yield_keeps_order(yard: Yard, incoming: Operator)
    requires
        yard.is_orderly(),
    ensures
        yard.yield_to(incoming).is_orderly(),
        nesting(yard.yield_to(incoming).stack) == nesting(yard.stack),
    decreases yard.stack.len(),
{
    if yard.outranks(incoming) {
        lemma_release_keeps_order(yard);
        lemma_yield_keeps_order(yard.release(), incoming);
    }
}

/// A group can be closed exactly when an opening parenthesis waits; closing
/// it keeps the yard orderly and takes one opening parenthesis away.
proof fn lemma_close_keeps_order(yard: Yard)
    requires
        yard.is_orderly(),
    ensures
        yard.close_group() is Some <==> nesting(yard.stack) > 0,
        yard.close_group() matches Some(closed) ==> closed.is_orderly() && nesting(closed.stack)
            == nesting(yard.stack) - 1,
    decreases yard.stack.len(),
{
    if yard.stack.len() > 0 {
        assert(yard.stack.last() == yard.stack[yard.stack.len() - 1]);
        if yard.stack.last() is LeftParen {
            let closed = yard.close_group()->Some_0;
            assert forall|i: int| 0 <= i < closed.stack.len() implies (
            #[trigger] closed.stack[i]) is Operator || closed.stack[i] is LeftParen by {
                assert(closed.stack[i] == yard.stack[i]);
            }
            lemma_waiting_nesting(closed.stack);
        } else {
            lemma_release_keeps_order(yard);
            lemma_close_keeps_order(yard.release());
        }
    }
}

/// The yard can be drained exactly when no opening parenthesis waits; what
/// comes out holds operands and operators only.
proof fn lemma_drain_keeps_order(yard: Yard)
    requires
        yard.is_orderly(),
    ensures
        yard.drain() is Some <==> nesting(yard.stack) == 0,
        yard.drain() matches Some(output) ==> forall|i: int|
            0 <= i < output.len() ==> (#[trigger] output[i]) is Operand || output[i] is Operator,
    decreases yard.stack.len(),
{
    if yard.stack.len() > 0 {
        assert(yard.stack.last() == yard.stack[yard.stack.len() - 1]);
        if yard.stack.last() is LeftParen {
            let rest = yard.stack.drop_last();
            assert forall|i: int| 0 <= i < rest.len() implies (#[trigger] rest[i]) is Operator
                || rest[i] is LeftParen by {
                assert(rest[i] == yard.stack[i]);
            }
            lemma_waiting_nesting(rest);
        } else {
            lemma_release_keeps_order(yard);
            lemma_drain_keeps_order(yard.release());
        }
    }
}

/// Closing parentheses come in order in `tokens` exactly when they do in all
/// but the last token and the nesting of the whole is not negative.
proof fn lemma_closes_in_order_step(tokens: Seq<Token>)
    requires
        tokens.len() > 0,
    ensures
        closes_in_order(tokens) <==> closes_in_order(tokens.drop_last()) && nesting(tokens) >= 0,
{
    let init = tokens.drop_last();
    if closes_in_order(tokens) {
        assert forall|k: int| 0 <= k <= init.len() implies nesting(#[trigger] init.take(k))
            >= 0 by {
            assert(init.take(k) =~= tokens.take(k));
        }
        assert(tokens.take(tokens.len() as int) =~= tokens);
    }
    if closes_in_order(init) && nesting(tokens) >= 0 {
        assert forall|k: int| 0 <= k <= tokens.len() implies nesting(#[trigger] tokens.take(k))
            >= 0 by {
            if k < tokens.len() {
                assert(init.take(k) =~= tokens.take(k));
            } else {
                assert(tokens.take(k) =~= tokens);
            }
        }
    }
}

/// The yard takes `tokens` without objection exactly when no closing
/// parenthesis among them comes before its partner. It is then orderly, and
/// as many opening parentheses wait as are still open.
pub proof fn lemma_shunt_follows_nesting(tokens: Seq<Token>)
    ensures
        shunt(tokens) is Some <==> closes_in_order(tokens),
        shunt(tokens) matches Some(yard) ==> yard.is_orderly() && nesting(yard.stack) == nesting(
            tokens,
        ),
    decreases tokens.len(),
{
    if tokens.len() == 0 {
        assert forall|k: int| 0 <= k <= tokens.len() implies nesting(#[trigger] tokens.take(k))
            >= 0 by {
            assert(tokens.take(k) =~= tokens);
        }
    } else {
        let init = tokens.drop_last();
        lemma_shunt_follows_nesting(init);
        lemma_closes_in_order_step(tokens);
        if let Some(yard) = shunt(init) {
            assert(nesting(init) >= 0) by {
                assert(init.take(init.len() as int) =~= init);
            }
            match tokens.last() {
                Token::Operand(_) => {
                    let next = yard.accept(tokens.last())->Some_0;
                    assert forall|i: int| 0 <= i < next.output.len() implies (
                    #[trigger] next.output[i]) is Operand || next.output[i] is Operator by {
                        if i < yard.output.len() {
                            assert(next.output[i] == yard.output[i]);
                        }
                    }
                },
                Token::LeftParen => {
                    let next = yard.accept(tokens.last())->Some_0;
                    assert(next.stack.drop_last() =~= yard.stack);
                    assert forall|i: int| 0 <= i < next.stack.len() implies (
                    #[trigger] next.stack[i]) is Operator || next.stack[i] is LeftParen by {
                        if i < yard.stack.len() {
                            assert(next.stack[i] == yard.stack[i]);
                        }
                    }
                },
                Token::Operator(incoming) => {
                    lemma_yield_keeps_order(yard, incoming);
                    let yielded = yard.yield_to(incoming);
                    let next = yard.accept(tokens.last())->Some_0;
                    assert(next.stack.drop_last() =~= yielded.stack);
                    assert forall|i: int| 0 <= i < next.stack.len() implies (
                    #[trigger] next.stack[i]) is Operator || next.stack[i] is LeftParen by {
                        if i < yielded.stack.len() {
                            assert(next.stack[i] == yielded.stack[i]);
                        }
                    }
                },
                Token::RightParen => {
                    lemma_close_keeps_order(yard);
                },
            }
        }
    }
}

/// Conversion succeeds exactly on the expressions whose parentheses match,
/// and what it gives holds operands and operators only.
pub proof fn lemma_conversion_succeeds_iff_balanced(tokens: Seq<Token>)
    ensures
        postfix_of(tokens) is Some <==> is_balanced(tokens),
        postfix_of(tokens) matches Some(postfix) ==> forall|i: int|
            0 <= i < postfix.len() ==> (#[trigger] postfix[i]) is Operand || postfix[i]
                is Operator,
{
    lemma_shunt_follows_nesting(tokens);
    if let Some(yard) = shunt(tokens) {
        lemma_drain_keeps_order(yard);
    }
}

/// The operands among `tokens`, in their order.
pub open spec fn operands_of(tokens: Seq<Token>) -> Seq<isize>
    decreases tokens.len(),
{
    if tokens.len() == 0 {
        Seq::empty()
    } else {
        match tokens.last() {
            Token::Operand(value) => operands_of(tokens.drop_last()).push(value),
            _ => operands_of(tokens.drop_last()),
        }
    }
}

/// The operators among `tokens`, in their order.
pub open spec fn operators_of(tokens: Seq<Token>) -> Seq<Operator>
    decreases tokens.len(),
{
    if tokens.len() == 0 {
        Seq::empty()
    } else {
        match tokens.last() {
            Token::Operator(operator) => operators_of(tokens.drop_last()).push(operator),
            _ => operators_of(tokens.drop_last()),
        }
    }
}

impl Yard {
    /// The operators in the yard, emitted or waiting, each as often as it
    /// occurs.
    pub open spec fn operators(self) -> Multiset<Operator> {
        operators_of(self.output).to_multiset().add(operators_of(self.stack).to_multiset())
    }
}

/// What one more token adds to the operands and operators of a sequence.
proof fn lemma_push_adds(tokens: Seq<Token>, token: Token)
    ensures
        operands_of(tokens.push(token)) == match token {
            Token::Operand(value) => operands_of(tokens).push(value),
            _ => operands_of(tokens),
        },
        operators_of(tokens.push(token)) == match token {
            Token::Operator(operator) => operators_of(tokens).push(operator),
            _ => operators_of(tokens),
        },
{
    assert(tokens.push(token).drop_last() =~= tokens);
}

/// Releasing a waiting operator moves it and changes nothing else.
proof fn lemma_release_keeps_tokens(yard: Yard)
    requires
        yard.stack.len() > 0,
        yard.stack.last() is Operator,
    ensures
        operands_of(yard.release().output) == operands_of(yard.output),
        yard.release().operators() == yard.operators(),
{
    let top = yard.stack.last();
    let operator = top->Operator_0;
    lemma_push_adds(yard.output, top);
    vstd::seq_lib::to_multiset_build(operators_of(yard.output), operator);
    vstd::seq_lib::to_multiset_build(operators_of(yard.stack.drop_last()), operator);
    assert(yard.release().operators() =~= yard.operators());
}

/// Yielding to an operator moves operators and changes nothing else.
proof fn lemma_yield_keeps_tokens(yard: Yard, incoming: Operator)
    ensures
        operands_of(yard.yield_to(incoming).output) == operands_of(yard.output),
        yard.yield_to(incoming).operators() == yard.operators(),
    decreases yard.stack.len(),
{
    if yard.outranks(incoming) {
        lemma_release_keeps_tokens(yard);
        lemma_yield_keeps_tokens(yard.release(), incoming);
    }
}

/// Closing a group moves operators, drops a parenthesis and changes nothing
/// else.
proof fn lemma_close_keeps_tokens(yard: Yard)
    requires
        yard.is_orderly(),
    ensures
        yard.close_group() matches Some(closed) ==> operands_of(closed.output) == operands_of(
            yard.output,
        ) && closed.operators() == yard.operators(),
    decreases yard.stack.len(),
{
    if yard.stack.len() > 0 {
        assert(yard.stack.last() == yard.stack[yard.stack.len() - 1]);
        if !(yard.stack.last() is LeftParen) {
            lemma_release_keeps_tokens(yard);
            lemma_release_keeps_order(yard);
            lemma_close_keeps_tokens(yard.release());
        }
    }
}

/// Draining the yard emits the waiting operators and changes nothing else.
proof fn lemma_drain_keeps_tokens(yard: Yard)
    requires
        yard.is_orderly(),
    ensures
        yard.drain() matches Some(output) ==> operands_of(output) == operands_of(yard.output)
            && operators_of(output).to_multiset() == yard.operators(),
    decreases yard.stack.len(),
{
    if yard.stack.len() == 0 {
        assert(operators_of(yard.stack).to_multiset() =~= Multiset::<Operator>::empty()) by {
            operators_of(yard.stack).to_multiset_ensures();
        }
        assert(yard.operators() =~= operators_of(yard.output).to_multiset());
    } else {
        assert(yard.stack.last() == yard.stack[yard.stack.len() - 1]);
        if !(yard.stack.last() is LeftParen) {
            lemma_release_keeps_tokens(yard);
            lemma_release_keeps_order(yard);
            lemma_drain_keeps_tokens(yard.release());
        }
    }
}

/// The yard holds the operands read so far, in their order, all of them
/// emitted, and the operators read so far, emitted or waiting.
proof fn lemma_shunt_keeps_tokens(tokens: Seq<Token>)
    ensures
        shunt(tokens) matches Some(yard) ==> operands_of(yard.output) == operands_of(tokens)
            && yard.operators() == operators_of(tokens).to_multiset(),
    decreases tokens.len(),
{
    if tokens.len() == 0 {
        let yard = Yard::start();
        assert(operators_of(tokens).to_multiset() =~= Multiset::<Operator>::empty()) by {
            operators_of(tokens).to_multiset_ensures();
        }
        assert(yard.operators() =~= operators_of(tokens).to_multiset());
    } else {
        let init = tokens.drop_last();
        let last = tokens.last();
        lemma_shunt_keeps_tokens(init);
        lemma_shunt_follows_nesting(init);
        if let Some(yard) = shunt(init) {
            match last {
                Token::Operand(_) => {
                    lemma_push_adds(yard.output, last);
                },
                Token::LeftParen => {
                    lemma_push_adds(yard.stack, last);
                },
                Token::Operator(incoming) => {
                    lemma_yield_keeps_tokens(yard, incoming);
                    let yielded = yard.yield_to(incoming);
                    lemma_push_adds(yielded.stack, last);
                    vstd::seq_lib::to_multiset_build(operators_of(yielded.stack), incoming);
                    vstd::seq_lib::to_multiset_build(operators_of(init), incoming);
                    let next = yard.accept(last)->Some_0;
                    assert(next.operators() =~= operators_of(tokens).to_multiset());
                },
                Token::RightParen => {
                    lemma_close_keeps_tokens(yard);
                },
            }
        }
    }
}

/// Conversion loses and invents nothing but parentheses: the postfix form
/// holds the operands of the expression in their order, and its operators,
/// each as often as the expression does.
pub proof fn lemma_conversion_keeps_tokens(tokens: Seq<Token>)
    ensures
        postfix_of(tokens) matches Some(postfix) ==> operands_of(postfix) == operands_of(tokens)
            && operators_of(postfix).to_multiset() == operators_of(tokens).to_multiset(),
{
    lemma_shunt_keeps_tokens(tokens);
    lemma_shunt_follows_nesting(tokens);
    if let Some(yard) = shunt(tokens) {
        lemma_drain_keeps_tokens(yard);
    }
}

/// How two operators in a row are grouped. Where the first binds strictly
/// tighter than the second, it is emitted before the third operand, so that
/// it is applied first. Otherwise, also where both bind equally, both wait
/// until the end and the second is applied first.
pub proof fn lemma_tie_break(a: isize, first: Operator, b: isize, second: Operator, c: isize)
    ensures
        postfix_of(
            seq![
                Token::Operand(a),
                Token::Operator(first),
                Token::Operand(b),
                Token::Operator(second),
                Token::Operand(c),
            ],
        ) == Some(
            if first.rank() > second.rank() {
                seq![
                    Token::Operand(a),
                    Token::Operand(b),
                    Token::Operator(first),
                    Token::Operand(c),
                    Token::Operator(second),
                ]
            } else {
                seq![
                    Token::Operand(a),
                    Token::Operand(b),
                    Token::Operand(c),
                    Token::Operator(second),
                    Token::Operator(first),
                ]
            },
        ),
{
    let tokens = seq![
        Token::Operand(a),
        Token::Operator(first),
        Token::Operand(b),
        Token::Operator(second),
        Token::Operand(c),
    ];
    let empty = Seq::<Token>::empty();
    assert(tokens.take(0) =~= empty);
    assert(tokens.take(1).drop_last() =~= tokens.take(0));
    assert(tokens.take(2).drop_last() =~= tokens.take(1));
    assert(tokens.take(3).drop_last() =~= tokens.take(2));
    assert(tokens.take(4).drop_last() =~= tokens.take(3));
    assert(tokens.drop_last() =~= tokens.take(4));
    let one = Yard::holding(seq![Token::Operand(a)], empty);
    assert(shunt(tokens.take(0)) == Some(Yard::start()));
    assert(shunt(tokens.take(1)) == Some(one)) by {
        assert(tokens.take(1).last() == Token::Operand(a));
        assert(empty.push(Token::Operand(a)) =~= seq![Token::Operand(a)]);
    }
    let two = Yard::holding(seq![Token::Operand(a)], seq![Token::Operator(first)]);
    assert(shunt(tokens.take(2)) == Some(two)) by {
        assert(tokens.take(2).last() == Token::Operator(first));
        assert(one.yield_to(first) == one);
        assert(empty.push(Token::Operator(first)) =~= seq![Token::Operator(first)]);
    }
    let three = Yard::holding(
        seq![Token::Operand(a), Token::Operand(b)],
        seq![Token::Operator(first)],
    );
    assert(shunt(tokens.take(3)) == Some(three)) by {
        assert(tokens.take(3).last() == Token::Operand(b));
        assert(two.output.push(Token::Operand(b)) =~= three.output);
    }
    assert(tokens.take(4).last() == Token::Operator(second));
    assert(tokens.last() == Token::Operand(c));
    if first.rank() > second.rank() {
        let released = Yard::holding(
            seq![Token::Operand(a), Token::Operand(b), Token::Operator(first)],
            empty,
        );
        assert(three.release() == released) by {
            assert(three.release().output =~= released.output);
            assert(three.release().stack =~= released.stack);
        }
        assert(three.yield_to(second) == released) by {
            reveal_with_fuel(Yard::yield_to, 2);
        }
        let four = Yard::holding(released.output, seq![Token::Operator(second)]);
        assert(shunt(tokens.take(4)) == Some(four)) by {
            assert(empty.push(Token::Operator(second)) =~= four.stack);
        }
        let five = Yard::holding(
            seq![
                Token::Operand(a),
                Token::Operand(b),
                Token::Operator(first),
                Token::Operand(c),
            ],
            four.stack,
        );
        assert(shunt(tokens) == Some(five)) by {
            assert(four.output.push(Token::Operand(c)) =~= five.output);
        }
        let drained = Yard::holding(five.output.push(Token::Operator(second)), empty);
        assert(five.release() == drained) by {
            assert(five.release().stack =~= empty);
        }
        assert(five.drain() == Some(drained.output)) by {
            reveal_with_fuel(Yard::drain, 2);
        }
        assert(drained.output =~= seq![
            Token::Operand(a),
            Token::Operand(b),
            Token::Operator(first),
            Token::Operand(c),
            Token::Operator(second),
        ]);
    } else {
        assert(three.yield_to(second) == three);
        let four = Yard::holding(
            three.output,
            seq![Token::Operator(first), Token::Operator(second)],
        );
        assert(shunt(tokens.take(4)) == Some(four)) by {
            assert(three.stack.push(Token::Operator(second)) =~= four.stack);
        }
        let five = Yard::holding(
            seq![Token::Operand(a), Token::Operand(b), Token::Operand(c)],
            four.stack,
        );
        assert(shunt(tokens) == Some(five)) by {
            assert(four.output.push(Token::Operand(c)) =~= five.output);
        }
        let once = Yard::holding(
            five.output.push(Token::Operator(second)),
            seq![Token::Operator(first)],
        );
        assert(five.release() == once) by {
            assert(five.release().stack =~= once.stack);
        }
        let twice = Yard::holding(once.output.push(Token::Operator(first)), empty);
        assert(once.release() == twice) by {
            assert(once.release().stack =~= empty);
        }
        assert(five.drain() == Some(twice.output)) by {
            reveal_with_fuel(Yard::drain, 3);
        }
        assert(twice.output =~= seq![
            Token::Operand(a),
            Token::Operand(b),
            Token::Operand(c),
            Token::Operator(second),
            Token::Operator(first),
        ]);
    }
}

impl Calculator {
    /// Reorders an infix expression into postfix notation.
    ///
    /// Operands go straight to the output. An operator first sends to the
    /// output every waiting operator that binds strictly tighter than it, and
    /// then waits itself. A closing parenthesis sends out what waits above its
    /// partner. Fails exactly when a parenthesis has no partner.
    pub fn marshal_infix_expression_to_postfix(expression: Vec<Token>) -> (result: Result<
        Vec<Token>,
        Error,
    >)
        ensures
            viewed_outcome(result) == conversion(expression@),
    {
        let mut output: Vec<Token> = Vec::new();
        let mut stack: Vec<Token> = Vec::new();
        let n = expression.len();
        let mut i: usize = 0;
        while i < n
            invariant
                n == expression@.len(),
                0 <= i <= n,
                shunt(expression@.take(i as int)) == Some(Yard::holding(output@, stack@)),
            decreases n - i,
        {
            let token = expression[i];
            let ghost before = Yard::holding(output@, stack@);
            proof {
                assert(expression@.take(i + 1).drop_last() =~= expression@.take(i as int));
                assert(expression@.take(i + 1).last() == token);
                assert(shunt(expression@.take(i + 1)) == before.accept(token));
            }
            match token {
                Token::Operand(_) => {
                    output.push(token);
                },
                Token::LeftParen => {
                    stack.push(token);
                },
                Token::Operator(incoming) => {
                    loop
                        invariant
                            Yard::holding(output@, stack@).yield_to(incoming) == before.yield_to(
                                incoming,
                            ),
                        ensures
                            Yard::holding(output@, stack@) == before.yield_to(incoming),
                        decreases stack@.len(),
                    {
                        let outranked = match stack.last() {
                            Some(Token::Operator(top)) => top.precedence() > incoming.precedence(),
                            _ => false,
                        };
                        if !outranked {
                            break ;
                        }
                        let top = stack.pop().unwrap();
                        output.push(top);
                    }
                    stack.push(token);
                },
                Token::RightParen => {
                    let mut found = false;
                    while !found
                        invariant
                            0 <= i < n == expression@.len(),
                            shunt(expression@.take(i + 1)) == before.close_group(),
                            !found ==> Yard::holding(output@, stack@).close_group()
                                == before.close_group(),
                            found ==> before.close_group() == Some(Yard::holding(output@, stack@)),
                        decreases stack@.len() + if found { 0int } else { 1int },
                    {
                        match stack.pop() {
                            None => {
                                proof {
                                    lemma_shunt_failure_persists(expression@, i + 1);
                                }
                                return Err(Error::MismatchedParentheses);
                            },
                            Some(Token::LeftParen) => {
                                found = true;
                            },
                            Some(top) => {
                                output.push(top);
                            },
                        }
                    }
                },
            }
            i += 1;
        }
        proof {
            assert(expression@.take(n as int) =~= expression@);
        }
        let ghost loaded = Yard::holding(output@, stack@);
        loop
            invariant
                Yard::holding(output@, stack@).drain() == loaded.drain(),
                postfix_of(expression@) == loaded.drain(),
            decreases stack@.len(),
        {
            match stack.pop() {
                None => {
                    return Ok(output);
                },
                Some(Token::LeftParen) => {
                    return Err(Error::MismatchedParentheses);
                },
                Some(top) => {
                    output.push(top);
                },
            }
        }
    }
}

} // verus!
