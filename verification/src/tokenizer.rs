//! Tokenization: from the characters of an expression to its tokens.

use vstd::prelude::*;
use crate::calculator::Calculator;
use crate::error::{viewed_outcome, Error, ErrorView};
use crate::text::{
    decimal,
    decimal_value,
    digit_value,
    is_decimal_digit,
    is_digit,
    lemma_decimal_value_prefix,
    lemma_digits_denote,
    value_of_digit,
};
use crate::token::{Operator, Token};

verus! {

/// The token that the character `c` is by itself, if it is an operator or a
/// parenthesis.
pub open spec fn symbol(c: char) -> Option<Token> {
    if c == '+' {
        Some(Token::Operator(Operator::Add))
    } else if c == '-' {
        Some(Token::Operator(Operator::Subtract))
    } else if c == '*' {
        Some(Token::Operator(Operator::Multiply))
    } else if c == '/' {
        Some(Token::Operator(Operator::Divide))
    } else if c == '(' {
        Some(Token::LeftParen)
    } else if c == ')' {
        Some(Token::RightParen)
    } else {
        None
    }
}

/// Whether `c` may occur in an expression: a digit, an operator, a
/// parenthesis or a space.
pub open spec fn is_accepted(c: char) -> bool {
    is_digit(c) || c == ' ' || symbol(c) is Some
}

/// The position of the first character at or after `from` that may not occur
/// in an expression.
pub open spec fn first_rejected(text: Seq<char>, from: int) -> Option<int>
    decreases text.len() - from,
{
    if from < 0 || from >= text.len() {
        None
    } else if !is_accepted(text[from]) {
        Some(from)
    } else {
        first_rejected(text, from + 1)
    }
}

/// How many digits `text` begins with.
pub open spec fn leading_digits(text: Seq<char>) -> nat
    decreases text.len(),
{
    if text.len() > 0 && is_digit(text[0]) {
        1 + leading_digits(text.drop_first())
    } else {
        0
    }
}

/// The digits that `text` begins with are digits, they are followed by none,
/// and there are no more of them than `text` has characters.
pub proof fn lemma_leading_digits(text: Seq<char>)
    ensures
        leading_digits(text) <= text.len(),
        forall|k: int| 0 <= k < leading_digits(text) ==> is_digit(#[trigger] text[k]),
        leading_digits(text) < text.len() ==> !is_digit(text[leading_digits(text) as int]),
    decreases text.len(),
{
    if text.len() > 0 && is_digit(text[0]) {
        let rest = text.drop_first();
        lemma_leading_digits(rest);
        assert forall|k: int| 0 <= k < leading_digits(text) implies is_digit(
            #[trigger] text[k],
        ) by {
            if k > 0 {
                assert(text[k] == rest[k - 1]);
            }
        }
        if leading_digits(text) < text.len() {
            assert(text[leading_digits(text) as int] == rest[leading_digits(rest) as int]);
        }
    }
}

/// The tokens that `text` holds, read from the left: each maximal run of
/// digits is one operand with the number that the run denotes, each operator
/// and parenthesis is a token by itself, and nothing else yields a token.
pub open spec fn tokens_of(text: Seq<char>) -> Seq<Token>
    decreases text.len(),
{
    if text.len() == 0 {
        Seq::empty()
    } else if is_digit(text[0]) {
        let run = leading_digits(text);
        proof {
            lemma_leading_digits(text);
        }
        seq![Token::Operand(decimal_value(text.take(run as int)) as isize)] + tokens_of(
            text.skip(run as int),
        )
    } else {
        match symbol(text[0]) {
            Some(token) => seq![token] + tokens_of(text.skip(1)),
            None => tokens_of(text.skip(1)),
        }
    }
}

/// Whether every number written in `text` before its first rejected
/// character is at most `isize::MAX`.
pub open spec fn literals_fit(text: Seq<char>) -> bool
    decreases text.len(),
{
    if text.len() == 0 {
        true
    } else if is_digit(text[0]) {
        let run = leading_digits(text);
        proof {
            lemma_leading_digits(text);
        }
        decimal_value(text.take(run as int)) <= isize::MAX && literals_fit(text.skip(run as int))
    } else if is_accepted(text[0]) {
        literals_fit(text.skip(1))
    } else {
        true
    }
}

/// What tokenization makes of `text`: its tokens, or its first rejected
/// character with its position.
pub open spec fn tokenization(text: Seq<char>) -> Result<Seq<Token>, ErrorView> {
    match first_rejected(text, 0) {
        Some(position) => Err(ErrorView::InvalidCharacter(text[position], position as nat)),
        None => Ok(tokens_of(text)),
    }
}

/// A stretch of digits that is followed by none is all the digits that
/// `text` begins with.
pub proof fn lemma_leading_digits_unique(text: Seq<char>, run: int)
    requires
        0 <= run <= text.len(),
        forall|k: int| 0 <= k < run ==> is_digit(#[trigger] text[k]),
        run < text.len() ==> !is_digit(text[run]),
    ensures
        leading_digits(text) == run,
{
    lemma_leading_digits(text);
    let found = leading_digits(text) as int;
    if found < run {
        assert(is_digit(text[found]));
    } else if run < found {
        assert(is_digit(text[run]));
    }
}

/// Where the first rejected character stands: it is rejected, and every
/// character between `from` and it is accepted. There is none exactly when
/// every character from `from` on is accepted.
pub proof fn lemma_first_rejected(text: Seq<char>, from: int)
    requires
        0 <= from,
    ensures
        match first_rejected(text, from) {
            Some(position) => {
                &&& from <= position < text.len()
                &&& !is_accepted(text[position])
                &&& forall|k: int| from <= k < position ==> is_accepted(#[trigger] text[k])
            },
            None => forall|k: int| from <= k < text.len() ==> is_accepted(#[trigger] text[k]),
        },
    decreases text.len() - from,
{
    if from < text.len() && is_accepted(text[from]) {
        lemma_first_rejected(text, from + 1);
    }
}

/// Text may be cut in two anywhere but inside a number: the tokens of the
/// whole are the tokens of the first part followed by those of the second.
pub proof fn lemma_tokens_of_concat(left: Seq<char>, right: Seq<char>)
    requires
        !(left.len() > 0 && is_digit(left.last()) && right.len() > 0 && is_digit(right[0])),
    ensures
        tokens_of(left + right) == tokens_of(left) + tokens_of(right),
    decreases left.len(),
{
    let whole = left + right;
    if left.len() == 0 {
        assert(whole =~= right);
        assert(tokens_of(left) + tokens_of(right) =~= tokens_of(right));
    } else if is_digit(left[0]) {
        let run = leading_digits(left) as int;
        lemma_leading_digits(left);
        assert forall|k: int| 0 <= k < run implies is_digit(#[trigger] whole[k]) by {
            assert(whole[k] == left[k]);
        }
        if run < left.len() {
            assert(whole[run] == left[run]);
        } else if right.len() > 0 {
            assert(whole[run] == right[0]);
        }
        lemma_leading_digits_unique(whole, run);
        assert(whole.take(run) =~= left.take(run));
        assert(whole.skip(run) =~= left.skip(run) + right);
        if run < left.len() {
            assert(left.skip(run).last() == left.last());
        }
        lemma_tokens_of_concat(left.skip(run), right);
        assert(tokens_of(whole) =~= tokens_of(left) + tokens_of(right));
    } else {
        assert(whole[0] == left[0]);
        assert(whole.skip(1) =~= left.skip(1) + right);
        if left.len() > 1 {
            assert(left.skip(1).last() == left.last());
        }
        lemma_tokens_of_concat(left.skip(1), right);
        assert(tokens_of(whole) =~= tokens_of(left) + tokens_of(right));
    }
}

/// Where text is cut in two outside a number and the first part holds only
/// accepted characters, the numbers of the whole fit exactly when those of
/// both parts do.
pub proof fn lemma_literals_fit_concat(left: Seq<char>, right: Seq<char>)
    requires
        !(left.len() > 0 && is_digit(left.last()) && right.len() > 0 && is_digit(right[0])),
        forall|k: int| 0 <= k < left.len() ==> is_accepted(#[trigger] left[k]),
    ensures
        literals_fit(left + right) <==> literals_fit(left) && literals_fit(right),
    decreases left.len(),
{
    let whole = left + right;
    if left.len() == 0 {
        assert(whole =~= right);
    } else if is_digit(left[0]) {
        let run = leading_digits(left) as int;
        lemma_leading_digits(left);
        assert forall|k: int| 0 <= k < run implies is_digit(#[trigger] whole[k]) by {
            assert(whole[k] == left[k]);
        }
        if run < left.len() {
            assert(whole[run] == left[run]);
        } else if right.len() > 0 {
            assert(whole[run] == right[0]);
        }
        lemma_leading_digits_unique(whole, run);
        assert(whole.take(run) =~= left.take(run));
        assert(whole.skip(run) =~= left.skip(run) + right);
        if run < left.len() {
            assert(left.skip(run).last() == left.last());
        }
        assert forall|k: int| 0 <= k < left.skip(run).len() implies is_accepted(
            #[trigger] left.skip(run)[k],
        ) by {
            assert(left.skip(run)[k] == left[k + run]);
        }
        lemma_literals_fit_concat(left.skip(run), right);
    } else {
        assert(whole[0] == left[0]);
        assert(is_accepted(left[0]));
        assert(whole.skip(1) =~= left.skip(1) + right);
        if left.len() > 1 {
            assert(left.skip(1).last() == left.last());
        }
        assert forall|k: int| 0 <= k < left.skip(1).len() implies is_accepted(
            #[trigger] left.skip(1)[k],
        ) by {
            assert(left.skip(1)[k] == left[k + 1]);
        }
        lemma_literals_fit_concat(left.skip(1), right);
    }
}

/// Spaces hold no token, and no number that could fail to fit.
pub proof fn lemma_spaces_fit(spaces: Seq<char>)
    requires
        forall|k: int| 0 <= k < spaces.len() ==> spaces[k] == ' ',
    ensures
        literals_fit(spaces),
    decreases spaces.len(),
{
    if spaces.len() > 0 {
        assert(spaces[0] == ' ');
        lemma_spaces_fit(spaces.skip(1));
    }
}

/// Spaces hold no token.
pub proof fn lemma_spaces_hold_no_token(spaces: Seq<char>)
    requires
        forall|k: int| 0 <= k < spaces.len() ==> spaces[k] == ' ',
    ensures
        tokens_of(spaces) == Seq::<Token>::empty(),
    decreases spaces.len(),
{
    if spaces.len() > 0 {
        assert(spaces[0] == ' ');
        lemma_spaces_hold_no_token(spaces.skip(1));
    }
}

/// A run of digits is one operand: the number that the digits denote.
pub proof fn lemma_digits_are_one_operand(digits: Seq<char>)
    requires
        digits.len() > 0,
        forall|k: int| 0 <= k < digits.len() ==> is_digit(#[trigger] digits[k]),
    ensures
        tokens_of(digits) == seq![Token::Operand(decimal_value(digits) as isize)],
        literals_fit(digits) <==> decimal_value(digits) <= isize::MAX,
{
    assert(is_digit(digits[0]));
    lemma_leading_digits_unique(digits, digits.len() as int);
    let run = leading_digits(digits) as int;
    let rest = digits.skip(run);
    assert(digits.take(run) =~= digits);
    assert(rest.len() == 0);
    assert(tokens_of(rest) =~= Seq::<Token>::empty());
    assert(literals_fit(rest));
    assert(tokens_of(digits) =~= seq![Token::Operand(decimal_value(digits) as isize)]);
}

/// A space between two stretches of text separates them and adds nothing:
/// the tokens are those of the first stretch followed by those of the second.
pub proof fn lemma_space_separates(left: Seq<char>, right: Seq<char>)
    ensures
        tokens_of(left + seq![' '] + right) == tokens_of(left) + tokens_of(right),
{
    let space = seq![' '];
    assert(space[0] == ' ');
    lemma_tokens_of_concat(left, space + right);
    assert(left + space + right =~= left + (space + right));
    lemma_tokens_of_concat(space, right);
    lemma_spaces_hold_no_token(space);
    assert(tokens_of(space) + tokens_of(right) =~= tokens_of(right));
}

/// A number written in digits is tokenized to one operand with the number's
/// value, however many spaces stand before and after it.
pub proof fn lemma_padded_number_is_one_operand(
    before: Seq<char>,
    digits: Seq<char>,
    after: Seq<char>,
)
    requires
        forall|k: int| 0 <= k < before.len() ==> before[k] == ' ',
        forall|k: int| 0 <= k < after.len() ==> after[k] == ' ',
        digits.len() > 0,
        forall|k: int| 0 <= k < digits.len() ==> is_digit(#[trigger] digits[k]),
        decimal_value(digits) <= isize::MAX,
    ensures
        literals_fit(before + digits + after),
        tokenization(before + digits + after) == Ok::<Seq<Token>, ErrorView>(
            seq![Token::Operand(decimal_value(digits) as isize)],
        ),
{
    let text = before + digits + after;
    assert forall|k: int| 0 <= k < text.len() implies is_accepted(#[trigger] text[k]) by {
        if k < before.len() {
            assert(text[k] == before[k]);
        } else if k < before.len() + digits.len() {
            assert(text[k] == digits[k - before.len()]);
        } else {
            assert(text[k] == after[k - before.len() - digits.len()]);
        }
    }
    lemma_first_rejected(text, 0);
    if before.len() > 0 {
        assert(before.last() == ' ');
    }
    if after.len() > 0 {
        assert(after[0] == ' ');
    }
    assert(text =~= before + (digits + after));
    lemma_tokens_of_concat(before, digits + after);
    lemma_tokens_of_concat(digits, after);
    lemma_spaces_hold_no_token(before);
    lemma_spaces_hold_no_token(after);
    lemma_digits_are_one_operand(digits);
    assert(tokens_of(text) =~= seq![Token::Operand(decimal_value(digits) as isize)]);
    assert forall|k: int| 0 <= k < before.len() implies is_accepted(#[trigger] before[k]) by {
        assert(before[k] == ' ');
    }
    lemma_literals_fit_concat(before, digits + after);
    lemma_literals_fit_concat(digits, after);
    lemma_spaces_fit(before);
    lemma_spaces_fit(after);
}

/// An operand that is not negative is read back from its decimal notation.
pub proof fn lemma_notation_is_read_back(value: isize)
    requires
        value >= 0,
    ensures
        literals_fit(decimal(value as int)),
        tokenization(decimal(value as int)) == Ok::<Seq<Token>, ErrorView>(
            seq![Token::Operand(value)],
        ),
{
    let digits = decimal(value as int);
    lemma_digits_denote(value as nat);
    lemma_padded_number_is_one_operand(Seq::empty(), digits, Seq::empty());
    assert(Seq::<char>::empty() + digits + Seq::<char>::empty() =~= digits);
}

impl Calculator {
    /// The characters of `input`, in order.
    fn characters(input: &str) -> (chars: Vec<char>)
        ensures
            chars@ == input@,
    {
        let mut chars: Vec<char> = Vec::new();
        for c in walk: input.chars()
            invariant
                walk.seq() == input@,
                chars@ == walk.seq().take(walk.index()),
        {
            chars.push(c);
        }
        chars
    }

    /// The token that `c` is by itself, if it is an operator or a parenthesis.
    fn symbol_token(c: char) -> (token: Option<Token>)
        ensures
            token == symbol(c),
    {
        match c {
            '+' => Some(Token::Operator(Operator::Add)),
            '-' => Some(Token::Operator(Operator::Subtract)),
            '*' => Some(Token::Operator(Operator::Multiply)),
            '/' => Some(Token::Operator(Operator::Divide)),
            '(' => Some(Token::LeftParen),
            ')' => Some(Token::RightParen),
            _ => None,
        }
    }

    /// Tokenizes `input` with a watch on the size of its numbers: `None` if
    /// one of them does not fit an operand, else what tokenization gives.
    fn scan(input: &str) -> (outcome: Option<Result<Vec<Token>, Error>>)
        ensures
            outcome is Some <==> literals_fit(input@),
            outcome matches Some(result) ==> viewed_outcome(result) == tokenization(input@),
    {
        let chars = Self::characters(input);
        let n = chars.len();
        let mut output: Vec<Token> = Vec::new();
        let mut i: usize = 0;
        assert(chars@.skip(0) =~= chars@);
        while i < n
            invariant
                chars@ == input@,
                0 <= i <= n == chars@.len(),
                first_rejected(chars@, 0) == first_rejected(chars@, i as int),
                tokens_of(chars@) == output@ + tokens_of(chars@.skip(i as int)),
                literals_fit(chars@) == literals_fit(chars@.skip(i as int)),
            decreases n - i,
        {
            let c = chars[i];
            let ghost rest = chars@.skip(i as int);
            assert(rest.len() > 0 && rest[0] == c);
            if is_decimal_digit(c) {
                let ghost run = leading_digits(rest) as int;
                proof {
                    lemma_leading_digits(rest);
                    assert(chars@.subrange(i as int, i + 1).drop_last() =~= Seq::<char>::empty());
                    assert(decimal_value(chars@.subrange(i as int, i + 1)) == digit_value(c)) by {
                        reveal_with_fuel(decimal_value, 2);
                    }
                }
                let mut value: isize = value_of_digit(c) as isize;
                let mut j: usize = i + 1;
                while j < n && is_decimal_digit(chars[j])
                    invariant
                        0 <= i < j <= n == chars@.len(),
                        chars@ == input@,
                        rest == chars@.skip(i as int),
                        rest.len() > 0 && is_digit(rest[0]),
                        literals_fit(chars@) == literals_fit(rest),
                        run == leading_digits(rest),
                        j - i <= run <= rest.len(),
                        run < rest.len() ==> !is_digit(rest[run]),
                        forall|k: int| i <= k < j ==> is_digit(#[trigger] chars@[k]),
                        value == decimal_value(chars@.subrange(i as int, j as int)),
                        first_rejected(chars@, i as int) == first_rejected(chars@, j as int),
                    decreases n - j,
                {
                    let digit = value_of_digit(chars[j]);
                    proof {
                        let longer = chars@.subrange(i as int, j + 1);
                        assert(longer.drop_last() =~= chars@.subrange(i as int, j as int));
                        assert(longer.last() == chars@[j as int]);
                        if run == j - i {
                            assert(rest[run] == chars@[j as int]);
                        }
                        assert(rest.take(run).take(j + 1 - i) =~= longer);
                        lemma_decimal_value_prefix(rest.take(run), j + 1 - i);
                    }
                    let extended = match value.checked_mul(10) {
                        Some(shifted) => shifted.checked_add(digit as isize),
                        None => None,
                    };
                    match extended {
                        Some(longer_value) => {
                            value = longer_value;
                        },
                        None => {
                            return None;
                        },
                    }
                    j += 1;
                }
                proof {
                    assert forall|k: int| 0 <= k < j - i implies is_digit(#[trigger] rest[k]) by {
                        assert(rest[k] == chars@[i + k]);
                    }
                    if j - i < rest.len() {
                        assert(rest[j - i] == chars@[j as int]);
                    }
                    lemma_leading_digits_unique(rest, j - i);
                    assert(rest.take(run) =~= chars@.subrange(i as int, j as int));
                    assert(rest.skip(run) =~= chars@.skip(j as int));
                }
                output.push(Token::Operand(value));
                i = j;
            } else {
                proof {
                    assert(rest.skip(1) =~= chars@.skip(i + 1));
                }
                match Self::symbol_token(c) {
                    Some(token) => {
                        output.push(token);
                    },
                    None => {
                        if c != ' ' {
                            return Some(Err(Error::InvalidCharacter(c, i)));
                        }
                    },
                }
                i += 1;
            }
        }
        Some(Ok(output))
    }

    /// Whether every number written in `input` before its first rejected
    /// character fits an operand: the condition under which the text can be
    /// tokenized.
    pub fn has_fitting_literals(input: &str) -> (fits: bool)
        ensures
            fits == literals_fit(input@),
    {
        Self::scan(input).is_some()
    }

    /// Splits the text of an expression into tokens.
    ///
    /// Every maximal run of digits becomes one operand, every operator and
    /// parenthesis a token of its own; spaces separate and yield nothing. The
    /// first character that is none of these is reported with its position,
    /// counted in characters from zero. The numbers written in the text must
    /// fit the operand type.
    pub fn tokenize_expression(input: &str) -> (result: Result<Vec<Token>, Error>)
        requires
            literals_fit(input@),
        ensures
            viewed_outcome(result) == tokenization(input@),
    {
        Self::scan(input).unwrap()
    }
}

} // verus!
