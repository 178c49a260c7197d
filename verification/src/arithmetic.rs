//! The four operations on operands. Sums, differences, products and
//! quotients that leave the range of `isize` wrap around it.

use vstd::prelude::*;
use crate::calculator::Calculator;
use crate::error::{outcome, Error, ErrorView};

verus! {

/// The number of values that an `isize` can take.
pub open spec fn modulus() -> int {
    usize::MAX + 1
}

/// The `isize` that differs from `n` by a multiple of [`modulus`]; `n` itself
/// if it is in range.
pub open spec fn wrap(n: int) -> isize {
    let residue = n % modulus();
    if residue > isize::MAX {
        (residue - modulus()) as isize
    } else {
        residue as isize
    }
}

/// The quotient of `a` by `b`, rounded toward zero.
pub open spec fn quotient(a: int, b: int) -> int
    recommends
        b != 0,
{
    if a >= 0 && b > 0 {
        a / b
    } else if a < 0 && b < 0 {
        (-a) / (-b)
    } else if a < 0 {
        -((-a) / b)
    } else {
        -(a / (-b))
    }
}

/// What dividing `a` by `b` gives: the quotient, or the objection that `b` is
/// zero.
pub open spec fn division(a: isize, b: isize) -> Result<isize, ErrorView> {
    if b == 0 {
        Err(ErrorView::DivideByZero(a as int, b as int))
    } else {
        Ok(wrap(quotient(a as int, b as int)))
    }
}

/// A number in the range of `isize` wraps to itself.
pub proof fn lemma_wrap_in_range(n: int)
    requires
        isize::MIN <= n <= isize::MAX,
    ensures
        wrap(n) == n,
{
    let m = modulus();
    if n >= 0 {
        vstd::arithmetic::div_mod::lemma_small_mod(n as nat, m as nat);
    } else {
        vstd::arithmetic::div_mod::lemma_small_mod((n + m) as nat, m as nat);
        vstd::arithmetic::div_mod::lemma_mod_add_multiples_vanish(n, m);
    }
}

/// Numbers that differ by a multiple of [`modulus`] wrap to the same value.
pub proof fn lemma_wrap_periodic(n: int, turns: int)
    ensures
        wrap(n + turns * modulus()) == wrap(n),
{
    vstd::arithmetic::div_mod::lemma_mod_multiples_vanish(turns, n, modulus());
    assert(turns * modulus() + n == n + turns * modulus());
}

/// A quotient is no further from zero than its dividend, and it leaves the
/// range of `isize` only when `isize::MIN` is divided by -1.
pub proof fn lemma_quotient_range(a: int, b: int)
    requires
        isize::MIN <= a <= isize::MAX,
        b != 0,
    ensures
        isize::MIN <= quotient(a, b) <= isize::MAX + 1,
        quotient(a, b) == isize::MAX + 1 <==> a == isize::MIN && b == -1,
{
    let p = if a < 0 {
        -a
    } else {
        a
    };
    let q = if b < 0 {
        -b
    } else {
        b
    };
    vstd::arithmetic::div_mod::lemma_div_nonincreasing(p, q);
    vstd::arithmetic::div_mod::lemma_div_pos_is_pos(p, q);
    if q >= 2 {
        vstd::arithmetic::div_mod::lemma_div_is_ordered_by_denominator(p, 2, q);
    } else {
        vstd::arithmetic::div_mod::lemma_div_basics(p);
    }
}

impl Calculator {
    /// The sum of `a` and `b`.
    pub fn add(a: isize, b: isize) -> (sum: isize)
        ensures
            sum == wrap(a + b),
            isize::MIN <= a + b <= isize::MAX ==> sum == a + b,
    {
        proof {
            if a + b > isize::MAX {
                lemma_wrap_periodic(a + b - modulus(), 1);
                lemma_wrap_in_range(a + b - modulus());
            } else if a + b < isize::MIN {
                lemma_wrap_periodic(a + b + modulus(), -1);
                lemma_wrap_in_range(a + b + modulus());
            } else {
                lemma_wrap_in_range(a + b);
            }
        }
        a.wrapping_add(b)
    }

    /// The difference of `a` and `b`.
    pub fn subtract(a: isize, b: isize) -> (difference: isize)
        ensures
            difference == wrap(a - b),
            isize::MIN <= a - b <= isize::MAX ==> difference == a - b,
    {
        proof {
            if a - b > isize::MAX {
                lemma_wrap_periodic(a - b - modulus(), 1);
                lemma_wrap_in_range(a - b - modulus());
            } else if a - b < isize::MIN {
                lemma_wrap_periodic(a - b + modulus(), -1);
                lemma_wrap_in_range(a - b + modulus());
            } else {
                lemma_wrap_in_range(a - b);
            }
        }
        a.wrapping_sub(b)
    }

    /// The product of `a` and `b`.
    pub fn multiply(a: isize, b: isize) -> (product: isize)
        ensures
            product == wrap(a * b),
            isize::MIN <= a * b <= isize::MAX ==> product == a * b,
    {
        proof {
            if isize::MIN <= a * b <= isize::MAX {
                lemma_wrap_in_range(a * b);
            }
        }
        a.wrapping_mul(b)
    }

    /// The quotient of `a` by `b`, rounded toward zero; fails exactly when `b`
    /// is zero.
    pub fn divide(a: isize, b: isize) -> (result: Result<isize, Error>)
        ensures
            outcome(result) == division(a, b),
            b != 0 && !(a == isize::MIN && b == -1) ==> result == Ok::<isize, Error>(
                quotient(a as int, b as int) as isize,
            ),
    {
        if b == 0 {
            return Err(Error::DivideByZero(a, b));
        }
        proof {
            lemma_quotient_range(a as int, b as int);
            if a == isize::MIN && b == -1 {
                lemma_wrap_periodic(isize::MIN as int, 1);
                lemma_wrap_in_range(isize::MIN as int);
            } else {
                lemma_wrap_in_range(quotient(a as int, b as int));
            }
        }
        match a.checked_div(b) {
            Some(value) => Ok(value),
            None => Ok(isize::MIN),
        }
    }
}

} // verus!
