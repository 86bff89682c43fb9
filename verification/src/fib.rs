//! The rule of the `fib!` macro, which unfolds a literal `n` into the sum that
//! computes the `n`-th Fibonacci number (counting `fib!(0) = fib!(1) = 1`).

use vstd::prelude::*;

verus! {

/// What a literal `n` in `fib!(n)` becomes.
pub enum FibExpansion {
    /// The literal 1 (for `n` of 0 or 1).
    One,
    /// `(fib!(a) + fib!(b))`.
    Sum(u16, u16),
}

/// The rule: 0 and 1 become 1, any other `n` becomes `fib!(n - 1) + fib!(n - 2)`.
pub open spec fn fib_rule(n: u16) -> FibExpansion {
    if n <= 1 {
        FibExpansion::One
    } else {
        FibExpansion::Sum((n - 1) as u16, (n - 2) as u16)
    }
}

/// The Fibonacci numbers with both first terms 1.
pub open spec fn fib_number(n: nat) -> nat
    decreases n,
{
    if n <= 1 {
        1
    } else {
        fib_number((n - 1) as nat) + fib_number((n - 2) as nat)
    }
}

/// The value of the expression that `fib!(n)` unfolds to, rule by rule.
pub open spec fn unfolded_value(n: u16) -> nat
    decreases n,
{
    match fib_rule(n) {
        FibExpansion::One => 1,
        FibExpansion::Sum(a, b) => if a < n && b < n {
            unfolded_value(a) + unfolded_value(b)
        } else {
            0
        },
    }
}

/// What `fib!` replaces the literal `n` with.
pub fn fib(n: u16) -> (e: FibExpansion)
    ensures
        e == fib_rule(n),
{
    if n <= 1 {
        FibExpansion::One
    } else {
        FibExpansion::Sum(n - 1, n - 2)
    }
}

/// Unfolding `fib!(n)` completely yields an expression worth the `n`-th
/// Fibonacci number.
pub proof fn lemma_unfolding_computes_fib(n: u16)
    ensures
        unfolded_value(n) == fib_number(n as nat),
    decreases n,
{
    if n > 1 {
        lemma_unfolding_computes_fib((n - 1) as u16);
        lemma_unfolding_computes_fib((n - 2) as u16);
    }
}

} // verus!
