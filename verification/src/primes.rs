//! Primality by odd trial division up to the square root.

use vstd::prelude::*;

verus! {

/// `n` is a prime number: at least 2 and divisible by no `d` with `2 <= d < n`.
pub open spec fn is_prime_number(n: int) -> bool {
    &&& n >= 2
    &&& forall|d: int| 2 <= d < n ==> #[trigger] (n % d) != 0
}

/// The smallest `n` for which the trial divisor can step past `2^32 - 1`:
/// `(2^32 - 1)^2`.
pub open spec fn trial_square_limit() -> int {
    0xFFFF_FFFE_0000_0001
}

/// Trial division on `n` runs its divisor up to `2^32 + 1`, whose square does not
/// fit in a `u64`: this happens exactly for the primes from `(2^32 - 1)^2` on.
pub open spec fn trial_overflows(n: int) -> bool {
    n >= trial_square_limit() && is_prime_number(n)
}

/// A divisor of an odd number is odd.
proof fn lemma_divisor_of_odd_is_odd(n: int, m: int)
    requires
        n % 2 == 1,
        m >= 1,
        n % m == 0,
    ensures
        m % 2 == 1,
{
    let k = n / m;
    assert(n == m * k) by {
        vstd::arithmetic::div_mod::lemma_fundamental_div_mod(n, m);
    }
    if m % 2 == 0 {
        let h = m / 2;
        assert(m == 2 * h);
        assert(n == 2 * (h * k)) by (nonlinear_arith)
            requires
                n == m * k,
                m == 2 * h,
        ;
        assert(n % 2 == 0);
    }
}

/// An odd composite number has an odd divisor of at least 3 whose square is
/// at most the number.
proof fn lemma_small_odd_divisor(n: int, d: int) -> (m: int)
    requires
        n % 2 == 1,
        2 <= d < n,
        n % d == 0,
    ensures
        3 <= m,
        m % 2 == 1,
        m * m <= n,
        n % m == 0,
{
    let e = n / d;
    assert(n == d * e) by {
        vstd::arithmetic::div_mod::lemma_fundamental_div_mod(n, d);
    }
    assert(e >= 2) by (nonlinear_arith)
        requires
            n == d * e,
            2 <= d < n,
    ;
    let m = if d <= e { d } else { e };
    assert(m * m <= n) by (nonlinear_arith)
        requires
            n == d * e,
            m == d || m == e,
            m <= d,
            m <= e,
            m >= 2,
    ;
    if m == e {
        assert(n % e == 0) by {
            vstd::arithmetic::div_mod::lemma_mod_multiples_basic(d, e);
            assert(d * e == e * d) by (nonlinear_arith);
        }
    }
    lemma_divisor_of_odd_is_odd(n, m);
    m
}

/// An odd number of at least 3 with no odd divisor `3 <= d < i`, where `i * i > n`,
/// is prime.
proof fn lemma_no_small_divisor_prime(n: int, i: int)
    requires
        n >= 3,
        n % 2 == 1,
        i >= 3,
        i * i > n,
        forall|d: int| 3 <= d < i && d % 2 == 1 ==> #[trigger] (n % d) != 0,
    ensures
        is_prime_number(n),
{
    assert forall|d: int| 2 <= d < n implies #[trigger] (n % d) != 0 by {
        if n % d == 0 {
            let m = lemma_small_odd_divisor(n, d);
            if m >= i {
                assert(m * m >= i * i) by (nonlinear_arith)
                    requires
                        m >= i,
                        i >= 0,
                ;
            }
            assert(n % m != 0);
        }
    }
}

/// Odd trial division up to the square root, reporting `None` exactly
/// where the squared divisor no longer fits in a `u64`.
pub fn try_is_prime(n: u64) -> (r: Option<bool>)
    ensures
        r is None <==> trial_overflows(n as int),
        r matches Some(b) ==> b == is_prime_number(n as int),
{
    if n < 2 {
        return Some(false);
    }
    if n == 2 {
        return Some(true);
    }
    if n % 2 == 0 {
        assert(!is_prime_number(n as int)) by {
            if n >= 4 {
                assert((n as int) % 2 == 0);
            }
        }
        return Some(false);
    }
    let mut i: u64 = 3;
    while i <= 0xFFFF_FFFF
        invariant
            n % 2 == 1,
            n >= 3,
            3 <= i <= 0x1_0000_0001,
            i % 2 == 1,
            i > 3 ==> (i - 2) * (i - 2) <= n,
            forall|d: int| 3 <= d < i && d % 2 == 1 ==> #[trigger] ((n as int) % d) != 0,
        decreases 0x1_0000_0001 - i,
    {
        assert(i * i <= 0xFFFF_FFFE_0000_0001) by (nonlinear_arith)
            requires
                i <= 0xFFFF_FFFF,
        ;
        if i * i > n {
            proof {
                lemma_no_small_divisor_prime(n as int, i as int);
            }
            assert(n < trial_square_limit()) by (nonlinear_arith)
                requires
                    i * i > n,
                    i <= 0xFFFF_FFFF,
            ;
            return Some(true);
        }
        if n % i == 0 {
            assert(i < n && n >= 9) by (nonlinear_arith)
                requires
                    i * i <= n,
                    i >= 3,
            ;
            assert((n as int) % (i as int) == 0);
            assert(!is_prime_number(n as int));
            return Some(false);
        }
        i = i + 2;
    }
    assert(i == 0x1_0000_0001);
    assert(0xFFFF_FFFFint * 0xFFFF_FFFFint == 0xFFFF_FFFE_0000_0001int);
    assert((i - 2) * (i - 2) <= n);
    assert(i * i > n) by (nonlinear_arith)
        requires
            i == 0x1_0000_0001,
            n <= 0xFFFF_FFFF_FFFF_FFFF,
    ;
    proof {
        lemma_no_small_divisor_prime(n as int, i as int);
    }
    None
}

/// Whether `n` is prime, by odd trial division up to its square root;
/// defined for every `n` but the primes from `(2^32 - 1)^2` on, on which the
/// squared divisor overflows.
pub fn is_prime(n: u64) -> (r: bool)
    requires
        !trial_overflows(n as int),
    ensures
        r == is_prime_number(n as int),
{
    match try_is_prime(n) {
        Some(b) => b,
        None => false,
    }
}

} // verus!
