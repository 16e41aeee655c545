//! Trial division, as the prime-counting example uses it.
use vstd::prelude::*;

verus! {

/// `n` has a divisor `d` with `2 <= d` and `d * d <= n`.
pub open spec fn has_small_divisor(n: int) -> bool {
    exists|d: int| 2 <= d && d * d <= n && #[trigger] (n % d) == 0
}

/// `n` has a divisor `d` with `2 <= d < n`.
pub open spec fn has_proper_divisor(n: int) -> bool {
    exists|d: int| 2 <= d < n && #[trigger] (n % d) == 0
}

/// The inputs on which the trial division runs without overflowing `i32`:
/// from 46340 * 46340 on, the divisor reaches 46341 unless a divisor of `n`
/// stops it first.
pub open spec fn prime_test_fits(n: i32) -> bool {
    n >= 2147395600 ==> exists|d: int| 2 <= d <= 46340 && #[trigger] ((n as int) % d) == 0
}

/// Whether `is_prime` can run on `n` without overflowing `i32`.
pub fn fits_trial_division(n: i32) -> (r: bool)
    ensures
        r == prime_test_fits(n),
{
    if n < 2147395600 {
        return true;
    }
    let mut d: i32 = 2;
    while d <= 46340
        invariant
            2 <= d <= 46341,
            n >= 2147395600,
            forall|e: int| 2 <= e < d ==> #[trigger] ((n as int) % e) != 0,
        decreases 46341 - d,
    {
        if n % d == 0 {
            assert((n as int) % (d as int) == 0);
            return true;
        }
        d = d + 1;
    }
    false
}

/// Trial division up to the square root: true for 1 and for every `n` with no
/// divisor `d`, `2 <= d`, `d * d <= n` (so also for 0 and the negative numbers).
pub fn is_prime(n: i32) -> (r: bool)
    requires
        prime_test_fits(n),
    ensures
        r == (n == 1 || !has_small_divisor(n as int)),
{
    if n == 1 {
        return true;
    }
    let mut i: i32 = 2;
    while i * i <= n
        invariant
            2 <= i <= 46340,
            i * i <= 2147395600,
            n != 1,
            prime_test_fits(n),
            forall|d: int| 2 <= d < i ==> #[trigger] ((n as int) % d) != 0,
            (i - 1) * (i - 1) <= n || i == 2,
        decreases 46341 - i,
    {
        if n % i == 0 {
            assert(2 <= i && i * i <= n && (n as int) % (i as int) == 0);
            return false;
        }
        if i == 46340 {
            assert(n >= 2147395600) by (nonlinear_arith)
                requires
                    i == 46340,
                    i * i <= n,
            ;
            let ghost d = choose|d: int| 2 <= d <= 46340 && #[trigger] ((n as int) % d) == 0;
            assert((n as int) % d != 0);
            assert(false);
        }
        i = i + 1;
        assert(i * i <= 2147395600) by (nonlinear_arith)
            requires
                2 <= i <= 46340,
        ;
    }
    assert forall|d: int| 2 <= d && d * d <= n implies #[trigger] ((n as int) % d) != 0 by {
        if d >= i {
            assert(d * d >= i * i) by (nonlinear_arith)
                requires
                    d >= i,
                    i >= 2,
            ;
        }
    }
    true
}

/// For `n >= 2`, a divisor no larger than the square root exists exactly when a
/// proper divisor exists: trial division up to the square root decides
/// primality.
pub proof fn law_square_root_bound(n: int)
    requires
        n >= 2,
    ensures
        has_small_divisor(n) <==> has_proper_divisor(n),
{
    if has_small_divisor(n) {
        let d = choose|d: int| 2 <= d && d * d <= n && #[trigger] (n % d) == 0;
        assert(d < n) by (nonlinear_arith)
            requires
                2 <= d,
                d * d <= n,
        ;
        assert(2 <= d < n && n % d == 0);
    }
    if has_proper_divisor(n) {
        let d = choose|d: int| 2 <= d < n && #[trigger] (n % d) == 0;
        let e = n / d;
        vstd::arithmetic::div_mod::lemma_fundamental_div_mod(n, d);
        assert(n == d * e);
        assert(e >= 2) by (nonlinear_arith)
            requires
                n == d * e,
                2 <= d < n,
        ;
        if d * d <= n {
            assert(2 <= d && d * d <= n && n % d == 0);
        } else {
            assert(e * e <= n) by (nonlinear_arith)
                requires
                    n == d * e,
                    d * d > n,
                    e >= 2,
                    d >= 2,
            ;
            vstd::arithmetic::div_mod::lemma_mod_multiples_basic(d, e);
            assert(n % e == 0) by {
                assert(n == d * e);
                vstd::arithmetic::mul::lemma_mul_is_commutative(d, e);
            }
            assert(2 <= e && e * e <= n && n % e == 0);
        }
    }
}

} // verus!
