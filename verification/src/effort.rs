//! How much work the exact searches take.
//!
//! Both exact searches take time that grows with the factorial of the size of
//! the instance, and neither gives up on its own. The counts here let a caller
//! refuse an instance before a search starts.

use vstd::prelude::*;

verus! {

/// The product of the whole numbers from 1 to `n`.
pub open spec fn factorial_of(n: nat) -> nat
    decreases n,
{
    if n <= 1 {
        1
    } else {
        n * factorial_of((n - 1) as nat)
    }
}

/// The number of candidates that the exhaustive search costs for an instance
/// of `n` points: none up to three points, and beyond that one for each pair
/// of neighbours of index 0 and each order of the other points.
pub open spec fn brute_force_operations_of(n: nat) -> nat {
    if n <= 3 {
        0
    } else {
        ((n - 1) * (n - 2) / 2 * factorial_of((n - 3) as nat)) as nat
    }
}

/// The factorial is at least 1 and grows with its argument.
pub proof fn lemma_factorial_monotone(a: nat, b: nat)
    requires
        a <= b,
    ensures
        1 <= factorial_of(a) <= factorial_of(b),
    decreases b,
{
    if b > 1 {
        if a < b {
            lemma_factorial_monotone(a, (b - 1) as nat);
            let f = factorial_of((b - 1) as nat);
            assert(b * f >= f) by (nonlinear_arith)
                requires
                    b >= 1,
                    f >= 0,
            ;
        } else {
            lemma_factorial_monotone((a - 1) as nat, (b - 1) as nat);
            let f = factorial_of((b - 1) as nat);
            assert(b * f >= 1) by (nonlinear_arith)
                requires
                    b >= 1,
                    f >= 1,
            ;
        }
    }
}

/// Computes `n!`, or nothing if it does not fit in 64 bits.
pub fn factorial(n: usize) -> (f: Option<u64>)
    ensures
        f matches Some(v) ==> v == factorial_of(n as nat),
        f is None <==> factorial_of(n as nat) > u64::MAX,
{
    let mut acc: u64 = 1;
    let mut i: usize = 1;
    while i < n
        invariant
            1 <= i,
            i <= n || i == 1,
            acc == factorial_of(i as nat),
        decreases n - i,
    {
        i = i + 1;
        match acc.checked_mul(i as u64) {
            Some(v) => {
                assert(i * acc == acc * i) by (nonlinear_arith);
                acc = v;
            },
            None => {
                proof {
                    assert(i * acc == acc * i) by (nonlinear_arith);
                    lemma_factorial_monotone(i as nat, n as nat);
                }
                return None;
            },
        }
    }
    proof {
        lemma_factorial_monotone(0, 1);
    }
    Some(acc)
}

/// Computes how many candidates the exhaustive search costs for an instance
/// of `n` points, or nothing if the count does not fit in 64 bits. A caller
/// decides by this count whether the search is worth starting.
pub fn brute_force_operations(n: usize) -> (count: Option<u64>)
    ensures
        count matches Some(c) ==> c == brute_force_operations_of(n as nat),
        count is None <==> brute_force_operations_of(n as nat) > u64::MAX,
{
    if n <= 3 {
        return Some(0);
    }
    let wide: u128 = n as u128;
    assert((wide - 1) * (wide - 2) <= 0xffff_ffff_ffff_ffff * 0xffff_ffff_ffff_ffff)
        by (nonlinear_arith)
        requires
            4 <= wide <= 0xffff_ffff_ffff_ffff,
    ;
    let pairs: u128 = (wide - 1) * (wide - 2) / 2;
    assert(pairs >= 3) by (nonlinear_arith)
        requires
            pairs == (wide - 1) * (wide - 2) / 2,
            wide >= 4,
    ;
    proof {
        lemma_factorial_monotone(0, (n - 3) as nat);
    }
    let ghost f_of = factorial_of((n - 3) as nat);
    match factorial(n - 3) {
        None => {
            assert(pairs * f_of >= f_of) by (nonlinear_arith)
                requires
                    pairs >= 1,
                    f_of >= 0,
            ;
            None
        },
        Some(f) => {
            if pairs > u64::MAX as u128 {
                assert(pairs * f_of >= pairs) by (nonlinear_arith)
                    requires
                        pairs >= 0,
                        f_of >= 1,
                ;
                None
            } else {
                assert(pairs * (f as u128) <= 0xffff_ffff_ffff_ffff * 0xffff_ffff_ffff_ffff)
                    by (nonlinear_arith)
                    requires
                        0 <= pairs <= 0xffff_ffff_ffff_ffff,
                        0 <= f <= 0xffff_ffff_ffff_ffff,
                ;
                let total: u128 = pairs * (f as u128);
                if total > u64::MAX as u128 {
                    None
                } else {
                    Some(total as u64)
                }
            }
        },
    }
}

/// The number of complete tours that branch and bound costs at most for an
/// instance of `n` points: every order of the points other than index 0.
pub open spec fn branch_and_bound_operations_of(n: nat) -> nat {
    if n == 0 {
        0
    } else {
        factorial_of((n - 1) as nat)
    }
}

/// Computes how many complete tours branch and bound costs at most for an
/// instance of `n` points, or nothing if the count does not fit in 64 bits.
pub fn branch_and_bound_operations(n: usize) -> (count: Option<u64>)
    ensures
        count matches Some(c) ==> c == branch_and_bound_operations_of(n as nat),
        count is None <==> branch_and_bound_operations_of(n as nat) > u64::MAX,
{
    if n == 0 {
        Some(0)
    } else {
        factorial(n - 1)
    }
}

} // verus!
