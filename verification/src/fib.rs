//! Sum of the odd Fibonacci numbers below a threshold.

use vstd::prelude::*;

verus! {

/// Sum of the odd members below `threshold` of the Fibonacci chain that
/// continues from the consecutive pair `(a, b)`.
pub open spec fn odd_fib_sum_from(a: nat, b: nat, threshold: nat) -> nat
    decreases
            (if a <= threshold { threshold - a } else { 0 }),
            (if b <= threshold { threshold - b } else { 0 }),
        when a <= b && 0 < b
{
    if a >= threshold {
        0
    } else {
        (if a % 2 == 1 {
            a
        } else {
            0
        }) + odd_fib_sum_from(b, (a + b) as nat, threshold)
    }
}

/// Sum of all odd Fibonacci numbers strictly below `threshold`, for the
/// Fibonacci sequence 0, 1, 1, 2, 3, 5, ... (both 1s contribute).
pub open spec fn odd_fib_sum_below(threshold: nat) -> nat {
    odd_fib_sum_from(0, 1, threshold)
}

/// Sum of the odd Fibonacci numbers strictly below `threshold`.
pub fn odd_fibnacci_sum(threshold: u32) -> (sum: u32)
    requires
        odd_fib_sum_below(threshold as nat) <= u32::MAX,
    ensures
        sum == odd_fib_sum_below(threshold as nat),
{
    let mut a: u64 = 0;
    let mut b: u64 = 1;
    let mut sum: u64 = 0;

    while a < threshold as u64
        invariant
            1 <= b,
            a <= b <= a + threshold + 1,
            sum + odd_fib_sum_from(a as nat, b as nat, threshold as nat)
                == odd_fib_sum_below(threshold as nat),
            odd_fib_sum_below(threshold as nat) <= u32::MAX,
        decreases
                (if a <= threshold as u64 { threshold as int - a } else { 0int }),
                (if b <= threshold as u64 { threshold as int - b } else { 0int }),
    {
        if a % 2 == 1 {
            sum = sum + a;
        }
        let next = a + b;
        a = b;
        b = next;
    }
    sum as u32
}

} // verus!
