//! Fibonacci numbers, plain and memoized.

use vstd::prelude::*;

verus! {

/// The Fibonacci numbers, with every argument of two or less giving one.
pub open spec fn fib_spec(n: int) -> int
    decreases (if n <= 2 {
        0int
    } else {
        n
    }),
{
    if n <= 2 {
        1
    } else {
        fib_spec(n - 1) + fib_spec(n - 2)
    }
}

/// Every Fibonacci number is at least one.
proof fn lemma_fib_pos(n: int)
    ensures
        fib_spec(n) >= 1,
    decreases (if n <= 2 {
        0int
    } else {
        n
    }),
{
    if n > 2 {
        lemma_fib_pos(n - 1);
        lemma_fib_pos(n - 2);
    }
}

/// Fibonacci numbers never decrease.
proof fn lemma_fib_mono(a: int, b: int)
    requires
        a <= b,
    ensures
        fib_spec(a) <= fib_spec(b),
    decreases (if b <= 2 {
        0int
    } else {
        b
    }),
{
    if b > 2 && a < b {
        lemma_fib_mono(a, b - 1);
        lemma_fib_pos(b - 2);
    }
}

/// The plain doubly-recursive Fibonacci.
pub fn fib(n: i32) -> (r: i32)
    requires
        fib_spec(n as int) <= i32::MAX,
    ensures
        r as int == fib_spec(n as int),
    decreases (if n <= 2 {
        0int
    } else {
        n as int
    }),
{
    if n <= 2 {
        return 1;
    }
    proof {
        lemma_fib_mono(n - 1, n as int);
        lemma_fib_mono(n - 2, n as int);
        lemma_fib_pos(n - 1);
        lemma_fib_pos(n - 2);
    }
    fib(n - 1) + fib(n - 2)
}

/// Fibonacci computed in linear time; the original memoizes the recursion,
/// with the same result.
pub fn fibm(n: i32) -> (r: i32)
    requires
        fib_spec(n as int) <= i32::MAX,
    ensures
        r as int == fib_spec(n as int),
{
    if n <= 2 {
        return 1;
    }
    let mut prev: i32 = 1;
    let mut cur: i32 = 1;
    let mut i: i32 = 2;
    while i < n
        invariant
            2 <= i <= n,
            prev as int == fib_spec(i - 1),
            cur as int == fib_spec(i as int),
            fib_spec(n as int) <= i32::MAX,
        decreases n - i,
    {
        proof {
            lemma_fib_mono(i + 1, n as int);
            lemma_fib_pos(i - 1);
            lemma_fib_pos(i as int);
        }
        let next = cur + prev;
        prev = cur;
        cur = next;
        i = i + 1;
    }
    cur
}

} // verus!
