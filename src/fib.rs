//! Fibonacci numbers, counted from `fib(0) == fib(1) == 1`.
use vstd::prelude::*;

verus! {

pub open spec fn fib_spec(n: nat) -> nat
    decreases n,
{
    if n <= 1 {
        1
    } else {
        fib_spec((n - 1) as nat) + fib_spec((n - 2) as nat)
    }
}

/// The largest argument whose result fits in a `u32`.
pub const FIB_MAX_ARG: u32 = 46;

proof fn lemma_fib_monotone(i: nat, j: nat)
    requires
        i <= j,
    ensures
        fib_spec(i) <= fib_spec(j),
    decreases j,
{
    if i < j {
        lemma_fib_monotone(i, (j - 1) as nat);
    }
}

proof fn lemma_fib_limit()
    ensures
        fib_spec(46) == 2971215073,
{
    assert(fib_spec(0) == 1);
    assert(fib_spec(1) == 1);
    assert(fib_spec(2) == 2);
    assert(fib_spec(3) == 3);
    assert(fib_spec(4) == 5);
    assert(fib_spec(5) == 8);
    assert(fib_spec(6) == 13);
    assert(fib_spec(7) == 21);
    assert(fib_spec(8) == 34);
    assert(fib_spec(9) == 55);
    assert(fib_spec(10) == 89);
    assert(fib_spec(11) == 144);
    assert(fib_spec(12) == 233);
    assert(fib_spec(13) == 377);
    assert(fib_spec(14) == 610);
    assert(fib_spec(15) == 987);
    assert(fib_spec(16) == 1597);
    assert(fib_spec(17) == 2584);
    assert(fib_spec(18) == 4181);
    assert(fib_spec(19) == 6765);
    assert(fib_spec(20) == 10946);
    assert(fib_spec(21) == 17711);
    assert(fib_spec(22) == 28657);
    assert(fib_spec(23) == 46368);
    assert(fib_spec(24) == 75025);
    assert(fib_spec(25) == 121393);
    assert(fib_spec(26) == 196418);
    assert(fib_spec(27) == 317811);
    assert(fib_spec(28) == 514229);
    assert(fib_spec(29) == 832040);
    assert(fib_spec(30) == 1346269);
    assert(fib_spec(31) == 2178309);
    assert(fib_spec(32) == 3524578);
    assert(fib_spec(33) == 5702887);
    assert(fib_spec(34) == 9227465);
    assert(fib_spec(35) == 14930352);
    assert(fib_spec(36) == 24157817);
    assert(fib_spec(37) == 39088169);
    assert(fib_spec(38) == 63245986);
    assert(fib_spec(39) == 102334155);
    assert(fib_spec(40) == 165580141);
    assert(fib_spec(41) == 267914296);
    assert(fib_spec(42) == 433494437);
    assert(fib_spec(43) == 701408733);
    assert(fib_spec(44) == 1134903170);
    assert(fib_spec(45) == 1836311903);
    assert(fib_spec(46) == 2971215073);
}

pub fn fib(n: u32) -> (r: u32)
    requires
        n <= FIB_MAX_ARG,
    ensures
        r == fib_spec(n as nat),
{
    if n == 0 || n == 1 {
        1
    } else {
        let mut prev: u32 = 1;
        let mut result: u32 = 1;
        let mut k: u32 = n;
        while k != 1
            invariant
                1 <= k <= n <= FIB_MAX_ARG,
                result == fib_spec((n - k + 1) as nat),
                prev == fib_spec((n - k) as nat),
            decreases k,
        {
            proof {
                let i = (n - k + 2) as nat;
                assert(fib_spec(i) == result + prev);
                lemma_fib_monotone(i, 46);
                lemma_fib_limit();
            }
            result += prev;
            prev = result - prev;
            k -= 1;
        }
        result
    }
}

} // verus!
