use vstd::prelude::*;

verus! {

/// The Fibonacci numbers: fib(0) = 0, fib(1) = 1, fib(n + 2) = fib(n) + fib(n + 1).
pub open spec fn fib(n: nat) -> nat
    decreases n,
{
    if n == 0 {
        0
    } else if n == 1 {
        1
    } else {
        fib((n - 2) as nat) + fib((n - 1) as nat)
    }
}

/// The `n`-th Fibonacci number where it fits in a `u8`, `None` beyond.
pub open spec fn fib_u8(n: nat) -> Option<u8> {
    if fib(n) <= u8::MAX {
        Some(fib(n) as u8)
    } else {
        None
    }
}

proof fn lemma_fib_monotone(n: nat)
    ensures
        fib(n) <= fib(n + 1),
    decreases n,
{
    if n >= 1 {
        lemma_fib_monotone((n - 1) as nat);
    }
}

/// A generator of the Fibonacci numbers that fit in a `u8`: each call of `next`
/// hands out the following one, and `None` from the first that would overflow on.
pub struct FibonacciHof {
    a: Option<u8>,
    b: Option<u8>,
    position: Ghost<nat>,
}

impl FibonacciHof {
    /// How many numbers have been handed out so far.
    pub closed spec fn position(&self) -> nat {
        self.position@
    }

    pub closed spec fn wf(&self) -> bool {
        &&& self.a == fib_u8(self.position@)
        &&& self.b == fib_u8(self.position@ + 1)
    }

    /// Hands out the next Fibonacci number, or `None` once they no longer fit in a `u8`.
    pub fn next(&mut self) -> (r: Option<u8>)
        requires
            old(self).wf(),
        ensures
            final(self).wf(),
            final(self).position() == old(self).position() + 1,
            r == fib_u8(old(self).position()),
    {
        let ghost k = self.position@;
        proof {
            lemma_fib_monotone(k);
            lemma_fib_monotone(k + 1);
            assert(fib(k + 2) == fib(k) + fib(k + 1));
        }
        let result = self.a;
        self.a = self.b;
        self.b = match (result, self.b) {
            (Some(x), Some(y)) => x.checked_add(y),
            _ => None,
        };
        self.position = Ghost(k + 1);
        result
    }
}

/// A fresh generator, positioned at fib(0).
pub fn fibonacci_hof() -> (r: FibonacciHof)
    ensures
        r.wf(),
        r.position() == 0,
{
    proof {
        reveal_with_fuel(fib, 2);
    }
    FibonacciHof { a: Some(0), b: Some(1), position: Ghost(0) }
}

} // verus!
