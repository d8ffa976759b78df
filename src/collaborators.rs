use vstd::prelude::*;
use crate::js::{Js, ThreadPoolTaskKind};
use crate::runtime::{Dispatch, Runtime, RuntimeError, threadpool_registered};

verus! {

/// The Fibonacci numbers.
pub open spec fn fib(n: nat) -> nat
    decreases n,
{
    if n == 0 {
        0
    } else if n == 1 {
        1
    } else {
        fib((n - 1) as nat) + fib((n - 2) as nat)
    }
}

/// The Fibonacci numbers never decrease.
pub proof fn lemma_fib_monotonic(i: nat, j: nat)
    requires
        i <= j,
    ensures
        fib(i) <= fib(j),
    decreases j,
{
    if i < j {
        lemma_fib_monotonic(i, (j - 1) as nat);
        if j >= 2 {
            assert(fib(j) == fib((j - 1) as nat) + fib((j - 2) as nat));
        }
    }
}

/// A CPU-bound collaborator: its work yields a number derived from its input.
pub struct Crypto;

impl Crypto {
    /// The work of an encrypt task: the `n`-th Fibonacci number.
    pub fn work(n: usize) -> (r: Js)
        requires
            fib(n as nat) <= usize::MAX,
        ensures
            r == Js::Int(fib(n as nat) as usize),
    {
        if n == 0 {
            return Js::Int(0);
        }
        let mut a: usize = 0;
        let mut b: usize = 1;
        let mut i: usize = 1;
        while i < n
            invariant
                1 <= i <= n,
                fib(n as nat) <= usize::MAX,
                a == fib((i - 1) as nat),
                b == fib(i as nat),
            decreases n - i,
        {
            proof {
                lemma_fib_monotonic((i + 1) as nat, n as nat);
                assert(fib((i + 1) as nat) == fib(i as nat) + fib((i - 1) as nat));
            }
            let next = a + b;
            a = b;
            b = next;
            i = i + 1;
        }
        Js::Int(b)
    }

    /// Hands the computation for `n` to the pool as an encrypt task; `cb`
    /// receives its result.
    pub fn encrypt<C>(rt: &mut Runtime<C>, n: usize, cb: C) -> (r: Result<
        Dispatch<usize>,
        RuntimeError,
    >)
        requires
            old(rt).wf(),
            old(rt).pending() < usize::MAX,
        ensures
            final(rt).wf(),
            threadpool_registered(*old(rt), *final(rt), n, ThreadPoolTaskKind::Encrypt, cb, r),
    {
        rt.register_event_threadpool(n, ThreadPoolTaskKind::Encrypt, cb)
    }
}

/// A file-reading collaborator: its work yields the text of a file.
pub struct Fs;

impl Fs {
    /// Hands a read of `path` to the pool as a file-read task; `cb` receives
    /// the text.
    pub fn read<C>(rt: &mut Runtime<C>, path: String, cb: C) -> (r: Result<
        Dispatch<String>,
        RuntimeError,
    >)
        requires
            old(rt).wf(),
            old(rt).pending() < usize::MAX,
        ensures
            final(rt).wf(),
            threadpool_registered(*old(rt), *final(rt), path, ThreadPoolTaskKind::FileRead, cb, r),
    {
        rt.register_event_threadpool(path, ThreadPoolTaskKind::FileRead, cb)
    }
}

} // verus!
