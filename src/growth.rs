//! The buffer's growth policy.

use vstd::prelude::*;

verus! {

/// The capacity that the buffer has after making room for key `k`, starting
/// from capacity `cap`: exactly `k + 1` from an empty buffer; unchanged where
/// `k` already fits; doubled where that is enough; else exactly `k + 1`.
pub open spec fn grown_cap(cap: nat, k: nat) -> nat {
    if cap == 0 {
        k + 1
    } else if k + 1 <= cap {
        cap
    } else if k + 1 < 2 * cap {
        2 * cap
    } else {
        k + 1
    }
}

/// A larger key never asks for less room.
pub proof fn lemma_grown_cap_monotone(cap: nat, k1: nat, k2: nat)
    requires
        k1 <= k2,
    ensures
        grown_cap(cap, k1) <= grown_cap(cap, k2),
        cap <= grown_cap(cap, k1),
        k1 < grown_cap(cap, k1),
{
}

/// Making room for a key below `bound` never takes the buffer past the
/// larger of its current size and twice `bound`.
pub proof fn lemma_grown_cap_bound(cap: nat, k: nat, bound: nat)
    requires
        k < bound,
    ensures
        grown_cap(cap, k) <= cap || grown_cap(cap, k) <= 2 * bound,
{
}

/// Two to the power `e`.
pub open spec fn pow2(e: nat) -> nat
    decreases e,
{
    if e == 0 {
        1
    } else {
        2 * pow2((e - 1) as nat)
    }
}

/// The capacity after `n` calls of `add` on a new map: the `i`-th call takes
/// key `i` and makes room for it by `grown_cap`.
pub open spec fn adds_cap(n: nat) -> nat
    decreases n,
{
    if n == 0 {
        0
    } else {
        grown_cap(adds_cap((n - 1) as nat), (n - 1) as nat)
    }
}

/// After `n >= 1` sequential adds the capacity is the smallest power of two
/// that is at least `n`; `e` is its exponent.
pub proof fn lemma_adds_cap(n: nat) -> (e: nat)
    requires
        n >= 1,
    ensures
        adds_cap(n) == pow2(e),
        n <= pow2(e),
        e == 0 || pow2((e - 1) as nat) < n,
    decreases n,
{
    if n == 1 {
        assert(adds_cap(0) == 0);
        assert(pow2(0) == 1);
        0
    } else {
        let m = (n - 1) as nat;
        let e0 = lemma_adds_cap(m);
        let c = adds_cap(m);
        assert(pow2(e0 + 1) == 2 * pow2(e0));
        if m + 1 <= c {
            e0
        } else {
            e0 + 1
        }
    }
}

/// Computes `grown_cap` on machine integers.
pub fn grown_capacity(cap: usize, k: usize) -> (r: usize)
    requires
        grown_cap(cap as nat, k as nat) < usize::MAX,
    ensures
        r == grown_cap(cap as nat, k as nat),
{
    if cap == 0 {
        k + 1
    } else if k < cap {
        cap
    } else if k + 1 < 2 * cap {
        2 * cap
    } else {
        k + 1
    }
}

} // verus!
