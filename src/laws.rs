//! Laws that relate the map's operations, stated over the maps that the
//! operations' contracts speak of.

use crate::growth::{adds_cap, grown_cap, lemma_adds_cap, pow2};
use crate::map::{below, from, lists_keys};
use vstd::prelude::*;

verus! {

/// Inserting at, or removing, one key leaves every other key as it was:
/// whether it is in use, and its value.
pub proof fn law_other_keys_unchanged<T>(m: Map<usize, T>, k1: usize, k2: usize, v: T)
    requires
        k1 != k2,
    ensures
        m.insert(k1, v).contains_key(k2) == m.contains_key(k2),
        m.remove(k1).contains_key(k2) == m.contains_key(k2),
        m.contains_key(k2) ==> m.insert(k1, v)[k2] == m[k2] && m.remove(k1)[k2] == m[k2],
{
}

/// Splitting at `at` parts the entries into those below `at` and the rest,
/// with no key in both and none lost; appending the second part to the first
/// gives back the original map.
pub proof fn law_split_then_append<T>(m: Map<usize, T>, at: usize)
    ensures
        below(m, at).dom().disjoint(from(m, at).dom()),
        below(m, at).dom() + from(m, at).dom() == m.dom(),
        below(m, at).union_prefer_right(from(m, at)) == m,
{
    assert(below(m, at).dom() + from(m, at).dom() =~= m.dom());
    assert(below(m, at).union_prefer_right(from(m, at)) =~= m);
}

/// Draining, or listing, a map with `n` entries gives exactly `n` items, no
/// key twice.
pub proof fn law_listing_is_complete<T>(ks: Seq<usize>, m: Map<usize, T>)
    requires
        lists_keys(ks, m),
        m.dom().finite(),
    ensures
        ks.len() == m.len(),
        ks.no_duplicates(),
{
    assert(ks.no_duplicates()) by {
        assert forall|i: int, j: int|
            0 <= i < ks.len() && 0 <= j < ks.len() && i != j implies ks[i] != ks[j] by {
            if i > j {
                assert(ks[j] < ks[i]);
            }
        }
    }
    ks.unique_seq_to_set();
    assert(ks.to_set() =~= m.dom());
}

/// On a map whose keys are exactly `0..n`, the smallest free key, which `add`
/// takes, is `n`.
pub proof fn law_add_takes_next_key<T>(m: Map<usize, T>, n: usize, r: usize)
    requires
        forall|k: usize| m.contains_key(k) <==> k < n,
        !m.contains_key(r),
        forall|j: usize| j < r ==> m.contains_key(j),
    ensures
        r == n,
{
    if r < n {
    } else if r > n {
        assert(m.contains_key(n));
    }
}

/// One more `add` on a map built by `n` adds: its keys are `0..n` and its
/// capacity is `adds_cap(n)`; what `add` promises then makes the key `n` and
/// the capacity `adds_cap(n + 1)`.
pub proof fn law_add_continues_sequence<T>(
    m: Map<usize, T>,
    n: usize,
    cap: nat,
    r: usize,
    new_cap: nat,
)
    requires
        forall|k: usize| m.contains_key(k) <==> k < n,
        cap == adds_cap(n as nat),
        !m.contains_key(r),
        forall|j: usize| j < r ==> m.contains_key(j),
        new_cap == grown_cap(cap, r as nat),
    ensures
        r == n,
        new_cap == adds_cap(n as nat + 1),
{
    law_add_takes_next_key(m, n, r);
}

/// After `n >= 1` calls of `add` on a new map, the capacity is the smallest
/// power of two that is at least `n`.
pub proof fn law_sequential_adds_capacity(n: nat)
    requires
        n >= 1,
    ensures
        exists|e: nat|
            adds_cap(n) == #[trigger] pow2(e) && n <= pow2(e) && (e == 0 || pow2((e - 1) as nat) < n),
{
    let e = lemma_adds_cap(n);
}

} // verus!
