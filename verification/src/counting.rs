//! Weighted sums over sequences. The ownership trackers keep a reference
//! count per physical frame; these sums state what such a count must equal,
//! and the lemmas here say how the sum moves when one entry of the sequence
//! changes.

use vstd::prelude::*;

verus! {

/// The sum of `f` over all entries of `s`.
pub open spec fn wsum<T>(s: Seq<T>, f: spec_fn(T) -> nat) -> nat
    decreases s.len(),
{
    if s.len() == 0 {
        0
    } else {
        wsum(s.drop_last(), f) + f(s.last())
    }
}

/// Appending an entry adds its weight.
pub proof fn lemma_wsum_push<T>(s: Seq<T>, x: T, f: spec_fn(T) -> nat)
    ensures
        wsum(s.push(x), f) == wsum(s, f) + f(x),
{
    assert(s.push(x).drop_last() =~= s);
}

/// Replacing the entry at `i` trades its weight for the new one.
pub proof fn lemma_wsum_update<T>(s: Seq<T>, i: int, x: T, f: spec_fn(T) -> nat)
    requires
        0 <= i < s.len(),
    ensures
        wsum(s.update(i, x), f) + f(s[i]) == wsum(s, f) + f(x),
    decreases s.len(),
{
    let t = s.update(i, x);
    if i == s.len() - 1 {
        assert(t.drop_last() =~= s.drop_last());
        assert(t.last() == x);
    } else {
        assert(t.drop_last() =~= s.drop_last().update(i, x));
        assert(t.last() == s.last());
        lemma_wsum_update(s.drop_last(), i, x, f);
    }
}

/// Removing the entry at `i` subtracts its weight.
pub proof fn lemma_wsum_remove<T>(s: Seq<T>, i: int, f: spec_fn(T) -> nat)
    requires
        0 <= i < s.len(),
    ensures
        wsum(s.remove(i), f) + f(s[i]) == wsum(s, f),
    decreases s.len(),
{
    let t = s.remove(i);
    if i == s.len() - 1 {
        assert(t =~= s.drop_last());
    } else {
        assert(t.drop_last() =~= s.drop_last().remove(i));
        assert(t.last() == s.last());
        lemma_wsum_remove(s.drop_last(), i, f);
    }
}

/// The sum dominates the weight of any single entry.
pub proof fn lemma_wsum_member<T>(s: Seq<T>, i: int, f: spec_fn(T) -> nat)
    requires
        0 <= i < s.len(),
    ensures
        wsum(s, f) >= f(s[i]),
    decreases s.len(),
{
    if i == s.len() - 1 {
    } else {
        assert(s.drop_last()[i] == s[i]);
        lemma_wsum_member(s.drop_last(), i, f);
    }
}

/// The sum dominates the weights of any two distinct entries together.
pub proof fn lemma_wsum_two<T>(s: Seq<T>, i: int, j: int, f: spec_fn(T) -> nat)
    requires
        0 <= i < s.len(),
        0 <= j < s.len(),
        i != j,
    ensures
        wsum(s, f) >= f(s[i]) + f(s[j]),
    decreases s.len(),
{
    let a = if i < j { i } else { j };
    let b = if i < j { j } else { i };
    if b == s.len() - 1 {
        assert(s.drop_last()[a] == s[a]);
        lemma_wsum_member(s.drop_last(), a, f);
    } else {
        assert(s.drop_last()[a] == s[a]);
        assert(s.drop_last()[b] == s[b]);
        lemma_wsum_two(s.drop_last(), a, b, f);
    }
}

/// With weights of at most one each, the sum is at most the length.
pub proof fn lemma_wsum_le_len<T>(s: Seq<T>, f: spec_fn(T) -> nat)
    requires
        forall|i: int| 0 <= i < s.len() ==> f(#[trigger] s[i]) <= 1,
    ensures
        wsum(s, f) <= s.len(),
    decreases s.len(),
{
    if s.len() > 0 {
        assert(forall|i: int|
            0 <= i < s.drop_last().len() ==> f(#[trigger] s.drop_last()[i]) == f(s[i]));
        lemma_wsum_le_len(s.drop_last(), f);
        assert(f(s.last()) <= 1);
    }
}

/// A sequence all of whose entries weigh nothing sums to nothing.
pub proof fn lemma_wsum_all_zero<T>(s: Seq<T>, f: spec_fn(T) -> nat)
    requires
        forall|i: int| 0 <= i < s.len() ==> f(#[trigger] s[i]) == 0,
    ensures
        wsum(s, f) == 0,
    decreases s.len(),
{
    if s.len() > 0 {
        assert(forall|i: int|
            0 <= i < s.drop_last().len() ==> f(#[trigger] s.drop_last()[i]) == f(s[i]));
        lemma_wsum_all_zero(s.drop_last(), f);
        assert(f(s.last()) == 0);
    }
}

} // verus!
