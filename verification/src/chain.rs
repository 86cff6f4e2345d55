//! The addition-chain invariant over the mathematical model.

use vstd::prelude::*;

verus! {

/// Whether some pair of elements before index `i` (possibly the same element
/// twice) sums to the element at `i`.
pub open spec fn has_pair(c: Seq<nat>, i: int) -> bool {
    exists|j: int, k: int| #![trigger c[j], c[k]] 0 <= k <= j < i && c[i] == c[j] + c[k]
}

/// A valid addition chain: non-empty, starts at one, strictly increasing, and
/// every element after the first is the sum of two earlier elements.
pub open spec fn valid_chain(c: Seq<nat>) -> bool {
    &&& c.len() >= 1
    &&& c[0] == 1
    &&& forall|i: int| 1 <= i < c.len() ==> c[i - 1] < #[trigger] c[i]
    &&& forall|i: int| 1 <= i < c.len() ==> has_pair(c, i)
}

/// A pair summing to the element at `i` witnesses `has_pair`.
pub proof fn lemma_pair_intro(c: Seq<nat>, i: int, j: int, k: int)
    requires
        0 <= k <= j < i,
        c[i] == c[j] + c[k],
    ensures
        has_pair(c, i),
{
    assert(0 <= k <= j < i && c[i] == c[j] + c[k]);
}

/// A witnessing pair for `has_pair`, larger index first.
pub proof fn pair_of(c: Seq<nat>, i: int) -> (r: (int, int))
    requires
        has_pair(c, i),
    ensures
        0 <= r.1 <= r.0 < i,
        c[i] == c[r.0] + c[r.1],
{
    choose|j: int, k: int| #![trigger c[j], c[k]] 0 <= k <= j < i && c[i] == c[j] + c[k]
}

/// Extending a valid chain with the sum of the elements at `j` and `k`, when
/// that sum exceeds the current last element, keeps the chain valid.
pub proof fn lemma_chain_push(c: Seq<nat>, x: nat, j: int, k: int)
    requires
        valid_chain(c),
        0 <= k <= j < c.len(),
        x == c[j] + c[k],
        x > c.last(),
    ensures
        valid_chain(c.push(x)),
{
    let c2 = c.push(x);
    assert(c2[0] == c[0]);
    assert forall|i: int| 1 <= i < c2.len() implies c2[i - 1] < #[trigger] c2[i] by {
        if i < c.len() {
            assert(c2[i] == c[i] && c2[i - 1] == c[i - 1]);
        } else {
            assert(c2[i] == x && c2[i - 1] == c[c.len() - 1]);
        }
    }
    assert forall|i: int| 1 <= i < c2.len() implies has_pair(c2, i) by {
        if i < c.len() {
            let p = pair_of(c, i);
            assert(c2[p.0] == c[p.0] && c2[p.1] == c[p.1] && c2[i] == c[i]);
            lemma_pair_intro(c2, i, p.0, p.1);
        } else {
            assert(c2[j] == c[j] && c2[k] == c[k]);
            lemma_pair_intro(c2, i, j, k);
        }
    }
}

/// Dropping the last element of a valid chain of at least two elements keeps
/// the chain valid.
pub proof fn lemma_chain_drop_last(c: Seq<nat>)
    requires
        valid_chain(c),
        c.len() >= 2,
    ensures
        valid_chain(c.drop_last()),
{
    let p = c.drop_last();
    assert(p[0] == c[0]);
    assert forall|i: int| 1 <= i < p.len() implies p[i - 1] < #[trigger] p[i] by {
        assert(p[i] == c[i] && p[i - 1] == c[i - 1]);
    }
    assert forall|i: int| 1 <= i < p.len() implies has_pair(p, i) by {
        let w = pair_of(c, i);
        assert(p[w.0] == c[w.0] && p[w.1] == c[w.1] && p[i] == c[i]);
        lemma_pair_intro(p, i, w.0, w.1);
    }
}

} // verus!
