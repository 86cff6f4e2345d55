//! Decomposing an addition chain into the steps that explain each element.
//!
//! For each element after the first, the pair search scans candidate pairs in
//! increasing order of the larger index, then of the smaller index within it,
//! and takes the first pair that sums to the element.

use vstd::prelude::*;
use crate::Step;
use crate::big::{vals, BigNum, big_add, big_eq};

verus! {

/// The first pair `(j, k)` with `k <= j < i` and `c[i] == c[j] + c[k]`, in the
/// scan order of the pair search, starting from candidate `(j, k)`.
pub open spec fn find_pair_from(c: Seq<nat>, i: int, j: int, k: int) -> Option<(int, int)>
    decreases i - j, j + 1 - k,
{
    if j >= i {
        None
    } else if k > j {
        find_pair_from(c, i, j + 1, 0)
    } else if c[i] == c[j] + c[k] {
        Some((j, k))
    } else {
        find_pair_from(c, i, j, k + 1)
    }
}

/// The first pair explaining the element at `i`, if any.
pub open spec fn find_pair(c: Seq<nat>, i: int) -> Option<(int, int)> {
    find_pair_from(c, i, 0, 0)
}

/// The step recorded for the element at `i`: a doubling when the first
/// explaining pair repeats one index, otherwise an addition.
pub open spec fn step_for(c: Seq<nat>, i: int) -> Step {
    match find_pair(c, i) {
        Some(p) => if p.0 == p.1 {
            Step::Double { index: p.0 as usize }
        } else {
            Step::Add { left: p.0 as usize, right: p.1 as usize }
        },
        None => Step::Double { index: 0 },
    }
}

/// Whether the whole chain decomposes: it is non-empty, starts at one, and
/// every later element has an explaining pair.
pub open spec fn build_ok(c: Seq<nat>) -> bool {
    &&& c.len() >= 1
    &&& c[0] == 1
    &&& forall|i: int| 1 <= i < c.len() ==> find_pair(c, i) is Some
}

/// The steps recorded for a chain that decomposes.
pub open spec fn steps_of(c: Seq<nat>) -> Seq<Step> {
    Seq::new((c.len() - 1) as nat, |t: int| step_for(c, t + 1))
}

/// A found pair lies below `i` and sums to the element at `i`.
pub proof fn lemma_find_pair_from_sound(c: Seq<nat>, i: int, j: int, k: int)
    requires
        0 <= j,
        0 <= k,
    ensures
        find_pair_from(c, i, j, k) matches Some(p) ==> 0 <= p.1 <= p.0 < i && c[i] == c[p.0]
            + c[p.1],
    decreases i - j, j + 1 - k,
{
    if j >= i {
    } else if k > j {
        lemma_find_pair_from_sound(c, i, j + 1, 0);
    } else if c[i] == c[j] + c[k] {
    } else {
        lemma_find_pair_from_sound(c, i, j, k + 1);
    }
}

/// When the scan from `(j, k)` finds nothing, no pair at or after `(j, k)` in
/// scan order sums to the element at `i`.
pub proof fn lemma_find_pair_from_complete(c: Seq<nat>, i: int, j: int, k: int)
    requires
        0 <= j,
        0 <= k,
        find_pair_from(c, i, j, k) is None,
    ensures
        forall|j2: int, k2: int| #![trigger c[j2], c[k2]]
            0 <= k2 <= j2 < i && (j2 > j || (j2 == j && k2 >= k)) ==> c[i] != c[j2] + c[k2],
    decreases i - j, j + 1 - k,
{
    if j >= i {
    } else if k > j {
        lemma_find_pair_from_complete(c, i, j + 1, 0);
    } else {
        lemma_find_pair_from_complete(c, i, j, k + 1);
    }
}

/// Every element of a valid chain has an explaining pair, so every chain the
/// engine produces decomposes into steps.
pub proof fn lemma_valid_chain_build_ok(c: Seq<nat>)
    requires
        crate::chain::valid_chain(c),
    ensures
        build_ok(c),
{
    assert forall|i: int| 1 <= i < c.len() implies find_pair(c, i) is Some by {
        if find_pair(c, i) is None {
            lemma_find_pair_from_complete(c, i, 0, 0);
            let w = crate::chain::pair_of(c, i);
            assert(c[i] != c[w.0] + c[w.1]);
            assert(false);
        }
    }
}

/// The value a step derives from the chain prefix built so far.
pub open spec fn apply_step(p: Seq<nat>, s: Step) -> nat {
    match s {
        Step::Double { index } => p[index as int] + p[index as int],
        Step::Add { left, right } => p[left as int] + p[right as int],
    }
}

/// Replaying a step sequence: start from the one-element chain `[1]` and
/// append the value each step derives.
pub open spec fn replay(s: Seq<Step>) -> Seq<nat>
    decreases s.len(),
{
    if s.len() == 0 {
        seq![1nat]
    } else {
        let p = replay(s.drop_last());
        p.push(apply_step(p, s.last()))
    }
}

proof fn lemma_replay_prefix(c: Seq<nat>, t: int)
    requires
        build_ok(c),
        c.len() <= usize::MAX,
        0 <= t <= c.len() - 1,
    ensures
        replay(steps_of(c).subrange(0, t)) == c.subrange(0, t + 1),
    decreases t,
{
    let s = steps_of(c);
    if t == 0 {
        assert(s.subrange(0, 0) =~= Seq::<Step>::empty());
        assert(replay(Seq::<Step>::empty()) == seq![1nat]);
        assert(c.subrange(0, 1) =~= seq![1nat]);
    } else {
        lemma_replay_prefix(c, t - 1);
        let pre = s.subrange(0, t);
        assert(pre.drop_last() =~= s.subrange(0, t - 1));
        assert(pre.last() == s[t - 1]);
        assert(s[t - 1] == step_for(c, t));
        lemma_find_pair_from_sound(c, t, 0, 0);
        let p = find_pair(c, t)->Some_0;
        let q = replay(s.subrange(0, t - 1));
        assert(q == c.subrange(0, t));
        assert(q[p.0] == c[p.0] && q[p.1] == c[p.1]);
        assert((p.0 as usize) as int == p.0 && (p.1 as usize) as int == p.1);
        assert(apply_step(q, step_for(c, t)) == c[p.0] + c[p.1]);
        assert(replay(pre) == q.push(c[t]));
        assert(c.subrange(0, t).push(c[t]) =~= c.subrange(0, t + 1));
    }
}

/// Replaying the steps of a chain that decomposes reconstructs the chain: one
/// step per element after the first, and the replayed values equal the chain.
pub proof fn lemma_replay_reconstructs(c: Seq<nat>)
    requires
        build_ok(c),
        c.len() <= usize::MAX,
    ensures
        steps_of(c).len() == c.len() - 1,
        replay(steps_of(c)) == c,
{
    lemma_replay_prefix(c, c.len() - 1);
    assert(steps_of(c).subrange(0, c.len() - 1) =~= steps_of(c));
    assert(c.subrange(0, c.len() as int) =~= c);
}

/// Round trip: every valid chain decomposes into exactly one step per element
/// after the first, and replaying those steps reconstructs the chain.
pub proof fn lemma_chain_roundtrip(c: Seq<nat>)
    requires
        crate::chain::valid_chain(c),
        c.len() <= usize::MAX,
    ensures
        build_ok(c),
        steps_of(c).len() == c.len() - 1,
        replay(steps_of(c)) == c,
{
    lemma_valid_chain_build_ok(c);
    lemma_replay_reconstructs(c);
}

/// The first pair of earlier elements summing to `chain[i]`, scanning larger
/// index outermost, as the decomposer records it.
pub(crate) fn find_pair_exec(chain: &Vec<BigNum>, i: usize) -> (r: Option<(usize, usize)>)
    requires
        i < chain@.len(),
    ensures
        r matches Some(p) ==> p.1 <= p.0 < i && find_pair(vals(chain@), i as int) == Some((
        p.0 as int, p.1 as int)),
        r is None ==> find_pair(vals(chain@), i as int) is None,
{
    let mut j: usize = 0;
    while j < i
        invariant
            j <= i,
            i < chain@.len(),
            find_pair_from(vals(chain@), i as int, j as int, 0) == find_pair(
                vals(chain@),
                i as int,
            ),
        decreases i - j,
    {
        let mut k: usize = 0;
        while k <= j
            invariant
                k <= j + 1,
                j < i,
                i < chain@.len(),
                find_pair_from(vals(chain@), i as int, j as int, k as int) == find_pair(
                    vals(chain@),
                    i as int,
                ),
            decreases j + 1 - k,
        {
            let s = big_add(&chain[j], &chain[k]);
            if big_eq(&chain[i], &s) {
                proof {
                    let c = vals(chain@);
                    assert(c[i as int] == chain@[i as int]@);
                    assert(c[j as int] == chain@[j as int]@);
                    assert(c[k as int] == chain@[k as int]@);
                    assert(find_pair_from(c, i as int, j as int, k as int) == Some((
                    j as int,
                    k as int,
                )));
                }
                return Some((j, k));
            }
            proof {
                let c = vals(chain@);
                assert(c[i as int] != c[j as int] + c[k as int]);
                assert(find_pair_from(c, i as int, j as int, k as int) == find_pair_from(
                    c,
                    i as int,
                    j as int,
                    k as int + 1,
                ));
            }
            k = k + 1;
        }
        proof {
            let c = vals(chain@);
            assert(find_pair_from(c, i as int, j as int, k as int) == find_pair_from(
                c,
                i as int,
                j as int + 1,
                0,
            ));
        }
        j = j + 1;
    }
    proof {
        assert(find_pair_from(vals(chain@), i as int, i as int, 0) is None);
    }
    None
}

} // verus!
