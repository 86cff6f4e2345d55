//! The chain-search engine.
//!
//! The engine reduces the target toward small base cases: a table of known
//! short chains anchors selected small targets where plain binary
//! decomposition is not the shortest known result, and otherwise an even
//! target is halved and an odd target lowered by one, appending the doubling
//! or addition step that reverses the reduction. The number of elements of
//! the result is a function of the target value alone (`search_len`), so the
//! result length is deterministic, and it stays below twice the binary length
//! of the target.

use vstd::prelude::*;
use std::collections::HashMap;
use crate::big::{vals, BigNum};
use crate::bounds::bit_len;
use crate::chain::{lemma_chain_push, lemma_pair_intro, valid_chain};

verus! {

broadcast use vstd::std_specs::hash::group_hash_axioms;

/// The memoization cache of one top-level search: every cached chain is a
/// valid chain ending at its key, of the length the engine computes for it.
pub open spec fn cache_ok(m: Map<u64, Vec<BigNum>>) -> bool {
    forall|k: u64| #[trigger] m.contains_key(k) ==> valid_chain(vals(m[k]@)) && vals(
        m[k]@,
    ).last() == k as nat && m[k]@.len() == search_len(k as nat)
}

/// A copy of a chain with the same values.
fn dup_chain(c: &Vec<BigNum>) -> (r: Vec<BigNum>)
    ensures
        vals(r@) == vals(c@),
{
    let mut r: Vec<BigNum> = Vec::new();
    let mut i: usize = 0;
    while i < c.len()
        invariant
            i <= c@.len(),
            vals(r@) == vals(c@).subrange(0, i as int),
        decreases c@.len() - i,
    {
        let x = c[i].dup();
        let ghost xg = x;
        let ghost r0 = r@;
        r.push(x);
        proof {
            crate::big::lemma_vals_push(r0, xg);
            assert(vals(c@)[i as int] == c@[i as int]@);
            assert(vals(c@).subrange(0, i as int).push(vals(c@)[i as int]) =~= vals(c@).subrange(
                0,
                i as int + 1,
            ));
        }
        i = i + 1;
    }
    proof {
        assert(vals(c@).subrange(0, c@.len() as int) =~= vals(c@));
    }
    r
}

/// Known short chains for selected small targets where plain binary
/// decomposition is longer.
pub open spec fn table_spec(n: nat) -> Option<Seq<nat>> {
    if n == 15 {
        Some(seq![1nat, 2, 3, 6, 12, 15])
    } else if n == 23 {
        Some(seq![1nat, 2, 3, 5, 10, 20, 23])
    } else if n == 27 {
        Some(seq![1nat, 2, 3, 6, 9, 18, 27])
    } else {
        None
    }
}

/// Every table entry is a valid chain ending at its key.
pub proof fn lemma_table_valid(n: nat)
    requires
        table_spec(n) is Some,
    ensures
        valid_chain(table_spec(n)->Some_0),
        table_spec(n)->Some_0.last() == n,
{
    let c = table_spec(n)->Some_0;
    if n == 15 {
        lemma_pair_intro(c, 1, 0, 0);
        lemma_pair_intro(c, 2, 1, 0);
        lemma_pair_intro(c, 3, 2, 2);
        lemma_pair_intro(c, 4, 3, 3);
        lemma_pair_intro(c, 5, 4, 2);
    } else if n == 23 {
        lemma_pair_intro(c, 1, 0, 0);
        lemma_pair_intro(c, 2, 1, 0);
        lemma_pair_intro(c, 3, 2, 1);
        lemma_pair_intro(c, 4, 3, 3);
        lemma_pair_intro(c, 5, 4, 4);
        lemma_pair_intro(c, 6, 5, 2);
    } else {
        lemma_pair_intro(c, 1, 0, 0);
        lemma_pair_intro(c, 2, 1, 0);
        lemma_pair_intro(c, 3, 2, 2);
        lemma_pair_intro(c, 4, 3, 2);
        lemma_pair_intro(c, 5, 4, 4);
        lemma_pair_intro(c, 6, 5, 4);
    }
}

/// The number of elements of the chain the engine returns for target `n`.
///
/// For an odd target the engine keeps the best of the reduction by one and
/// the factor compositions it tries (the small odd divisors three and five),
/// and skips the factor candidates entirely when the base candidate already
/// meets the proven lower bound.
pub open spec fn search_len(n: nat) -> nat
    decreases n,
{
    if table_spec(n) is Some {
        table_spec(n)->Some_0.len()
    } else if n <= 1 {
        1
    } else if n % 2 == 0 {
        search_len(n / 2) + 1
    } else {
        let base = search_len((n - 1) as nat) + 1;
        if base == bit_len(n) {
            base
        } else {
            let l3 = if n % 3 == 0 && n / 3 > 1 && search_len(n / 3) + factor_cost(3) < base {
                search_len(n / 3) + factor_cost(3)
            } else {
                base
            };
            if n % 5 == 0 && n / 5 > 1 && search_len(n / 5) + factor_cost(5) < l3 {
                search_len(n / 5) + factor_cost(5)
            } else {
                l3
            }
        }
    }
}

/// The elements a factor composition adds beyond the quotient's chain: one
/// less than the length of the divisor's chain.
pub open spec fn factor_cost(d: nat) -> nat {
    if d == 3 {
        2
    } else {
        3
    }
}

/// The engine's chain for three has three elements.
pub proof fn lemma_search_len_3()
    ensures
        search_len(3) == 3,
{
    assert(search_len(1) == 1);
    assert(search_len(2) == 2);
    assert(bit_len(0) == 0);
    assert(bit_len(1) == 1 + bit_len(0));
    assert(bit_len(3) == 1 + bit_len(1));
    assert(search_len(3) == 3);
}

/// The engine's chain for five has four elements.
pub proof fn lemma_search_len_5()
    ensures
        search_len(5) == 4,
{
    assert(search_len(1) == 1);
    assert(search_len(2) == 2);
    assert(search_len(4) == 3);
    assert(bit_len(0) == 0);
    assert(bit_len(1) == 1 + bit_len(0));
    assert(bit_len(2) == 1 + bit_len(1));
    assert(bit_len(5) == 1 + bit_len(2));
    assert(search_len(5) == 4);
}

/// Determinism of the result length: any two chains the engine returns for
/// the same target have the same number of elements, because each has
/// `search_len` of the target value as its length.
pub proof fn lemma_length_deterministic(n: nat, a: Seq<BigNum>, b: Seq<BigNum>)
    requires
        a.len() == search_len(n),
        b.len() == search_len(n),
    ensures
        a.len() == b.len(),
{
}

/// The engine's result stays below twice the binary length of the target.
pub proof fn lemma_search_len_bound(n: nat)
    requires
        n >= 1,
    ensures
        search_len(n) < 2 * bit_len(n),
    decreases n,
{
    assert(bit_len(0) == 0);
    assert(bit_len(1) == 1 + bit_len(0));
    if table_spec(n) is Some {
        if n == 15 {
            assert(bit_len(3) == 1 + bit_len(1));
            assert(bit_len(7) == 1 + bit_len(3));
            assert(bit_len(15) == 1 + bit_len(7));
        } else if n == 23 {
            assert(bit_len(2) == 1 + bit_len(1));
            assert(bit_len(5) == 1 + bit_len(2));
            assert(bit_len(11) == 1 + bit_len(5));
            assert(bit_len(23) == 1 + bit_len(11));
        } else {
            assert(bit_len(3) == 1 + bit_len(1));
            assert(bit_len(6) == 1 + bit_len(3));
            assert(bit_len(13) == 1 + bit_len(6));
            assert(bit_len(27) == 1 + bit_len(13));
        }
    } else if n == 1 {
    } else if n % 2 == 0 {
        lemma_search_len_bound(n / 2);
    } else {
        let m = (n - 1) as nat;
        assert(table_spec(m) is None);
        assert(m / 2 == n / 2);
        lemma_search_len_bound(n / 2);
        assert(search_len(m) == search_len(m / 2) + 1);
        assert(search_len(n) <= search_len(m) + 1);
    }
}

/// A known short chain for the given small target, where the table has one.
fn small_chain(v: u64) -> (r: Option<Vec<BigNum>>)
    ensures
        r matches Some(c) ==> table_spec(v as nat) matches Some(s) && vals(c@) == s,
        r is None ==> table_spec(v as nat) is None,
{
    if v == 15 {
        let mut c: Vec<BigNum> = Vec::new();
        push_val(&mut c, 1);
        push_val(&mut c, 2);
        push_val(&mut c, 3);
        push_val(&mut c, 6);
        push_val(&mut c, 12);
        push_val(&mut c, 15);
        proof {
            assert(vals(c@) =~= seq![1nat, 2, 3, 6, 12, 15]);
        }
        Some(c)
    } else if v == 23 {
        let mut c: Vec<BigNum> = Vec::new();
        push_val(&mut c, 1);
        push_val(&mut c, 2);
        push_val(&mut c, 3);
        push_val(&mut c, 5);
        push_val(&mut c, 10);
        push_val(&mut c, 20);
        push_val(&mut c, 23);
        proof {
            assert(vals(c@) =~= seq![1nat, 2, 3, 5, 10, 20, 23]);
        }
        Some(c)
    } else if v == 27 {
        let mut c: Vec<BigNum> = Vec::new();
        push_val(&mut c, 1);
        push_val(&mut c, 2);
        push_val(&mut c, 3);
        push_val(&mut c, 6);
        push_val(&mut c, 9);
        push_val(&mut c, 18);
        push_val(&mut c, 27);
        proof {
            assert(vals(c@) =~= seq![1nat, 2, 3, 6, 9, 18, 27]);
        }
        Some(c)
    } else {
        None
    }
}

/// Appends the element with the given value to a chain.
fn push_val(c: &mut Vec<BigNum>, x: u64)
    ensures
        vals(final(c)@) == vals(old(c)@).push(x as nat),
{
    c.push(BigNum::from_u64(x));
    proof {
        assert(vals(c@) =~= vals(old(c)@).push(x as nat));
    }
}

/// Finds an addition chain for the target, consulting and filling the
/// memoization cache of the enclosing top-level search for targets that fit
/// in a cache key.
pub(crate) fn chain_for(n: &BigNum, cache: &mut HashMap<u64, Vec<BigNum>>) -> (r: Vec<BigNum>)
    requires
        n@ >= 1,
        cache_ok(old(cache)@),
    ensures
        valid_chain(vals(r@)),
        vals(r@).last() == n@,
        r@.len() == search_len(n@),
        cache_ok(final(cache)@),
    decreases n@, 2nat,
{
    let key = n.to_u64();
    match key {
        Some(v) => {
            match cache.get(&v) {
                Some(c) => {
                    proof {
                        assert(cache@.contains_key(v));
                    }
                    return dup_chain(c);
                },
                None => {},
            }
        },
        None => {},
    }
    let r = compute_chain(n, cache);
    match key {
        Some(v) => {
            let copy = dup_chain(&r);
            let ghost m1 = cache@;
            cache.insert(v, copy);
            proof {
                assert forall|k2: u64| #[trigger] cache@.contains_key(k2) implies valid_chain(
                    vals(cache@[k2]@),
                ) && vals(cache@[k2]@).last() == k2 as nat && cache@[k2]@.len() == search_len(
                    k2 as nat,
                ) by {
                    if k2 == v {
                        assert(cache@[k2] == copy);
                        assert(vals(copy@).len() == copy@.len());
                    } else {
                        assert(m1.contains_key(k2) && cache@[k2] == m1[k2]);
                    }
                }
            }
        },
        None => {},
    }
    r
}

/// Computes a chain for the target: the table result for an anchored small
/// target, else recursive halving with a final doubling for an even target,
/// and for an odd target the best of the reduction by one and the factor
/// compositions, pruned by the lower bound.
fn compute_chain(n: &BigNum, cache: &mut HashMap<u64, Vec<BigNum>>) -> (r: Vec<BigNum>)
    requires
        n@ >= 1,
        cache_ok(old(cache)@),
    ensures
        valid_chain(vals(r@)),
        vals(r@).last() == n@,
        r@.len() == search_len(n@),
        cache_ok(final(cache)@),
    decreases n@, 1nat,
{
    match n.to_u64() {
        Some(v) => {
            match small_chain(v) {
                Some(c) => {
                    proof {
                        lemma_table_valid(n@);
                        assert(vals(c@).len() == c@.len());
                    }
                    return c;
                },
                None => {},
            }
        },
        None => {},
    }
    if crate::big::big_is_one(n) {
        let mut c: Vec<BigNum> = Vec::new();
        push_val(&mut c, 1);
        proof {
            assert(vals(c@) =~= seq![1nat]);
            assert(search_len(n@) == 1);
        }
        return c;
    }
    if n.is_even() {
        let h = crate::big::big_half(n);
        let mut c = chain_for(&h, cache);
        let ghost v1 = vals(c@);
        c.push(n.dup());
        proof {
            assert(vals(c@) =~= v1.push(n@));
            assert(n@ == h@ + h@);
            lemma_chain_push(v1, n@, v1.len() - 1, v1.len() - 1);
            assert(search_len(n@) == search_len(n@ / 2) + 1);
        }
        c
    } else {
        let m = n.dec_one();
        let mut best = chain_for(&m, cache);
        let ghost v1 = vals(best@);
        best.push(n.dup());
        proof {
            assert(vals(best@) =~= v1.push(n@));
            assert(n@ == m@ + v1[0]);
            lemma_chain_push(v1, n@, v1.len() - 1, 0);
        }
        let ghost base = search_len((n@ - 1) as nat) + 1;
        proof {
            assert(best@.len() == base);
        }
        // No chain is shorter than the lower bound, so when the base
        // candidate reaches it the factor branches cannot improve on it.
        let lb = crate::bounds::lower_bound(n);
        if (best.len() - 1) as u64 == lb {
            proof {
                crate::bounds::lemma_bit_len_pos(n@);
                assert(base == bit_len(n@));
            }
            return best;
        }
        proof {
            assert(base != bit_len(n@));
        }
        best = try_factor(n, 3, best, cache);
        best = try_factor(n, 5, best, cache);
        proof {
            assert(best@.len() == search_len(n@));
        }
        best
    }
}

/// Tries to improve the best candidate for odd target `n` by composing chains
/// for the divisor `d` and the quotient `n / d`, keeping the shorter result.
fn try_factor(n: &BigNum, d: u64, best: Vec<BigNum>, cache: &mut HashMap<u64, Vec<BigNum>>) -> (r: Vec<BigNum>)
    requires
        d == 3 || d == 5,
        valid_chain(vals(best@)),
        vals(best@).last() == n@,
        cache_ok(old(cache)@),
    ensures
        valid_chain(vals(r@)),
        vals(r@).last() == n@,
        cache_ok(final(cache)@),
        (n@ % (d as nat) == 0 && n@ / (d as nat) > 1 && search_len(n@ / (d as nat)) + factor_cost(
            d as nat,
        ) < best@.len()) ==> r@.len() == search_len(n@ / (d as nat)) + factor_cost(d as nat),
        !(n@ % (d as nat) == 0 && n@ / (d as nat) > 1 && search_len(n@ / (d as nat)) + factor_cost(
            d as nat,
        ) < best@.len()) ==> r == best,
    decreases n@, 0nat,
{
    let dn = BigNum::from_u64(d);
    let rem = crate::big::big_rem(n, &dn);
    match rem.to_u64() {
        Some(rv) => {
            if rv != 0 {
                return best;
            }
        },
        None => {
            proof {
                assert(rem@ < d as nat);
                assert(false);
            }
            return best;
        },
    }
    let q = crate::big::big_div(n, &dn);
    if crate::big::big_is_one(&q) {
        return best;
    }
    proof {
        vstd::arithmetic::div_mod::lemma_fundamental_div_mod(n@ as int, d as int);
        assert(n@ == (d as nat) * (n@ / (d as nat)));
        assert(q@ >= 2);
        assert((d as nat) * q@ >= (d as nat) * 2) by (nonlinear_arith)
            requires
                q@ >= 2,
                d >= 3,
        ;
        assert(d < n@);
    }
    let cd = chain_for(&dn, cache);
    let cq = chain_for(&q, cache);
    let cand = compose(&cq, &cd, &q);
    proof {
        if d == 3 {
            lemma_search_len_3();
        } else {
            lemma_search_len_5();
        }
        assert(cd@.len() == factor_cost(d as nat) + 1);
        assert(vals(cand@).last() == q@ * vals(cd@).last());
        assert(q@ * (d as nat) == n@) by (nonlinear_arith)
            requires
                n@ == (d as nat) * (q@),
        ;
    }
    if cand.len() < best.len() {
        cand
    } else {
        best
    }
}

/// Composes a chain for `a` with a chain describing a further factor: the
/// tail of `cb` is replayed on top of `ca`, each element scaled by `a`, so
/// the result reaches `a` times the target of `cb` in the lengths of the two
/// chains combined.
fn compose(ca: &Vec<BigNum>, cb: &Vec<BigNum>, a: &BigNum) -> (r: Vec<BigNum>)
    requires
        valid_chain(vals(ca@)),
        valid_chain(vals(cb@)),
        vals(ca@).last() == a@,
        a@ >= 1,
    ensures
        valid_chain(vals(r@)),
        vals(r@).last() == a@ * vals(cb@).last(),
        r@.len() == ca@.len() + cb@.len() - 1,
{
    let mut r = dup_chain(ca);
    proof {
        assert(vals(r@).len() == r@.len());
        assert(a@ * vals(cb@)[0] == a@) by (nonlinear_arith)
            requires
                vals(cb@)[0] == 1,
        ;
    }
    let mut t: usize = 1;
    while t < cb.len()
        invariant
            1 <= t <= cb@.len(),
            ca@.len() >= 1,
            a@ >= 1,
            valid_chain(vals(cb@)),
            valid_chain(vals(r@)),
            r@.len() == ca@.len() + t - 1,
            forall|s: int| 0 <= s < t ==> vals(r@)[ca@.len() - 1 + s] == a@ * #[trigger] vals(
                cb@,
            )[s],
        decreases cb@.len() - t,
    {
        let x = crate::big::big_mul(a, &cb[t]);
        let ghost v1 = vals(r@);
        proof {
            let cbv = vals(cb@);
            assert(x@ == a@ * cbv[t as int]);
            let w = crate::chain::pair_of(cbv, t as int);
            assert(v1[ca@.len() - 1 + w.0] == a@ * cbv[w.0]);
            assert(v1[ca@.len() - 1 + w.1] == a@ * cbv[w.1]);
            assert(a@ * cbv[t as int] == a@ * cbv[w.0] + a@ * cbv[w.1]) by (nonlinear_arith)
                requires
                    cbv[t as int] == cbv[w.0] + cbv[w.1],
            ;
            assert(v1.last() == a@ * cbv[t - 1]);
            assert(cbv[t - 1] < cbv[t as int]);
            assert(a@ * cbv[t - 1] < a@ * cbv[t as int]) by (nonlinear_arith)
                requires
                    a@ >= 1,
                    cbv[t - 1] < cbv[t as int],
            ;
            lemma_chain_push(v1, x@, ca@.len() - 1 + w.0, ca@.len() - 1 + w.1);
        }
        let ghost xg = x;
        let ghost r0 = r@;
        r.push(x);
        proof {
            crate::big::lemma_vals_push(r0, xg);
            assert(vals(r@) == v1.push(xg@));
            assert forall|s: int| 0 <= s < t + 1 implies vals(r@)[ca@.len() - 1 + s] == a@
                * #[trigger] vals(cb@)[s] by {
                if s < t {
                    assert(vals(r@)[ca@.len() - 1 + s] == v1[ca@.len() - 1 + s]);
                } else {
                    assert(vals(r@)[ca@.len() - 1 + s] == xg@);
                }
            }
        }
        t = t + 1;
    }
    proof {
        assert(vals(r@).last() == a@ * vals(cb@)[cb@.len() - 1]);
    }
    r
}

} // verus!
