//! Lower bound on the length of any addition chain reaching a target.
//!
//! The standard bound: a chain of `k` elements reaches at most `2^(k-1)`, so
//! any chain ending at `n` has at least `bit_len(n)` elements, i.e. at least
//! `bit_len(n) - 1` steps.

use vstd::prelude::*;
use crate::big::BigNum;
use crate::chain::valid_chain;

verus! {

/// The number of bits needed to express `n`: zero for zero, else
/// `floor(log2(n)) + 1`.
pub open spec fn bit_len(n: nat) -> nat
    decreases n,
{
    if n == 0 {
        0
    } else {
        1 + bit_len(n / 2)
    }
}

/// Two raised to the power `k`.
pub open spec fn pow2(k: nat) -> nat
    decreases k,
{
    if k == 0 {
        1
    } else {
        2 * pow2((k - 1) as nat)
    }
}

/// Two to any power is at least one.
pub proof fn lemma_pow2_pos(k: nat)
    ensures
        pow2(k) >= 1,
    decreases k,
{
    if k > 0 {
        lemma_pow2_pos((k - 1) as nat);
    }
}

/// Powers of two are monotone in the exponent.
pub proof fn lemma_pow2_mono(a: nat, b: nat)
    requires
        a <= b,
    ensures
        pow2(a) <= pow2(b),
    decreases b,
{
    if a < b {
        lemma_pow2_mono(a, (b - 1) as nat);
        lemma_pow2_pos((b - 1) as nat);
    }
}

/// A positive value needs at least one bit.
pub proof fn lemma_bit_len_pos(n: nat)
    requires
        n >= 1,
    ensures
        bit_len(n) >= 1,
{
}

/// A value of at most `2^m` needs at most `m + 1` bits.
pub proof fn lemma_bit_len_le(n: nat, m: nat)
    requires
        n <= pow2(m),
    ensures
        bit_len(n) <= m + 1,
    decreases m,
{
    if n > 0 {
        if m == 0 {
            assert(n == 1);
            assert(bit_len(0) == 0);
            assert(bit_len(1) == 1 + bit_len(0));
        } else {
            lemma_bit_len_le(n / 2, (m - 1) as nat);
        }
    }
}

/// Every element of a valid chain is at most two to the power of its index.
pub proof fn lemma_chain_growth(c: Seq<nat>)
    requires
        valid_chain(c),
    ensures
        forall|i: int| 0 <= i < c.len() ==> c[i] <= pow2(i as nat),
    decreases c.len(),
{
    if c.len() > 1 {
        let p = c.drop_last();
        crate::chain::lemma_chain_drop_last(c);
        lemma_chain_growth(p);
        let last = c.len() - 1;
        let w = crate::chain::pair_of(c, last);
        assert(p[w.0] == c[w.0] && p[w.1] == c[w.1]);
        lemma_pow2_mono(w.0 as nat, (last - 1) as nat);
        lemma_pow2_mono(w.1 as nat, (last - 1) as nat);
        assert(c[last] <= 2 * pow2((last - 1) as nat));
        assert forall|i: int| 0 <= i < c.len() implies c[i] <= pow2(i as nat) by {
            if i < last {
                assert(p[i] == c[i]);
            }
        }
    }
}

/// Soundness of the lower bound: no valid addition chain ending at `n` has
/// fewer than `bit_len(n)` elements, i.e. fewer than `bit_len(n) - 1` steps.
pub proof fn lemma_lower_bound_sound(c: Seq<nat>, n: nat)
    requires
        valid_chain(c),
        c.last() == n,
    ensures
        c.len() >= bit_len(n),
{
    lemma_chain_growth(c);
    assert(n <= pow2((c.len() - 1) as nat));
    lemma_bit_len_le(n, (c.len() - 1) as nat);
}

/// A proven lower bound on the number of steps of any valid addition chain
/// reaching `n`: `bit_len(n) - 1`, i.e. `ceil(log2(n))` rounded down to the
/// binary length less one. `lemma_lower_bound_sound` shows it never
/// overestimates.
pub fn lower_bound(n: &BigNum) -> (r: u64)
    requires
        n@ >= 1,
    ensures
        r as nat == bit_len(n@) - 1,
{
    proof {
        lemma_bit_len_pos(n@);
    }
    let b = crate::big::big_bits(n);
    b - 1
}

} // verus!
