//! Addition-chain generation: finding a short addition chain for a positive
//! arbitrary-precision integer, and decomposing a chain into doubling and
//! addition steps.

use vstd::prelude::*;
use std::collections::HashMap;

pub mod big;
pub mod bounds;
pub mod chain;
pub mod search;
pub mod steps;

verus! {

use crate::big::{vals, BigNum};
use crate::bounds::bit_len;
use crate::chain::valid_chain;
use crate::search::search_len;
use crate::steps::{build_ok, find_pair, step_for, steps_of};

/// The error kinds returned by the chain APIs.
#[derive(Debug, PartialEq, Eq, Structural)]
pub enum Error {
    /// The provided chain is invalid.
    InvalidChain,
}

/// A single step in computing an addition chain.
///
/// Each variant references earlier chain elements by position.
#[derive(Debug, PartialEq, Eq, Structural)]
pub enum Step {
    /// The element is twice the element at `index`.
    Double { index: usize },
    /// The element is the sum of the elements at `left` and `right`.
    Add { left: usize, right: usize },
}

/// Returns the shortest addition chain the engine can find for the given
/// positive number.
///
/// The result is a valid addition chain: it starts at one, is strictly
/// increasing, every element is the sum of an earlier pair, and it ends at
/// `n`. Its number of elements is `search_len(n)`, a function of the value of
/// `n` alone, so repeated calls always return chains of the same length, and
/// stays below twice the binary length of `n`.
pub fn find_shortest_chain(n: BigNum) -> (r: Vec<BigNum>)
    requires
        n@ >= 1,
    ensures
        valid_chain(vals(r@)),
        vals(r@)[0] == 1,
        vals(r@).last() == n@,
        r@.len() == search_len(n@),
        r@.len() < 2 * bit_len(n@),
{
    proof {
        crate::search::lemma_search_len_bound(n@);
    }
    let mut cache: HashMap<u64, Vec<BigNum>> = HashMap::new();
    crate::search::chain_for(&n, &mut cache)
}

/// Converts an addition chain into a series of steps.
///
/// Succeeds exactly when the chain starts at one and every later element is
/// the sum of an earlier pair; the step recorded for each element uses the
/// first such pair in scan order (larger index outermost).
pub fn build_steps(chain: Vec<BigNum>) -> (r: Result<Vec<Step>, Error>)
    ensures
        r is Ok <==> build_ok(vals(chain@)),
        r matches Ok(s) ==> s@ == steps_of(vals(chain@)),
        r matches Err(e) ==> e == Error::InvalidChain,
{
    let ghost c = vals(chain@);
    if chain.len() == 0 {
        return Err(Error::InvalidChain);
    }
    if !crate::big::big_is_one(&chain[0]) {
        proof {
            assert(c[0] == chain@[0]@);
        }
        return Err(Error::InvalidChain);
    }
    let mut steps: Vec<Step> = Vec::new();
    let mut i: usize = 1;
    while i < chain.len()
        invariant
            1 <= i <= chain@.len(),
            c == vals(chain@),
            c[0] == 1,
            steps@.len() == i - 1,
            forall|t: int| 1 <= t < i ==> #[trigger] find_pair(c, t) is Some,
            forall|t: int| 1 <= t < i ==> steps@[t - 1] == #[trigger] step_for(c, t),
        decreases chain@.len() - i,
    {
        match crate::steps::find_pair_exec(&chain, i) {
            Some(p) => {
                if p.0 == p.1 {
                    steps.push(Step::Double { index: p.0 });
                } else {
                    steps.push(Step::Add { left: p.0, right: p.1 });
                }
                proof {
                    assert(steps@.last() == step_for(c, i as int));
                }
            },
            None => {
                return Err(Error::InvalidChain);
            },
        }
        i = i + 1;
    }
    proof {
        assert(steps@ =~= steps_of(c));
    }
    Ok(steps)
}

} // verus!
