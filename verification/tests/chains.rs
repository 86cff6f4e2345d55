use addchain::big::BigNum;
use addchain::bounds::lower_bound;
use addchain::{build_steps, find_shortest_chain, Error, Step};

fn nums(xs: &[u64]) -> Vec<BigNum> {
    let mut v = Vec::new();
    for &x in xs {
        v.push(BigNum::from_u64(x));
    }
    v
}

fn values_of(chain: &Vec<BigNum>) -> Vec<u64> {
    let mut v = Vec::new();
    for b in chain {
        v.push(b.to_u64().expect("chain element fits in u64"));
    }
    v
}

fn replay_steps(steps: &Vec<Step>) -> Vec<u64> {
    let mut rep = vec![1u64];
    for s in steps {
        match s {
            Step::Double { index } => {
                let x = rep[*index];
                rep.push(2 * x);
            }
            Step::Add { left, right } => {
                let x = rep[*left] + rep[*right];
                rep.push(x);
            }
        }
    }
    rep
}

#[test]
fn steps_from_valid_chains() {
    assert_eq!(
        build_steps(nums(&[1, 2, 3])),
        Ok(vec![
            Step::Double { index: 0 },
            Step::Add { left: 1, right: 0 }
        ]),
    );

    assert_eq!(
        build_steps(nums(&[1, 2, 4, 8])),
        Ok(vec![
            Step::Double { index: 0 },
            Step::Double { index: 1 },
            Step::Double { index: 2 },
        ]),
    );

    assert_eq!(
        build_steps(nums(&[1, 2, 3, 6, 7, 10, 20, 40, 80, 87])),
        Ok(vec![
            Step::Double { index: 0 },
            Step::Add { left: 1, right: 0 },
            Step::Double { index: 2 },
            Step::Add { left: 3, right: 0 },
            Step::Add { left: 4, right: 2 },
            Step::Double { index: 5 },
            Step::Double { index: 6 },
            Step::Double { index: 7 },
            Step::Add { left: 8, right: 4 },
        ]),
    );
}

#[test]
fn invalid_chains() {
    // First element is not one.
    assert_eq!(build_steps(nums(&[2, 3])), Err(Error::InvalidChain));

    // Missing an element of a pair.
    assert_eq!(build_steps(nums(&[1, 4, 8])), Err(Error::InvalidChain));
}

#[test]
fn chain_endpoints_and_length_bound() {
    for &n in &[1u64, 2, 3, 7, 15, 23, 27, 87, 1000, 12345, 0xdead_beef] {
        let chain = find_shortest_chain(BigNum::from_u64(n));
        let vals = values_of(&chain);
        assert_eq!(vals[0], 1);
        assert_eq!(*vals.last().unwrap(), n);
        let bit_len = (64 - n.leading_zeros()) as usize;
        assert!(chain.len() < 2 * bit_len);
        for i in 1..vals.len() {
            assert!(vals[i - 1] < vals[i]);
        }
    }
}

#[test]
fn chain_of_one_is_singleton() {
    let chain = find_shortest_chain(BigNum::from_u64(1));
    assert_eq!(values_of(&chain), vec![1]);
}

#[test]
fn chain_of_power_of_two_is_doublings() {
    let chain = find_shortest_chain(BigNum::from_u64(8));
    assert_eq!(values_of(&chain), vec![1, 2, 4, 8]);
}

#[test]
fn chains_replay_to_themselves() {
    for &n in &[2u64, 15, 87, 1 << 20, 999_999_999] {
        let chain = find_shortest_chain(BigNum::from_u64(n));
        let vals = values_of(&chain);
        let steps = build_steps(chain).expect("engine chains decompose");
        assert_eq!(steps.len(), vals.len() - 1);
        assert_eq!(replay_steps(&steps), vals);
    }
}

#[test]
fn table_entries_are_shorter_than_binary() {
    // Binary decomposition of 15 would give 1, 2, 3, 6, 7, 14, 15.
    let chain = find_shortest_chain(BigNum::from_u64(15));
    assert_eq!(chain.len(), 6);
    assert_eq!(*values_of(&chain).last().unwrap(), 15);

    let chain = find_shortest_chain(BigNum::from_u64(23));
    assert_eq!(chain.len(), 7);
    let chain = find_shortest_chain(BigNum::from_u64(27));
    assert_eq!(chain.len(), 7);
}

#[test]
fn factor_composition_beats_plain_reduction() {
    // 45 = 3 * 15: the chain for 15 continued by the structure of [1, 2, 3].
    let chain = find_shortest_chain(BigNum::from_u64(45));
    assert_eq!(values_of(&chain), vec![1, 2, 3, 6, 12, 15, 30, 45]);

    // 125 = 5 * 25: the chain for 25 continued by the structure of [1, 2, 4, 5].
    let chain = find_shortest_chain(BigNum::from_u64(125));
    assert_eq!(chain.len(), 10);
    assert_eq!(*values_of(&chain).last().unwrap(), 125);
}

#[test]
fn result_length_is_deterministic() {
    for &n in &[6u64, 87, 12345, 0xdead_beef] {
        let a = find_shortest_chain(BigNum::from_u64(n));
        let b = find_shortest_chain(BigNum::from_u64(n));
        assert_eq!(a.len(), b.len());
    }
}

#[test]
fn wide_target_beyond_u64() {
    // 2^64: nine little-endian digits.
    let mut bytes = vec![0u8; 8];
    bytes.push(1);
    let n = BigNum::from_bytes_le(bytes);
    assert_eq!(n.to_u64(), None);
    let chain = find_shortest_chain(n);
    // 1 followed by 64 doublings.
    assert_eq!(chain.len(), 65);
    let steps = build_steps(chain).expect("engine chains decompose");
    for (i, s) in steps.iter().enumerate() {
        assert_eq!(*s, Step::Double { index: i });
    }
}

#[test]
fn lower_bound_values() {
    assert_eq!(lower_bound(&BigNum::from_u64(1)), 0);
    assert_eq!(lower_bound(&BigNum::from_u64(2)), 1);
    assert_eq!(lower_bound(&BigNum::from_u64(8)), 3);
    assert_eq!(lower_bound(&BigNum::from_u64(87)), 6);
}

#[test]
fn u64_round_trip() {
    for &n in &[0u64, 1, 255, 256, 87, u64::MAX] {
        assert_eq!(BigNum::from_u64(n).to_u64(), Some(n));
    }
}
