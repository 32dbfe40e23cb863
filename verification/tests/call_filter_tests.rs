use ethereum_adapter::call_filter::EthereumCallFilter;
use ethereum_adapter::types::{Address, EthereumCall, FunctionSelector, H256};

fn sel(b: u8) -> FunctionSelector {
    FunctionSelector { b0: b, b1: b, b2: b, b3: b }
}

fn selectors_of(filter: &EthereumCallFilter, addr: &Address) -> (u64, Vec<FunctionSelector>) {
    filter.get(addr).expect("address should be present")
}

#[test]
fn extending_ethereum_call_filter() {
    let mut base = EthereumCallFilter::from_entries(vec![
        (0, Address::from_low_u64_be(0), sel(0)),
        (1, Address::from_low_u64_be(1), sel(1)),
    ]);
    let extension = EthereumCallFilter::from_entries(vec![
        (2, Address::from_low_u64_be(0), sel(2)),
        (3, Address::from_low_u64_be(3), sel(3)),
    ]);
    base.extend(extension);

    let (start0, sels0) = selectors_of(&base, &Address::from_low_u64_be(0));
    assert_eq!(start0, 0);
    assert_eq!(sels0.len(), 2);
    assert!(sels0.contains(&sel(0)) && sels0.contains(&sel(2)));

    let (start3, sels3) = selectors_of(&base, &Address::from_low_u64_be(3));
    assert_eq!(start3, 3);
    assert_eq!(sels3, vec![sel(3)]);

    let (start1, sels1) = selectors_of(&base, &Address::from_low_u64_be(1));
    assert_eq!(start1, 1);
    assert_eq!(sels1, vec![sel(1)]);
}

#[test]
fn merge_min_start_block() {
    let mut base = EthereumCallFilter::from_entries(vec![(
        100,
        Address::from_low_u64_be(7),
        sel(1),
    )]);
    let other = EthereumCallFilter::from_entries(vec![(
        50,
        Address::from_low_u64_be(7),
        sel(2),
    )]);
    base.extend(other);
    let (start, sels) = selectors_of(&base, &Address::from_low_u64_be(7));
    assert_eq!(start, 50);
    assert_eq!(sels.len(), 2);
    assert!(sels.contains(&sel(1)) && sels.contains(&sel(2)));
}

#[test]
fn matches_on_selector() {
    let addr = Address::from_low_u64_be(9);
    let filter = EthereumCallFilter::from_entries(vec![(0, addr, sel(0xab))]);

    let matching = EthereumCall {
        to: addr,
        input: vec![0xab, 0xab, 0xab, 0xab, 0xff],
        block_number: 5,
        block_hash: H256::from_low_u64_be(5),
    };
    assert!(filter.matches(&matching));

    let wrong_selector = EthereumCall { input: vec![0xcd, 0xcd, 0xcd, 0xcd], ..matching.clone() };
    assert!(!filter.matches(&wrong_selector));

    let wrong_address = EthereumCall { to: Address::from_low_u64_be(10), ..matching.clone() };
    assert!(!filter.matches(&wrong_address));

    let short_input = EthereumCall { input: vec![0xab], ..matching };
    assert!(!filter.matches(&short_input));
}

#[test]
fn empty_filter_never_matches() {
    let filter = EthereumCallFilter::default();
    assert!(filter.is_empty());
    let call = EthereumCall {
        to: Address::from_low_u64_be(1),
        input: vec![0, 0, 0, 0],
        block_number: 1,
        block_hash: H256::from_low_u64_be(1),
    };
    assert!(!filter.matches(&call));
}

#[test]
fn start_blocks_skips_genesis() {
    let filter = EthereumCallFilter::from_entries(vec![
        (0, Address::from_low_u64_be(1), sel(1)),
        (7, Address::from_low_u64_be(2), sel(2)),
        (3, Address::from_low_u64_be(3), sel(3)),
    ]);
    let mut blocks = filter.start_blocks();
    blocks.sort();
    assert_eq!(blocks, vec![3, 7]);
}
