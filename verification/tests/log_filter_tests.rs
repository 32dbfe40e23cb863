use ethereum_adapter::log_filter::EthereumLogFilter;
use ethereum_adapter::types::{
    Address, DataSource, H2048, H256, Log, Mapping, Source,
};

fn data_source(address: Option<Address>, events: Vec<H256>) -> DataSource {
    DataSource {
        source: Source { address, start_block: 0 },
        mapping: Mapping { event_handlers: events, call_handlers: vec![], block_handlers: vec![] },
    }
}

fn log_at(address: Address, topic0: H256, block: u64) -> Log {
    Log {
        address,
        topics: vec![topic0],
        data: vec![],
        block_number: block,
        block_hash: H256::from_low_u64_be(block),
    }
}

#[test]
fn wildcard_event_matches_any_address() {
    let e1 = H256::from_low_u64_be(1);
    let e2 = H256::from_low_u64_be(2);
    let filter = EthereumLogFilter::from_data_sources(&vec![data_source(None, vec![e1])]);

    let matching = log_at(Address::from_low_u64_be(77), e1, 50);
    assert!(filter.matches(&matching));
    let other_address = log_at(Address::from_low_u64_be(78), e1, 50);
    assert!(filter.matches(&other_address));

    let wrong_event = log_at(Address::from_low_u64_be(77), e2, 50);
    assert!(!filter.matches(&wrong_event));
}

#[test]
fn edge_matches_the_declared_address_only() {
    let e1 = H256::from_low_u64_be(1);
    let c1 = Address::from_low_u64_be(10);
    let filter = EthereumLogFilter::from_data_sources(&vec![data_source(Some(c1), vec![e1])]);

    assert!(filter.matches(&log_at(c1, e1, 3)));
    assert!(!filter.matches(&log_at(Address::from_low_u64_be(11), e1, 3)));
}

#[test]
fn log_without_topics_never_matches() {
    let e1 = H256::from_low_u64_be(1);
    let c1 = Address::from_low_u64_be(10);
    let filter = EthereumLogFilter::from_data_sources(&vec![data_source(Some(c1), vec![e1])]);
    let log = Log {
        address: c1,
        topics: vec![],
        data: vec![],
        block_number: 1,
        block_hash: H256::from_low_u64_be(1),
    };
    assert!(!filter.matches(&log));
}

#[test]
fn extend_is_commutative_and_idempotent_in_effect() {
    let e1 = H256::from_low_u64_be(1);
    let e2 = H256::from_low_u64_be(2);
    let c1 = Address::from_low_u64_be(10);
    let c2 = Address::from_low_u64_be(20);
    let a = EthereumLogFilter::from_data_sources(&vec![data_source(Some(c1), vec![e1])]);
    let b = EthereumLogFilter::from_data_sources(&vec![
        data_source(Some(c2), vec![e2]),
        data_source(None, vec![e2]),
    ]);

    let mut ab = a.clone();
    ab.extend(b.clone());
    let mut ba = b.clone();
    ba.extend(a.clone());
    let mut aa = a.clone();
    aa.extend(a.clone());

    let samples = vec![
        log_at(c1, e1, 1),
        log_at(c1, e2, 1),
        log_at(c2, e2, 1),
        log_at(c2, e1, 1),
        log_at(Address::from_low_u64_be(99), e2, 1),
    ];
    for log in &samples {
        assert_eq!(ab.matches(log), ba.matches(log));
        assert_eq!(aa.matches(log), a.matches(log));
    }
}

#[test]
fn empty_filter_and_bloom() {
    let filter = EthereumLogFilter::default();
    assert!(filter.is_empty());
    let built = EthereumLogFilter::from_data_sources(&vec![]);
    assert!(built.is_empty());

    let e1 = H256::from_low_u64_be(1);
    let nonempty = EthereumLogFilter::from_data_sources(&vec![data_source(None, vec![e1])]);
    assert!(!nonempty.is_empty());

    // The bloom prefilter is conservative: it never rules a block out.
    let bloom = H2048 { bytes: vec![0u8; 256] };
    assert!(nonempty.check_bloom(&bloom));
    assert!(filter.check_bloom(&bloom));
}
