use ethereum_adapter::log_filter::{EthGetLogsFilter, EthereumLogFilter};
use ethereum_adapter::types::{Address, DataSource, H256, Log, Mapping, Source};

fn data_source(address: Option<Address>, events: Vec<H256>) -> DataSource {
    DataSource {
        source: Source { address, start_block: 0 },
        mapping: Mapping { event_handlers: events, call_handlers: vec![], block_handlers: vec![] },
    }
}

fn window_matches(w: &EthGetLogsFilter, address: Address, topic0: H256) -> bool {
    let log = Log {
        address,
        topics: vec![topic0],
        data: vec![],
        block_number: 1,
        block_hash: H256::from_low_u64_be(1),
    };
    (w.contracts.is_empty() || w.contracts.contains(&address))
        && w.event_signatures.contains(&log.topics[0])
}

#[test]
fn planner_compression() {
    // Three contracts, each subscribed to the same two events: the greedy
    // cover needs at most two windows, never one broad window.
    let e1 = H256::from_low_u64_be(1);
    let e2 = H256::from_low_u64_be(2);
    let contracts = vec![
        Address::from_low_u64_be(10),
        Address::from_low_u64_be(20),
        Address::from_low_u64_be(30),
    ];
    let sources: Vec<DataSource> = contracts
        .iter()
        .map(|c| data_source(Some(*c), vec![e1, e2]))
        .collect();
    let filter = EthereumLogFilter::from_data_sources(&sources);
    let windows = filter.eth_get_logs_filters();

    assert!(windows.len() <= 2, "expected at most 2 windows, got {}", windows.len());
    for w in &windows {
        assert!(
            w.contracts.len() <= 1 || w.event_signatures.len() <= 1,
            "broad window: {} contracts x {} events",
            w.contracts.len(),
            w.event_signatures.len()
        );
    }
    // No false negatives: every declared pair is matched by some window.
    for c in &contracts {
        for e in [e1, e2] {
            assert!(windows.iter().any(|w| window_matches(w, *c, e)));
        }
    }
    // Precision: an undeclared contract is not matched by any window.
    for e in [e1, e2] {
        assert!(!windows
            .iter()
            .any(|w| window_matches(w, Address::from_low_u64_be(40), e)));
    }
}

#[test]
fn planner_emits_wildcard_windows() {
    let e1 = H256::from_low_u64_be(1);
    let filter = EthereumLogFilter::from_data_sources(&vec![data_source(None, vec![e1])]);
    let windows = filter.eth_get_logs_filters();
    assert_eq!(windows.len(), 1);
    assert!(windows[0].contracts.is_empty());
    assert_eq!(windows[0].event_signatures, vec![e1]);
}

#[test]
fn planner_covers_a_star_by_its_center() {
    // One event shared by many contracts: one window with that event and
    // all the contracts covers everything.
    let e1 = H256::from_low_u64_be(1);
    let contracts: Vec<Address> = (1..=5).map(Address::from_low_u64_be).collect();
    let sources: Vec<DataSource> = contracts
        .iter()
        .map(|c| data_source(Some(*c), vec![e1]))
        .collect();
    let filter = EthereumLogFilter::from_data_sources(&sources);
    let windows = filter.eth_get_logs_filters();
    assert_eq!(windows.len(), 1);
    assert_eq!(windows[0].event_signatures, vec![e1]);
    assert_eq!(windows[0].contracts.len(), 5);
}

#[test]
fn planner_covers_single_contract_by_its_events() {
    let c = Address::from_low_u64_be(10);
    let events: Vec<H256> = (1..=4).map(H256::from_low_u64_be).collect();
    let filter =
        EthereumLogFilter::from_data_sources(&vec![data_source(Some(c), events.clone())]);
    let windows = filter.eth_get_logs_filters();
    assert_eq!(windows.len(), 1);
    assert_eq!(windows[0].contracts, vec![c]);
    assert_eq!(windows[0].event_signatures.len(), 4);
    for e in &events {
        assert!(windows[0].event_signatures.contains(e));
    }
}

#[test]
fn planner_of_empty_filter_is_empty() {
    let filter = EthereumLogFilter::default();
    let windows = filter.eth_get_logs_filters();
    assert!(windows.is_empty());
}

#[test]
fn planner_emits_one_window_per_wildcard() {
    let e1 = H256::from_low_u64_be(1);
    let e2 = H256::from_low_u64_be(2);
    // E1 is declared twice; it still gets exactly one window.
    let filter = EthereumLogFilter::from_data_sources(&vec![
        data_source(None, vec![e1, e2]),
        data_source(None, vec![e1]),
    ]);
    let windows = filter.eth_get_logs_filters();
    assert_eq!(windows.len(), 2);
    for w in &windows {
        assert!(w.contracts.is_empty());
        assert_eq!(w.event_signatures.len(), 1);
    }
    assert_ne!(windows[0].event_signatures[0], windows[1].event_signatures[0]);
    let emitted: Vec<H256> = windows.iter().map(|w| w.event_signatures[0]).collect();
    assert!(emitted.contains(&e1) && emitted.contains(&e2));
}
