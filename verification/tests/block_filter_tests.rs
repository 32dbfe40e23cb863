use ethereum_adapter::block_filter::EthereumBlockFilter;
use ethereum_adapter::call_filter::EthereumCallFilter;
use ethereum_adapter::types::{
    Address, BlockHandlerFilter, DataSource, Mapping, MappingBlockHandler, Source,
};

fn ds_with_block_handlers(
    address: Option<Address>,
    start_block: u64,
    handlers: Vec<MappingBlockHandler>,
) -> DataSource {
    DataSource {
        source: Source { address, start_block },
        mapping: Mapping {
            event_handlers: vec![],
            call_handlers: vec![],
            block_handlers: handlers,
        },
    }
}

#[test]
fn from_data_sources_registers_call_handlers_and_every_block() {
    let a = Address::from_low_u64_be(1);
    let b = Address::from_low_u64_be(2);
    let sources = vec![
        ds_with_block_handlers(
            Some(a),
            100,
            vec![MappingBlockHandler { filter: Some(BlockHandlerFilter::Call) }],
        ),
        ds_with_block_handlers(Some(b), 5, vec![MappingBlockHandler { filter: None }]),
        // no address: its filterless handler still counts for every-block
        ds_with_block_handlers(None, 0, vec![MappingBlockHandler { filter: None }]),
    ];
    let filter = EthereumBlockFilter::from_data_sources(&sources);
    assert!(filter.trigger_every_block);
    assert_eq!(filter.contract_addresses(), &vec![(100, a)]);
}

#[test]
fn extend_unions_addresses_with_min_start_block() {
    let a = Address::from_low_u64_be(1);
    let b = Address::from_low_u64_be(2);
    let mut left = EthereumBlockFilter::from_data_sources(&vec![ds_with_block_handlers(
        Some(a),
        100,
        vec![MappingBlockHandler { filter: Some(BlockHandlerFilter::Call) }],
    )]);
    let right = EthereumBlockFilter::from_data_sources(&vec![
        ds_with_block_handlers(
            Some(a),
            50,
            vec![MappingBlockHandler { filter: Some(BlockHandlerFilter::Call) }],
        ),
        ds_with_block_handlers(
            Some(b),
            7,
            vec![MappingBlockHandler { filter: Some(BlockHandlerFilter::Call) }],
        ),
    ]);
    left.extend(right);
    assert!(!left.trigger_every_block);
    let mut entries = left.contract_addresses().clone();
    entries.sort();
    assert_eq!(entries, vec![(7, b), (50, a)]);

    let mut starts = left.start_blocks();
    starts.sort();
    assert_eq!(starts, vec![7, 50]);
}

#[test]
fn extend_ors_trigger_every_block() {
    let mut left = EthereumBlockFilter::default();
    assert!(!left.trigger_every_block);
    let right = EthereumBlockFilter::from_data_sources(&vec![ds_with_block_handlers(
        Some(Address::from_low_u64_be(1)),
        0,
        vec![MappingBlockHandler { filter: None }],
    )]);
    assert!(right.trigger_every_block);
    left.extend(right);
    assert!(left.trigger_every_block);
}

#[test]
fn derived_call_filter_keeps_min_start_blocks() {
    // Deriving a call filter from two merged block filters keys each
    // address at the elementwise minimum start block, with no selectors.
    let a = Address::from_low_u64_be(1);
    let call_handler = || MappingBlockHandler { filter: Some(BlockHandlerFilter::Call) };
    let mut left = EthereumBlockFilter::from_data_sources(&vec![ds_with_block_handlers(
        Some(a),
        100,
        vec![call_handler()],
    )]);
    let right = EthereumBlockFilter::from_data_sources(&vec![ds_with_block_handlers(
        Some(a),
        50,
        vec![call_handler()],
    )]);
    left.extend(right);
    let derived = EthereumCallFilter::from_block_filter(&left);
    let (start, sels) = derived.get(&a).expect("address should be carried over");
    assert_eq!(start, 50);
    assert!(sels.is_empty());
}

#[test]
fn every_block_needs_no_address() {
    // A filterless block handler asks for a trigger on every block even
    // when its data source names no address; a Call-filtered handler
    // registers nothing without one.
    let sources = vec![ds_with_block_handlers(
        None,
        0,
        vec![
            MappingBlockHandler { filter: None },
            MappingBlockHandler { filter: Some(BlockHandlerFilter::Call) },
        ],
    )];
    let filter = EthereumBlockFilter::from_data_sources(&sources);
    assert!(filter.trigger_every_block);
    assert!(filter.contract_addresses().is_empty());
}
