use ethereum_adapter::call_filter::EthereumCallFilter;
use ethereum_adapter::keccak::function_selector;
use ethereum_adapter::types::{
    Address, DataSource, EthereumCall, FunctionSelector, H256, Mapping, MappingCallHandler, Source,
};

#[test]
fn transfer_selector_is_keccak_prefix() {
    // keccak-256("transfer(address,uint256)") starts with a9 05 9c bb.
    let sig = b"transfer(address,uint256)".to_vec();
    let selector = function_selector(&sig);
    assert_eq!(selector, FunctionSelector { b0: 0xa9, b1: 0x05, b2: 0x9c, b3: 0xbb });
}

#[test]
fn balance_of_selector_is_keccak_prefix() {
    // keccak-256("balanceOf(address)") starts with 70 a0 82 31.
    let sig = b"balanceOf(address)".to_vec();
    let selector = function_selector(&sig);
    assert_eq!(selector, FunctionSelector { b0: 0x70, b1: 0xa0, b2: 0x82, b3: 0x31 });
}

#[test]
fn call_filter_from_data_sources_uses_selectors() {
    let addr = Address::from_low_u64_be(42);
    let ds = DataSource {
        source: Source { address: Some(addr), start_block: 12 },
        mapping: Mapping {
            event_handlers: vec![],
            call_handlers: vec![MappingCallHandler {
                function: b"transfer(address,uint256)".to_vec(),
            }],
            block_handlers: vec![],
        },
    };
    let filter = EthereumCallFilter::from_data_sources(&vec![ds]);
    assert!(!filter.is_empty());

    let matching = EthereumCall {
        to: addr,
        input: vec![0xa9, 0x05, 0x9c, 0xbb, 0x00, 0x11],
        block_number: 20,
        block_hash: H256::from_low_u64_be(20),
    };
    assert!(filter.matches(&matching));

    let other_function = EthereumCall { input: vec![0x70, 0xa0, 0x82, 0x31], ..matching };
    assert!(!filter.matches(&other_function));

    let (start, sels) = filter.get(&addr).expect("address should be keyed");
    assert_eq!(start, 12);
    assert_eq!(sels, vec![FunctionSelector { b0: 0xa9, b1: 0x05, b2: 0x9c, b3: 0xbb }]);
}
