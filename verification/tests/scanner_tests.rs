use ethereum_adapter::adapter::{
    blocks_with_triggers, triggers_in_block, EthereumAdapter, EthereumAdapterError,
    EthereumContractCall, EthereumContractCallError,
};
use ethereum_adapter::block_filter::EthereumBlockFilter;
use ethereum_adapter::call_filter::EthereumCallFilter;
use ethereum_adapter::log_filter::EthereumLogFilter;
use ethereum_adapter::trigger::{BlockFinality, EthereumBlockTriggerType, EthereumTrigger};
use ethereum_adapter::types::{
    Address, DataSource, EthereumBlock, EthereumBlockPointer, EthereumCall,
    EthereumNetworkIdentifier, FunctionSelector, H256, LightEthereumBlock, Log, Mapping,
    MappingBlockHandler, Source,
};

fn hash_of(n: u64) -> H256 {
    H256::from_low_u64_be(n)
}

fn empty_block(n: u64) -> EthereumBlock {
    EthereumBlock { number: n, hash: hash_of(n), logs: vec![], calls: vec![] }
}

/// A test chain: serves blocks by number from a fixed list, with switches
/// to make individual scans fail.
struct MockChain {
    blocks: Vec<EthereumBlock>,
    logs: Vec<Log>,
    calls: Vec<EthereumCall>,
    fail_calls: bool,
    fail_logs_with_invalid_range: bool,
    serve_blocks_regardless_of_hash: bool,
}

impl MockChain {
    fn over_range(from: u64, to: u64) -> MockChain {
        MockChain {
            blocks: (from..=to).map(empty_block).collect(),
            logs: vec![],
            calls: vec![],
            fail_calls: false,
            fail_logs_with_invalid_range: false,
            serve_blocks_regardless_of_hash: false,
        }
    }
}

impl EthereumAdapter for MockChain {
    fn net_identifiers(&self) -> Result<EthereumNetworkIdentifier, EthereumAdapterError> {
        panic!("not used by these tests")
    }

    fn latest_block(&self) -> Result<LightEthereumBlock, EthereumAdapterError> {
        panic!("not used by these tests")
    }

    fn load_block(&self, _block_hash: H256) -> Result<LightEthereumBlock, EthereumAdapterError> {
        panic!("not used by these tests")
    }

    fn load_blocks(
        &self,
        block_hashes: Vec<H256>,
    ) -> Result<Vec<EthereumBlock>, EthereumAdapterError> {
        if self.serve_blocks_regardless_of_hash {
            return Ok(self.blocks.clone());
        }
        Ok(self
            .blocks
            .iter()
            .filter(|b| block_hashes.contains(&b.hash))
            .cloned()
            .collect())
    }

    fn block_range_to_ptrs(
        &self,
        from: u64,
        to: u64,
    ) -> Result<Vec<EthereumBlockPointer>, EthereumAdapterError> {
        Ok((from..=to)
            .map(|n| EthereumBlockPointer { hash: hash_of(n), number: n })
            .collect())
    }

    fn block_by_hash(
        &self,
        _block_hash: H256,
    ) -> Result<Option<LightEthereumBlock>, EthereumAdapterError> {
        panic!("not used by these tests")
    }

    fn load_full_block(
        &self,
        _block: LightEthereumBlock,
    ) -> Result<EthereumBlock, EthereumAdapterError> {
        panic!("not used by these tests")
    }

    fn block_pointer_from_number(
        &self,
        _block_number: u64,
    ) -> Result<EthereumBlockPointer, EthereumAdapterError> {
        panic!("not used by these tests")
    }

    fn block_hash_by_block_number(
        &self,
        block_number: u64,
    ) -> Result<Option<H256>, EthereumAdapterError> {
        Ok(Some(hash_of(block_number)))
    }

    fn is_on_main_chain(
        &self,
        _block_ptr: EthereumBlockPointer,
    ) -> Result<bool, EthereumAdapterError> {
        panic!("not used by these tests")
    }

    fn calls_in_block(
        &self,
        _block_number: u64,
        _block_hash: H256,
    ) -> Result<Vec<EthereumCall>, EthereumAdapterError> {
        panic!("not used by these tests")
    }

    fn logs_in_block_range(
        &self,
        _from: u64,
        _to: u64,
        filter: &EthereumLogFilter,
    ) -> Result<Vec<Log>, EthereumAdapterError> {
        if self.fail_logs_with_invalid_range {
            return Err(EthereumAdapterError::InvalidRange);
        }
        Ok(self.logs.iter().filter(|l| filter.matches(l)).cloned().collect())
    }

    fn calls_in_block_range(
        &self,
        _from: u64,
        _to: u64,
        filter: &EthereumCallFilter,
    ) -> Result<Vec<EthereumCall>, EthereumAdapterError> {
        if self.fail_calls {
            return Err(EthereumAdapterError::Unknown(String::from("trace scan failed")));
        }
        Ok(self.calls.iter().filter(|c| filter.matches(c)).cloned().collect())
    }

    fn contract_call(
        &self,
        _call: &EthereumContractCall,
    ) -> Result<Vec<ethabi::Token>, EthereumContractCallError> {
        panic!("not used by these tests")
    }
}

fn block_number_of(b: &ethereum_adapter::trigger::EthereumBlockWithTriggers) -> u64 {
    match &b.ethereum_block {
        BlockFinality::Final(inner) => inner.number,
        BlockFinality::NonFinal(inner) => inner.number,
    }
}

#[test]
fn empty_filters_single_block_range() {
    let chain = MockChain::over_range(100, 100);
    let result = blocks_with_triggers(
        &chain,
        100,
        100,
        &EthereumLogFilter::default(),
        &EthereumCallFilter::default(),
        &EthereumBlockFilter::default(),
    )
    .expect("scan should succeed");
    assert_eq!(result.len(), 1);
    assert_eq!(block_number_of(&result[0]), 100);
    assert!(result[0].triggers.is_empty());
}

#[test]
fn every_block_trigger() {
    let chain = MockChain::over_range(10, 12);
    let mut block_filter = EthereumBlockFilter::default();
    block_filter.extend(EthereumBlockFilter::from_data_sources(&vec![DataSource {
        source: Source { address: Some(Address::from_low_u64_be(1)), start_block: 0 },
        mapping: Mapping {
            event_handlers: vec![],
            call_handlers: vec![],
            block_handlers: vec![MappingBlockHandler { filter: None }],
        },
    }]));
    assert!(block_filter.trigger_every_block);

    let result = blocks_with_triggers(
        &chain,
        10,
        12,
        &EthereumLogFilter::default(),
        &EthereumCallFilter::default(),
        &block_filter,
    )
    .expect("scan should succeed");
    assert_eq!(result.len(), 3);
    for (i, expected) in (10u64..=12).enumerate() {
        assert_eq!(block_number_of(&result[i]), expected);
        assert_eq!(result[i].triggers.len(), 1);
        match &result[i].triggers[0] {
            EthereumTrigger::Block(ptr, EthereumBlockTriggerType::Every) => {
                assert_eq!(ptr.number, expected);
            }
            other => panic!("unexpected trigger: {:?}", other),
        }
    }
}

#[test]
fn failure_atomicity() {
    let mut chain = MockChain::over_range(1, 10);
    chain.fail_calls = true;
    let call_filter = EthereumCallFilter::from_entries(vec![(
        0,
        Address::from_low_u64_be(5),
        FunctionSelector { b0: 1, b1: 2, b2: 3, b3: 4 },
    )]);
    let result = blocks_with_triggers(
        &chain,
        1,
        10,
        &EthereumLogFilter::default(),
        &call_filter,
        &EthereumBlockFilter::default(),
    );
    assert!(matches!(result, Err(EthereumAdapterError::Unknown(_))));
}

#[test]
fn invalid_range_is_rejected() {
    let chain = MockChain::over_range(1, 10);
    let result = blocks_with_triggers(
        &chain,
        10,
        1,
        &EthereumLogFilter::default(),
        &EthereumCallFilter::default(),
        &EthereumBlockFilter::default(),
    );
    assert!(matches!(result, Err(EthereumAdapterError::InvalidRange)));
}

#[test]
fn log_triggers_collate_with_terminal_block() {
    let e1 = hash_of(0xe1);
    let emitter = Address::from_low_u64_be(7);
    let mut chain = MockChain::over_range(1, 10);
    chain.logs = vec![Log {
        address: emitter,
        topics: vec![e1],
        data: vec![0xff],
        block_number: 5,
        block_hash: hash_of(5),
    }];
    let log_filter = EthereumLogFilter::from_data_sources(&vec![DataSource {
        source: Source { address: Some(emitter), start_block: 0 },
        mapping: Mapping {
            event_handlers: vec![e1],
            call_handlers: vec![],
            block_handlers: vec![],
        },
    }]);

    let result = blocks_with_triggers(
        &chain,
        1,
        10,
        &log_filter,
        &EthereumCallFilter::default(),
        &EthereumBlockFilter::default(),
    )
    .expect("scan should succeed");
    assert_eq!(result.len(), 2);
    assert_eq!(block_number_of(&result[0]), 5);
    assert_eq!(result[0].triggers.len(), 1);
    assert!(matches!(result[0].triggers[0], EthereumTrigger::Log(_)));
    assert_eq!(block_number_of(&result[1]), 10);
    assert!(result[1].triggers.is_empty());
}

#[test]
fn out_of_range_log_is_a_protocol_violation() {
    let e1 = hash_of(0xe1);
    let emitter = Address::from_low_u64_be(7);
    let mut chain = MockChain::over_range(1, 10);
    chain.logs = vec![Log {
        address: emitter,
        topics: vec![e1],
        data: vec![],
        block_number: 50,
        block_hash: hash_of(50),
    }];
    let log_filter = EthereumLogFilter::from_data_sources(&vec![DataSource {
        source: Source { address: Some(emitter), start_block: 0 },
        mapping: Mapping {
            event_handlers: vec![e1],
            call_handlers: vec![],
            block_handlers: vec![],
        },
    }]);
    let result = blocks_with_triggers(
        &chain,
        1,
        10,
        &log_filter,
        &EthereumCallFilter::default(),
        &EthereumBlockFilter::default(),
    );
    assert!(matches!(result, Err(EthereumAdapterError::UpstreamProtocol)));
}

#[test]
fn triggers_in_block_orders_logs_calls_blocks() {
    let e1 = hash_of(0xe1);
    let emitter = Address::from_low_u64_be(7);
    let selector = FunctionSelector { b0: 1, b1: 2, b2: 3, b3: 4 };
    let block = EthereumBlock {
        number: 42,
        hash: hash_of(42),
        logs: vec![
            Log {
                address: emitter,
                topics: vec![e1],
                data: vec![],
                block_number: 42,
                block_hash: hash_of(42),
            },
            Log {
                address: Address::from_low_u64_be(99),
                topics: vec![e1],
                data: vec![],
                block_number: 42,
                block_hash: hash_of(42),
            },
        ],
        calls: vec![EthereumCall {
            to: emitter,
            input: vec![1, 2, 3, 4, 9],
            block_number: 42,
            block_hash: hash_of(42),
        }],
    };
    let log_filter = EthereumLogFilter::from_data_sources(&vec![DataSource {
        source: Source { address: Some(emitter), start_block: 0 },
        mapping: Mapping {
            event_handlers: vec![e1],
            call_handlers: vec![],
            block_handlers: vec![],
        },
    }]);
    let call_filter = EthereumCallFilter::from_entries(vec![(0, emitter, selector)]);
    let mut block_filter = EthereumBlockFilter::default();
    block_filter.extend(EthereumBlockFilter::from_data_sources(&vec![DataSource {
        source: Source { address: Some(emitter), start_block: 0 },
        mapping: Mapping {
            event_handlers: vec![],
            call_handlers: vec![],
            block_handlers: vec![MappingBlockHandler { filter: None }],
        },
    }]));

    let result = triggers_in_block(&block, &log_filter, &call_filter, &block_filter);
    // one matching log (the second log's address is not declared), one
    // matching call, then the every-block trigger
    assert_eq!(result.triggers.len(), 3);
    assert!(matches!(result.triggers[0], EthereumTrigger::Log(_)));
    assert!(matches!(result.triggers[1], EthereumTrigger::Call(_)));
    assert!(matches!(
        result.triggers[2],
        EthereumTrigger::Block(_, EthereumBlockTriggerType::Every)
    ));
    match &result.ethereum_block {
        BlockFinality::Final(b) => assert_eq!(b.number, 42),
        BlockFinality::NonFinal(_) => panic!("the single-block scan emits final blocks"),
    }
}

#[test]
fn vanished_block_is_unavailable() {
    // The terminal block is discovered but the node cannot serve its body.
    let mut chain = MockChain::over_range(100, 100);
    chain.blocks.clear();
    let result = blocks_with_triggers(
        &chain,
        100,
        100,
        &EthereumLogFilter::default(),
        &EthereumCallFilter::default(),
        &EthereumBlockFilter::default(),
    );
    assert!(matches!(result, Err(EthereumAdapterError::BlockUnavailable(_))));
}

#[test]
fn upstream_invalid_range_answer_is_a_protocol_violation() {
    // A node may not claim the caller's own range error: the scan
    // reclassifies it instead of forwarding it.
    let e1 = hash_of(0xe1);
    let mut chain = MockChain::over_range(1, 10);
    chain.fail_logs_with_invalid_range = true;
    let log_filter = EthereumLogFilter::from_data_sources(&vec![DataSource {
        source: Source { address: None, start_block: 0 },
        mapping: Mapping {
            event_handlers: vec![e1],
            call_handlers: vec![],
            block_handlers: vec![],
        },
    }]);
    let result = blocks_with_triggers(
        &chain,
        1,
        10,
        &log_filter,
        &EthereumCallFilter::default(),
        &EthereumBlockFilter::default(),
    );
    assert!(matches!(result, Err(EthereumAdapterError::UpstreamProtocol)));
}

#[test]
fn terminal_block_with_wrong_hash_is_rejected() {
    // The node serves a block numbered `to` whose hash is not the pinned
    // terminal hash: the scan reports the pinned block as unavailable.
    let mut chain = MockChain::over_range(100, 100);
    chain.serve_blocks_regardless_of_hash = true;
    chain.blocks = vec![EthereumBlock {
        number: 100,
        hash: hash_of(0xbad),
        logs: vec![],
        calls: vec![],
    }];
    let result = blocks_with_triggers(
        &chain,
        100,
        100,
        &EthereumLogFilter::default(),
        &EthereumCallFilter::default(),
        &EthereumBlockFilter::default(),
    );
    match result {
        Err(EthereumAdapterError::BlockUnavailable(h)) => assert_eq!(h, hash_of(100)),
        other => panic!("expected the pinned terminal block to be unavailable, got {:?}", other),
    }
}
