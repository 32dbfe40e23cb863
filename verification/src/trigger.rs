use vstd::prelude::*;

use crate::types::{Address, EthereumBlock, EthereumBlockPointer, EthereumCall, H256, Log};

verus! {

/// Why a block-level trigger fired: for every block, or because the block
/// holds a call to a watched address.
#[derive(Clone, Copy, Debug, PartialEq, Eq, Structural)]
pub enum EthereumBlockTriggerType {
    Every,
    WithCallTo(Address),
}

/// A discovered on-chain trigger: a matching log, a matching call, or a
/// block-level trigger at a block pointer.
#[derive(Clone, Debug)]
pub enum EthereumTrigger {
    Log(Log),
    Call(EthereumCall),
    Block(EthereumBlockPointer, EthereumBlockTriggerType),
}

impl EthereumTrigger {
    /// The number of the block the trigger was found in.
    pub open spec fn spec_block_number(self) -> u64 {
        match self {
            EthereumTrigger::Log(log) => log.block_number,
            EthereumTrigger::Call(call) => call.block_number,
            EthereumTrigger::Block(ptr, _) => ptr.number,
        }
    }

    /// The hash of the block the trigger was found in.
    pub open spec fn spec_block_hash(self) -> H256 {
        match self {
            EthereumTrigger::Log(log) => log.block_hash,
            EthereumTrigger::Call(call) => call.block_hash,
            EthereumTrigger::Block(ptr, _) => ptr.hash,
        }
    }

    /// The rank of the trigger's kind in the within-block order: all logs
    /// come before all calls, which come before all block triggers.
    pub open spec fn kind_rank(self) -> int {
        match self {
            EthereumTrigger::Log(_) => 0,
            EthereumTrigger::Call(_) => 1,
            EthereumTrigger::Block(_, _) => 2,
        }
    }

    pub fn block_number(&self) -> (r: u64)
        ensures
            r == self.spec_block_number(),
    {
        match self {
            EthereumTrigger::Log(log) => log.block_number,
            EthereumTrigger::Call(call) => call.block_number,
            EthereumTrigger::Block(ptr, _) => ptr.number,
        }
    }

    pub fn block_hash(&self) -> (r: H256)
        ensures
            r == self.spec_block_hash(),
    {
        match self {
            EthereumTrigger::Log(log) => log.block_hash,
            EthereumTrigger::Call(call) => call.block_hash,
            EthereumTrigger::Block(ptr, _) => ptr.hash,
        }
    }
}

/// Whether a block is considered final. This core only emits `Final`
/// blocks: it scans ranges whose upper bound the caller holds to be final.
#[derive(Clone, Debug)]
pub enum BlockFinality {
    Final(EthereumBlock),
    NonFinal(EthereumBlock),
}

impl BlockFinality {
    /// The underlying block.
    pub open spec fn spec_block(self) -> EthereumBlock {
        match self {
            BlockFinality::Final(b) => b,
            BlockFinality::NonFinal(b) => b,
        }
    }

    pub open spec fn spec_number(self) -> u64 {
        self.spec_block().number
    }

    pub open spec fn spec_hash(self) -> H256 {
        self.spec_block().hash
    }
}

/// A block together with all the triggers found in it. Materialized only
/// by the block scan; the trigger list is empty only for the terminal
/// block of a range.
#[derive(Clone, Debug)]
pub struct EthereumBlockWithTriggers {
    pub ethereum_block: BlockFinality,
    pub triggers: Vec<EthereumTrigger>,
}

impl EthereumBlockWithTriggers {
    pub open spec fn spec_number(self) -> u64 {
        self.ethereum_block.spec_number()
    }

    pub fn new(triggers: Vec<EthereumTrigger>, ethereum_block: BlockFinality) -> (r: Self)
        ensures
            r.triggers == triggers,
            r.ethereum_block == ethereum_block,
    {
        EthereumBlockWithTriggers { ethereum_block, triggers }
    }
}

} // verus!
