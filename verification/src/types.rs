use vstd::prelude::*;

verus! {

/// A 20-byte contract address, stored big-endian as three machine words:
/// `hi` holds bytes 0..4, `mid` bytes 4..12 and `lo` bytes 12..20.
#[derive(Clone, Copy, Debug, PartialEq, Eq, PartialOrd, Ord, Structural)]
pub struct Address {
    pub hi: u32,
    pub mid: u64,
    pub lo: u64,
}

impl Address {
    /// The address whose trailing 8 bytes hold `v` big-endian and whose
    /// leading 12 bytes are zero.
    pub fn from_low_u64_be(v: u64) -> (r: Address)
        ensures
            r == (Address { hi: 0u32, mid: 0u64, lo: v }),
    {
        Address { hi: 0, mid: 0, lo: v }
    }
}

/// A 32-byte identifier (a block hash or an event signature), stored
/// big-endian as four words: `w0` holds bytes 0..8, ..., `w3` bytes 24..32.
#[derive(Clone, Copy, Debug, PartialEq, Eq, PartialOrd, Ord, Structural)]
pub struct H256 {
    pub w0: u64,
    pub w1: u64,
    pub w2: u64,
    pub w3: u64,
}

impl H256 {
    /// The hash whose trailing 8 bytes hold `v` big-endian and whose leading
    /// 24 bytes are zero.
    pub fn from_low_u64_be(v: u64) -> (r: H256)
        ensures
            r == (H256 { w0: 0u64, w1: 0u64, w2: 0u64, w3: v }),
    {
        H256 { w0: 0, w1: 0, w2: 0, w3: v }
    }
}

/// An event signature: the keccak-256 hash of the canonical event
/// declaration, carried as the first topic of a matching log.
pub type EventSignature = H256;

/// The leading 4 bytes of the keccak-256 hash of a canonical function
/// signature, identifying a contract function in call input data.
#[derive(Clone, Copy, Debug, PartialEq, Eq, Structural)]
pub struct FunctionSelector {
    pub b0: u8,
    pub b1: u8,
    pub b2: u8,
    pub b3: u8,
}

/// A 2048-bit log bloom, as the 256 bytes of a block header's bloom field.
#[derive(Clone, Debug)]
pub struct H2048 {
    pub bytes: Vec<u8>,
}

/// A block pointer: a height together with the hash that pins it to one
/// chain. The number alone is not unique across reorgs.
#[derive(Clone, Copy, Debug, PartialEq, Eq, Structural)]
pub struct EthereumBlockPointer {
    pub hash: H256,
    pub number: u64,
}

/// A log emitted by a contract, as reported by the chain node.
#[derive(Clone, Debug)]
pub struct Log {
    /// The emitting contract.
    pub address: Address,
    /// Indexed topics; the first one is the event signature.
    pub topics: Vec<H256>,
    /// Unindexed payload bytes.
    pub data: Vec<u8>,
    /// The block the log was found in.
    pub block_number: u64,
    pub block_hash: H256,
}

/// A call to a contract observed in a block's traces.
#[derive(Clone, Debug)]
pub struct EthereumCall {
    /// The called contract.
    pub to: Address,
    /// Call input data; the leading 4 bytes select the function.
    pub input: Vec<u8>,
    /// The block the call was found in.
    pub block_number: u64,
    pub block_hash: H256,
}

/// A block header's identifying fields, without bodies or receipts.
#[derive(Clone, Copy, Debug, PartialEq, Eq, Structural)]
pub struct LightEthereumBlock {
    pub number: u64,
    pub hash: H256,
}

/// A block with the per-block data the trigger scan reads: the logs of its
/// receipts and the calls of its traces.
#[derive(Clone, Debug)]
pub struct EthereumBlock {
    pub number: u64,
    pub hash: H256,
    pub logs: Vec<Log>,
    pub calls: Vec<EthereumCall>,
}

impl EthereumBlock {
    /// The block's own contents point back at the block itself.
    pub open spec fn wf(self) -> bool {
        &&& forall|i: int|
            0 <= i < self.logs@.len() ==> (#[trigger] self.logs@[i]).block_number
                == self.number && self.logs@[i].block_hash == self.hash
        &&& forall|i: int|
            0 <= i < self.calls@.len() ==> (#[trigger] self.calls@[i]).block_number
                == self.number && self.calls@[i].block_hash == self.hash
    }

    pub open spec fn block_ptr(self) -> EthereumBlockPointer {
        EthereumBlockPointer { hash: self.hash, number: self.number }
    }
}

/// Which static part of a data source declared an interest.
#[derive(Clone, Copy, Debug, PartialEq, Eq, Structural)]
pub enum BlockHandlerFilter {
    /// Trigger only on blocks holding a call to the data source's contract.
    Call,
}

/// A declared handler for block-level triggers.
#[derive(Clone, Debug)]
pub struct MappingBlockHandler {
    /// `None` asks for a trigger on every block.
    pub filter: Option<BlockHandlerFilter>,
}

/// A declared handler for calls to one function of the contract, named by
/// the bytes of its canonical signature string.
#[derive(Clone, Debug)]
pub struct MappingCallHandler {
    pub function: Vec<u8>,
}

/// The static source section of a data source: which contract it watches
/// and from which block on.
#[derive(Clone, Debug)]
pub struct Source {
    /// `None` means the events are of interest from any address.
    pub address: Option<Address>,
    pub start_block: u64,
}

/// The handlers a data source declares.
#[derive(Clone, Debug)]
pub struct Mapping {
    pub event_handlers: Vec<EventSignature>,
    pub call_handlers: Vec<MappingCallHandler>,
    pub block_handlers: Vec<MappingBlockHandler>,
}

/// One declared unit of interest: a contract and the handlers watching it.
#[derive(Clone, Debug)]
pub struct DataSource {
    pub source: Source,
    pub mapping: Mapping,
}

/// A collection of attributes that (kind of) uniquely identify an Ethereum
/// blockchain.
#[derive(Clone, Debug)]
pub struct EthereumNetworkIdentifier {
    pub net_version: String,
    pub genesis_block_hash: H256,
}

/// A request for the state of a contract at a specific block hash and
/// address.
#[derive(Clone, Copy, Debug, PartialEq, Eq, Structural)]
pub struct EthereumContractStateRequest {
    pub address: Address,
    pub block_hash: H256,
}

/// An error that can occur when trying to obtain the state of a contract.
#[derive(Clone, Copy, Debug, PartialEq, Eq, Structural)]
pub enum EthereumContractStateError {
    Failed,
}

/// Representation of an Ethereum contract state.
#[derive(Clone, Debug)]
pub struct EthereumContractState {
    pub address: Address,
    pub block_hash: H256,
    pub data: Vec<u8>,
}

} // verus!
