use vstd::prelude::*;

use crate::block_filter::EthereumBlockFilter;
use crate::call_filter::EthereumCallFilter;
use crate::log_filter::EthereumLogFilter;
use crate::trigger::{
    BlockFinality, EthereumBlockTriggerType, EthereumBlockWithTriggers, EthereumTrigger,
};
use crate::types::{
    EthereumBlock, EthereumBlockPointer, EthereumCall, EthereumNetworkIdentifier, H256,
    LightEthereumBlock, Log,
};

verus! {

/// ABI token values decoded from or encoded for a contract call. Carried
/// through opaquely; this core does not interpret them.
#[verifier::external_type_specification]
#[verifier::external_body]
pub struct ExToken(ethabi::Token);

/// The kind of an ABI parameter, named in type-mismatch errors.
#[verifier::external_type_specification]
#[verifier::external_body]
pub struct ExParamType(ethabi::ParamType);

/// The ABI coder's own error type, carried through opaquely.
#[verifier::external_type_specification]
#[verifier::external_body]
pub struct ExEthabiError(ethabi::Error);

/// A request to call a function of a smart contract at a pinned block.
#[derive(Clone, Debug)]
pub struct EthereumContractCall {
    pub address: crate::types::Address,
    pub block_ptr: EthereumBlockPointer,
    /// The canonical signature of the function to call, as its bytes.
    pub function_signature: Vec<u8>,
    pub args: Vec<ethabi::Token>,
}

/// An error from calling a function of a smart contract.
#[derive(Debug)]
pub enum EthereumContractCallError {
    /// The input could not be encoded or the output not decoded.
    ABIError(ethabi::Error),
    /// A decoded token is not of the expected kind.
    TypeError(ethabi::Token, ethabi::ParamType),
    /// The contract call reverted, with the given reason.
    Revert(String),
    /// The node took too long to perform the call.
    Timeout,
    /// Any other upstream failure, with its description.
    Unknown(String),
}

/// An error from the chain node boundary.
#[derive(Clone, Debug)]
pub enum EthereumAdapterError {
    /// The node does not know the block, probably because it was uncled in
    /// a chain reorg between discovery and fetch.
    BlockUnavailable(H256),
    /// The node took too long to answer.
    Timeout,
    /// The node answered with a malformed or out-of-range response.
    UpstreamProtocol,
    /// The caller asked for a range whose lower bound is above its upper
    /// bound.
    InvalidRange,
    /// Any other upstream failure, with its description.
    Unknown(String),
}

/// Common trait for components that watch and manage access to Ethereum.
///
/// Implementations may be backed by an in-process node or a remote node
/// over RPC; callers must assume every answer can be wrong or late near
/// the chain head, so nothing is promised of the answers here. The block
/// scan validates what it uses.
pub trait EthereumAdapter {
    /// Identifying information about the connected network.
    fn net_identifiers(&self) -> Result<EthereumNetworkIdentifier, EthereumAdapterError>;

    /// The most recent block the node knows.
    fn latest_block(&self) -> Result<LightEthereumBlock, EthereumAdapterError>;

    /// The header fields of the block with the given hash.
    fn load_block(&self, block_hash: H256) -> Result<LightEthereumBlock, EthereumAdapterError>;

    /// Loads blocks with their logs and calls in bulk, possibly from a
    /// cache.
    fn load_blocks(&self, block_hashes: Vec<H256>) -> Result<
        Vec<EthereumBlock>,
        EthereumAdapterError,
    >;

    /// Pointers for every block of the closed range. Reorg safety: `to`
    /// must be final.
    fn block_range_to_ptrs(&self, from: u64, to: u64) -> Result<
        Vec<EthereumBlockPointer>,
        EthereumAdapterError,
    >;

    /// The header fields of the block with the given hash, if known.
    fn block_by_hash(&self, block_hash: H256) -> Result<
        Option<LightEthereumBlock>,
        EthereumAdapterError,
    >;

    /// The full block for a known header, with receipts.
    fn load_full_block(&self, block: LightEthereumBlock) -> Result<
        EthereumBlock,
        EthereumAdapterError,
    >;

    /// The pointer of the block at the given height.
    fn block_pointer_from_number(&self, block_number: u64) -> Result<
        EthereumBlockPointer,
        EthereumAdapterError,
    >;

    /// The hash of the block at the given height, if known. Only safe for
    /// heights with enough confirmations.
    fn block_hash_by_block_number(&self, block_number: u64) -> Result<
        Option<H256>,
        EthereumAdapterError,
    >;

    /// Whether the pointed-to block is on the main chain. Only safe for
    /// heights with enough confirmations.
    fn is_on_main_chain(&self, block_ptr: EthereumBlockPointer) -> Result<
        bool,
        EthereumAdapterError,
    >;

    /// The calls traced in one block.
    fn calls_in_block(&self, block_number: u64, block_hash: H256) -> Result<
        Vec<EthereumCall>,
        EthereumAdapterError,
    >;

    /// The logs of the range that match the filter.
    fn logs_in_block_range(
        &self,
        from: u64,
        to: u64,
        log_filter: &EthereumLogFilter,
    ) -> Result<Vec<Log>, EthereumAdapterError>;

    /// The traced calls of the range that match the filter.
    fn calls_in_block_range(
        &self,
        from: u64,
        to: u64,
        call_filter: &EthereumCallFilter,
    ) -> Result<Vec<EthereumCall>, EthereumAdapterError>;

    /// Calls a function of a smart contract at a pinned block.
    fn contract_call(&self, call: &EthereumContractCall) -> Result<
        Vec<ethabi::Token>,
        EthereumContractCallError,
    >;
}

/// Triggers grouped by block number, the numbers kept strictly ascending.
struct TriggersByBlock {
    entries: Vec<(u64, Vec<EthereumTrigger>)>,
}

impl TriggersByBlock {
    /// Numbers strictly ascending, hence unique.
    spec fn wf(self) -> bool {
        forall|i: int, j: int|
            0 <= i < j < self.entries@.len() ==> (#[trigger] self.entries@[i]).0 < (
            #[trigger] self.entries@[j]).0
    }

    spec fn contains_key(self, n: u64) -> bool {
        exists|i: int| 0 <= i < self.entries@.len() && (#[trigger] self.entries@[i]).0 == n
    }

    /// The triggers grouped under a number, empty when the number has no
    /// entry.
    spec fn spec_at(self, n: u64) -> Seq<EthereumTrigger> {
        if self.contains_key(n) {
            let i = choose|i: int|
                0 <= i < self.entries@.len() && (#[trigger] self.entries@[i]).0 == n;
            self.entries@[i].1@
        } else {
            Seq::<EthereumTrigger>::empty()
        }
    }

    proof fn lemma_at_index(self, i: int)
        requires
            self.wf(),
            0 <= i < self.entries@.len(),
        ensures
            self.contains_key(self.entries@[i].0),
            self.spec_at(self.entries@[i].0) == self.entries@[i].1@,
    {
        let n = self.entries@[i].0;
        assert((#[trigger] self.entries@[i]).0 == n);
        let j = choose|j: int| 0 <= j < self.entries@.len() && (#[trigger] self.entries@[j]).0 == n;
        if i != j {
            assert(false);
        }
    }

    fn new() -> (r: Self)
        ensures
            r.wf(),
            r.entries@.len() == 0,
            forall|n: u64| !(#[trigger] r.contains_key(n)),
    {
        let r = TriggersByBlock { entries: Vec::new() };
        r
    }

    /// Appends a trigger to its block's group, keeping numbers ascending.
    #[verifier::loop_isolation(false)]
    fn insert(&mut self, t: EthereumTrigger)
        requires
            old(self).wf(),
        ensures
            final(self).wf(),
            final(self).spec_at(t.spec_block_number()) == old(self).spec_at(
                t.spec_block_number(),
            ).push(t),
            forall|n: u64|
                n != t.spec_block_number() ==> #[trigger] final(self).spec_at(n) == old(
                    self,
                ).spec_at(n),
            forall|n: u64|
                #[trigger] final(self).contains_key(n) == (old(self).contains_key(n) || n
                    == t.spec_block_number()),
    {
        let bn = t.block_number();
        let n = self.entries.len();
        let mut i: usize = 0;
        while i < n
            invariant
                i <= n,
                n == self.entries@.len(),
                self == old(self),
                forall|j: int| 0 <= j < i ==> (#[trigger] self.entries@[j]).0 < bn,
            decreases n - i,
        {
            if self.entries[i].0 >= bn {
                break ;
            }
            i += 1;
        }
        let ghost s1 = self.entries@;
        if i < self.entries.len() && self.entries[i].0 == bn {
            let entry = self.entries.remove(i);
            let (_, mut ts) = entry;
            let ghost ts0 = ts@;
            ts.push(t);
            self.entries.insert(i, (bn, ts));
            proof {
                let s2 = self.entries@;
                assert forall|m: int| 0 <= m < s2.len() && m != i implies s2[m] == s1[m] by {}
                assert(s2[i as int] == (bn, ts));
                assert(final(self).wf()) by {
                    assert forall|x: int, y: int|
                        0 <= x < y < s2.len() implies (#[trigger] s2[x]).0 < (
                    #[trigger] s2[y]).0 by {
                        assert(s1[x].0 < s1[y].0);
                        if x == i {
                            assert(s2[y] == s1[y]);
                        } else if y == i {
                            assert(s2[x] == s1[x]);
                        } else {
                            assert(s2[x] == s1[x] && s2[y] == s1[y]);
                        }
                    }
                }
                old(self).lemma_at_index(i as int);
                self.lemma_at_index(i as int);
                assert(self.spec_at(bn) =~= old(self).spec_at(bn).push(t));
                assert forall|m: u64| m != bn implies #[trigger] self.spec_at(m) == old(
                    self,
                ).spec_at(m) by {
                    if old(self).contains_key(m) {
                        let j = choose|j: int| 0 <= j < s1.len() && (#[trigger] s1[j]).0 == m;
                        assert(s2[j] == s1[j]);
                        self.lemma_at_index(j);
                        old(self).lemma_at_index(j);
                    } else {
                        assert(!self.contains_key(m)) by {
                            if self.contains_key(m) {
                                let j = choose|j: int|
                                    0 <= j < s2.len() && (#[trigger] s2[j]).0 == m;
                                assert(s1[j].0 == m);
                            }
                        }
                    }
                }
                assert forall|m: u64| #[trigger] self.contains_key(m) == (old(self).contains_key(m)
                    || m == bn) by {
                    if self.contains_key(m) {
                        let j = choose|j: int| 0 <= j < s2.len() && (#[trigger] s2[j]).0 == m;
                        if j != i {
                            assert(s1[j].0 == m);
                        }
                    }
                    if old(self).contains_key(m) {
                        let j = choose|j: int| 0 <= j < s1.len() && (#[trigger] s1[j]).0 == m;
                        if j != i {
                            assert(s2[j].0 == m);
                        }
                    }
                }
            }
        } else {
            let mut ts: Vec<EthereumTrigger> = Vec::new();
            ts.push(t);
            self.entries.insert(i, (bn, ts));
            proof {
                let s2 = self.entries@;
                assert(s2.len() == s1.len() + 1);
                assert forall|m: int| 0 <= m < i implies s2[m] == s1[m] by {}
                assert forall|m: int| i < m < s2.len() implies s2[m] == s1[m - 1] by {}
                assert(s2[i as int] == (bn, ts));
                assert(i < s1.len() ==> s1[i as int].0 > bn);
                assert(final(self).wf()) by {
                    assert forall|x: int, y: int|
                        0 <= x < y < s2.len() implies (#[trigger] s2[x]).0 < (
                    #[trigger] s2[y]).0 by {
                        if x == i {
                            assert(s2[y] == s1[y - 1]);
                            assert(s1[i as int].0 <= s1[y - 1].0) by {
                                if (i as int) < y - 1 {
                                    assert(s1[i as int].0 < s1[y - 1].0);
                                }
                            }
                        } else if y == i {
                            assert(s2[x] == s1[x]);
                        } else if x < i && y > i {
                            assert(s2[x] == s1[x] && s2[y] == s1[y - 1]);
                            assert(x <= y - 1);
                            if x < y - 1 {
                                assert(s1[x].0 < s1[y - 1].0);
                            }
                        } else if y < i {
                            assert(s2[x] == s1[x] && s2[y] == s1[y]);
                        } else {
                            assert(s2[x] == s1[x - 1] && s2[y] == s1[y - 1]);
                        }
                    }
                }
                assert(ts@ =~= Seq::<EthereumTrigger>::empty().push(t));
                self.lemma_at_index(i as int);
                assert(!old(self).contains_key(bn)) by {
                    if old(self).contains_key(bn) {
                        let j = choose|j: int| 0 <= j < s1.len() && (#[trigger] s1[j]).0 == bn;
                        if j < i {
                            assert(s1[j].0 < bn);
                        } else {
                            assert(i < s1.len());
                            if j > i {
                                assert(s1[i as int].0 < s1[j].0);
                            }
                        }
                    }
                }
                assert(self.spec_at(bn) =~= old(self).spec_at(bn).push(t));
                assert forall|m: u64| m != bn implies #[trigger] self.spec_at(m) == old(
                    self,
                ).spec_at(m) by {
                    if old(self).contains_key(m) {
                        let j = choose|j: int| 0 <= j < s1.len() && (#[trigger] s1[j]).0 == m;
                        let j2: int = if j < i {
                            j
                        } else {
                            j + 1
                        };
                        assert(s2[j2] == s1[j]);
                        self.lemma_at_index(j2);
                        old(self).lemma_at_index(j);
                    } else {
                        assert(!self.contains_key(m)) by {
                            if self.contains_key(m) {
                                let j = choose|j: int|
                                    0 <= j < s2.len() && (#[trigger] s2[j]).0 == m;
                                if j < i {
                                    assert(s1[j].0 == m);
                                } else {
                                    assert(s1[j - 1].0 == m);
                                }
                            }
                        }
                    }
                }
                assert forall|m: u64| #[trigger] self.contains_key(m) == (old(self).contains_key(m)
                    || m == bn) by {
                    if self.contains_key(m) && m != bn {
                        let j = choose|j: int| 0 <= j < s2.len() && (#[trigger] s2[j]).0 == m;
                        if j < i {
                            assert(s1[j].0 == m);
                        } else {
                            assert(s1[j - 1].0 == m);
                        }
                    }
                    if old(self).contains_key(m) {
                        let j = choose|j: int| 0 <= j < s1.len() && (#[trigger] s1[j]).0 == m;
                        let j2: int = if j < i {
                            j
                        } else {
                            j + 1
                        };
                        assert(s2[j2].0 == m);
                    }
                }
            }
        }
    }

    /// Makes sure a number has a group, adding an empty one if need be.
    #[verifier::loop_isolation(false)]
    fn ensure_key(&mut self, n: u64)
        requires
            old(self).wf(),
        ensures
            final(self).wf(),
            final(self).contains_key(n),
            forall|m: u64| #[trigger] final(self).spec_at(m) == old(self).spec_at(m),
            forall|m: u64|
                #[trigger] final(self).contains_key(m) == (old(self).contains_key(m) || m == n),
            final(self).entries@.len() == if old(self).contains_key(n) {
                old(self).entries@.len()
            } else {
                old(self).entries@.len() + 1
            },
    {
        let len = self.entries.len();
        let mut i: usize = 0;
        while i < len
            invariant
                i <= len,
                len == self.entries@.len(),
                self == old(self),
                forall|j: int| 0 <= j < i ==> (#[trigger] self.entries@[j]).0 < n,
            decreases len - i,
        {
            if self.entries[i].0 >= n {
                break ;
            }
            i += 1;
        }
        let ghost s1 = self.entries@;
        if i < self.entries.len() && self.entries[i].0 == n {
            proof {
                self.lemma_at_index(i as int);
            }
            return ;
        }
        let ts: Vec<EthereumTrigger> = Vec::new();
        self.entries.insert(i, (n, ts));
        proof {
            let s2 = self.entries@;
            assert forall|m: int| 0 <= m < i implies s2[m] == s1[m] by {}
            assert forall|m: int| i < m < s2.len() implies s2[m] == s1[m - 1] by {}
            assert(s2[i as int] == (n, ts));
            assert(i < s1.len() ==> s1[i as int].0 > n);
            assert(final(self).wf()) by {
                assert forall|x: int, y: int|
                    0 <= x < y < s2.len() implies (#[trigger] s2[x]).0 < (#[trigger] s2[y]).0 by {
                    if x == i {
                        assert(s2[y] == s1[y - 1]);
                        if (i as int) < y - 1 {
                            assert(s1[i as int].0 < s1[y - 1].0);
                        }
                    } else if y == i {
                        assert(s2[x] == s1[x]);
                    } else if x < i && y > i {
                        assert(s2[x] == s1[x] && s2[y] == s1[y - 1]);
                        if x < y - 1 {
                            assert(s1[x].0 < s1[y - 1].0);
                        }
                    } else if y < i {
                        assert(s2[x] == s1[x] && s2[y] == s1[y]);
                    } else {
                        assert(s2[x] == s1[x - 1] && s2[y] == s1[y - 1]);
                    }
                }
            }
            assert(!old(self).contains_key(n)) by {
                if old(self).contains_key(n) {
                    let j = choose|j: int| 0 <= j < s1.len() && (#[trigger] s1[j]).0 == n;
                    if j < i {
                        assert(s1[j].0 < n);
                    } else {
                        assert(i < s1.len());
                        if j > i {
                            assert(s1[i as int].0 < s1[j].0);
                        }
                    }
                }
            }
            self.lemma_at_index(i as int);
            assert(self.spec_at(n) =~= old(self).spec_at(n));
            assert forall|m: u64| m != n implies #[trigger] self.spec_at(m) == old(self).spec_at(
                m,
            ) by {
                if old(self).contains_key(m) {
                    let j = choose|j: int| 0 <= j < s1.len() && (#[trigger] s1[j]).0 == m;
                    let j2: int = if j < i {
                        j
                    } else {
                        j + 1
                    };
                    assert(s2[j2] == s1[j]);
                    self.lemma_at_index(j2);
                    old(self).lemma_at_index(j);
                } else {
                    assert(!self.contains_key(m)) by {
                        if self.contains_key(m) {
                            let j = choose|j: int| 0 <= j < s2.len() && (#[trigger] s2[j]).0 == m;
                            if j < i {
                                assert(s1[j].0 == m);
                            } else {
                                assert(s1[j - 1].0 == m);
                            }
                        }
                    }
                }
            }
            assert forall|m: u64| #[trigger] self.contains_key(m) == (old(self).contains_key(m) || m
                == n) by {
                if self.contains_key(m) && m != n {
                    let j = choose|j: int| 0 <= j < s2.len() && (#[trigger] s2[j]).0 == m;
                    if j < i {
                        assert(s1[j].0 == m);
                    } else {
                        assert(s1[j - 1].0 == m);
                    }
                }
                if old(self).contains_key(m) {
                    let j = choose|j: int| 0 <= j < s1.len() && (#[trigger] s1[j]).0 == m;
                    let j2: int = if j < i {
                        j
                    } else {
                        j + 1
                    };
                    assert(s2[j2].0 == m);
                }
            }
        }
    }
}

/// Two logs carry the same data, compared through the views of their
/// byte and topic lists.
pub open spec fn log_equiv(a: Log, b: Log) -> bool {
    &&& a.address == b.address
    &&& a.topics@ == b.topics@
    &&& a.data@ == b.data@
    &&& a.block_number == b.block_number
    &&& a.block_hash == b.block_hash
}

/// Two calls carry the same data, compared through the views of their
/// input bytes.
pub open spec fn call_equiv(a: EthereumCall, b: EthereumCall) -> bool {
    &&& a.to == b.to
    &&& a.input@ == b.input@
    &&& a.block_number == b.block_number
    &&& a.block_hash == b.block_hash
}

/// Two blocks carry the same data, their logs and calls compared
/// pointwise.
pub open spec fn block_equiv(a: EthereumBlock, b: EthereumBlock) -> bool {
    &&& a.number == b.number
    &&& a.hash == b.hash
    &&& a.logs@.len() == b.logs@.len()
    &&& forall|i: int| 0 <= i < a.logs@.len() ==> log_equiv(#[trigger] a.logs@[i], b.logs@[i])
    &&& a.calls@.len() == b.calls@.len()
    &&& forall|i: int| 0 <= i < a.calls@.len() ==> call_equiv(#[trigger] a.calls@[i], b.calls@[i])
}

/// Two triggers carry the same data.
pub open spec fn trigger_equiv(a: EthereumTrigger, b: EthereumTrigger) -> bool {
    match (a, b) {
        (EthereumTrigger::Log(x), EthereumTrigger::Log(y)) => log_equiv(x, y),
        (EthereumTrigger::Call(x), EthereumTrigger::Call(y)) => call_equiv(x, y),
        (EthereumTrigger::Block(p1, t1), EthereumTrigger::Block(p2, t2)) => p1 == p2 && t1 == t2,
        _ => false,
    }
}

/// Two trigger lists carry the same data, pointwise.
pub open spec fn triggers_equiv(a: Seq<EthereumTrigger>, b: Seq<EthereumTrigger>) -> bool {
    a.len() == b.len() && forall|i: int| 0 <= i < a.len() ==> trigger_equiv(#[trigger] a[i], b[i])
}

/// The predicate "this log is matched by the filter", as a function value.
pub open spec fn log_pred(f: EthereumLogFilter) -> spec_fn(Log) -> bool {
    |l: Log| f.spec_matches(l)
}

/// The predicate "this call is matched by the filter", as a function value.
pub open spec fn call_pred(f: EthereumCallFilter) -> spec_fn(EthereumCall) -> bool {
    |c: EthereumCall| f.spec_matches(c)
}

/// The predicate "this call goes to an address the block filter watches",
/// as a function value.
pub open spec fn block_call_pred(f: EthereumBlockFilter) -> spec_fn(EthereumCall) -> bool {
    |c: EthereumCall| f.spec_get(c.to) is Some
}

/// Wrapping a log as a trigger, as a function value.
pub open spec fn log_to_trigger() -> spec_fn(Log) -> EthereumTrigger {
    |l: Log| EthereumTrigger::Log(l)
}

/// Wrapping a call as a trigger, as a function value.
pub open spec fn call_to_trigger() -> spec_fn(EthereumCall) -> EthereumTrigger {
    |c: EthereumCall| EthereumTrigger::Call(c)
}

/// Wrapping a block pointer as an every-block trigger, as a function
/// value.
pub open spec fn ptr_to_trigger() -> spec_fn(EthereumBlockPointer) -> EthereumTrigger {
    |p: EthereumBlockPointer| EthereumTrigger::Block(p, EthereumBlockTriggerType::Every)
}

/// Wrapping a call as a block-level trigger at the call's block, as a
/// function value.
pub open spec fn call_to_block_trigger() -> spec_fn(EthereumCall) -> EthereumTrigger {
    |c: EthereumCall|
        EthereumTrigger::Block(
            (EthereumBlockPointer { hash: c.block_hash, number: c.block_number }),
            EthereumBlockTriggerType::WithCallTo(c.to),
        )
}

/// The predicate "this trigger sits in block `m`", as a function value.
pub open spec fn at_number(m: u64) -> spec_fn(EthereumTrigger) -> bool {
    |t: EthereumTrigger| t.spec_block_number() == m
}

/// All three filters are empty: nothing can ever match.
pub open spec fn all_filters_trivial(
    lf: EthereumLogFilter,
    cf: EthereumCallFilter,
    bf: EthereumBlockFilter,
) -> bool {
    &&& lf.edge_set() == Set::<(crate::types::Address, crate::types::EventSignature)>::empty()
    &&& lf.wildcard_set() == Set::<crate::types::EventSignature>::empty()
    &&& cf.spec_entries().len() == 0
    &&& !bf.trigger_every_block
    &&& bf.spec_entries().len() == 0
}

/// Turns the logs of a range scan into log triggers, after checking each
/// log sits inside the scanned range. A log outside the range is an
/// upstream protocol violation.
#[verifier::loop_isolation(false)]
fn log_triggers(logs: Vec<Log>, from: u64, to: u64) -> (r: Result<
    Vec<EthereumTrigger>,
    EthereumAdapterError,
>)
    ensures
        match r {
            Ok(ts) => ts@ == logs@.map_values(log_to_trigger()) && (forall|k: int|
                0 <= k < logs@.len() ==> from <= (#[trigger] logs@[k]).block_number <= to),
            Err(e) => e is UpstreamProtocol && (exists|k: int|
                0 <= k < logs@.len() && !(from <= (#[trigger] logs@[k]).block_number <= to)),
        },
{
    let ghost logs0 = logs@;
    let mut rest = logs;
    let mut ts: Vec<EthereumTrigger> = Vec::new();
    let total = rest.len();
    let mut k: usize = 0;
    proof {
        assert(rest@ =~= logs0.skip(0));
        assert(logs0.take(0).map_values(log_to_trigger()) =~= Seq::<EthereumTrigger>::empty());
    }
    while rest.len() > 0
        invariant
            total == logs0.len(),
            k + rest@.len() == logs0.len(),
            rest@ == logs0.skip(k as int),
            ts@ == logs0.take(k as int).map_values(log_to_trigger()),
            forall|j: int| 0 <= j < k ==> from <= (#[trigger] logs0[j]).block_number <= to,
        decreases rest@.len(),
    {
        let l = rest.remove(0);
        proof {
            assert(l == logs0[k as int]);
            assert(rest@ =~= logs0.skip(k + 1 as int));
        }
        if l.block_number < from || l.block_number > to {
            proof {
                assert(!(from <= (#[trigger] logs0[k as int]).block_number <= to));
            }
            return Err(EthereumAdapterError::UpstreamProtocol);
        }
        ts.push(EthereumTrigger::Log(l));
        proof {
            assert(logs0.take(k + 1 as int) =~= logs0.take(k as int).push(logs0[k as int]));
            logs0.take(k as int).lemma_push_map_commute(log_to_trigger(), logs0[k as int]);
        }
        k += 1;
    }
    proof {
        assert(logs0.take(k as int) =~= logs0);
    }
    Ok(ts)
}

/// Turns the calls of a range scan into call triggers, after checking each
/// call sits inside the scanned range.
#[verifier::loop_isolation(false)]
fn call_triggers(calls: Vec<EthereumCall>, from: u64, to: u64) -> (r: Result<
    Vec<EthereumTrigger>,
    EthereumAdapterError,
>)
    ensures
        match r {
            Ok(ts) => ts@ == calls@.map_values(call_to_trigger()) && (forall|k: int|
                0 <= k < calls@.len() ==> from <= (#[trigger] calls@[k]).block_number <= to),
            Err(e) => e is UpstreamProtocol && (exists|k: int|
                0 <= k < calls@.len() && !(from <= (#[trigger] calls@[k]).block_number <= to)),
        },
{
    let ghost calls0 = calls@;
    let mut rest = calls;
    let mut ts: Vec<EthereumTrigger> = Vec::new();
    let total = rest.len();
    let mut k: usize = 0;
    proof {
        assert(rest@ =~= calls0.skip(0));
        assert(calls0.take(0).map_values(call_to_trigger()) =~= Seq::<EthereumTrigger>::empty());
    }
    while rest.len() > 0
        invariant
            total == calls0.len(),
            k + rest@.len() == calls0.len(),
            rest@ == calls0.skip(k as int),
            ts@ == calls0.take(k as int).map_values(call_to_trigger()),
            forall|j: int| 0 <= j < k ==> from <= (#[trigger] calls0[j]).block_number <= to,
        decreases rest@.len(),
    {
        let c = rest.remove(0);
        proof {
            assert(c == calls0[k as int]);
            assert(rest@ =~= calls0.skip(k + 1 as int));
        }
        if c.block_number < from || c.block_number > to {
            proof {
                assert(!(from <= (#[trigger] calls0[k as int]).block_number <= to));
            }
            return Err(EthereumAdapterError::UpstreamProtocol);
        }
        ts.push(EthereumTrigger::Call(c));
        proof {
            assert(calls0.take(k + 1 as int) =~= calls0.take(k as int).push(calls0[k as int]));
            calls0.take(k as int).lemma_push_map_commute(call_to_trigger(), calls0[k as int]);
        }
        k += 1;
    }
    proof {
        assert(calls0.take(k as int) =~= calls0);
    }
    Ok(ts)
}

/// Turns the block pointers of a range into every-block triggers, after
/// checking each pointer sits inside the scanned range.
#[verifier::loop_isolation(false)]
fn block_ptr_triggers(ptrs: Vec<EthereumBlockPointer>, from: u64, to: u64) -> (r: Result<
    Vec<EthereumTrigger>,
    EthereumAdapterError,
>)
    ensures
        match r {
            Ok(ts) => ts@ == ptrs@.map_values(ptr_to_trigger()) && (forall|k: int|
                0 <= k < ptrs@.len() ==> from <= (#[trigger] ptrs@[k]).number <= to),
            Err(e) => e is UpstreamProtocol && (exists|k: int|
                0 <= k < ptrs@.len() && !(from <= (#[trigger] ptrs@[k]).number <= to)),
        },
{
    let ghost ptrs0 = ptrs@;
    let mut ts: Vec<EthereumTrigger> = Vec::new();
    let n = ptrs.len();
    let mut k: usize = 0;
    proof {
        assert(ptrs0.take(0).map_values(ptr_to_trigger()) =~= Seq::<EthereumTrigger>::empty());
    }
    while k < n
        invariant
            k <= n,
            n == ptrs0.len(),
            ts@ == ptrs0.take(k as int).map_values(ptr_to_trigger()),
            forall|j: int| 0 <= j < k ==> from <= (#[trigger] ptrs0[j]).number <= to,
        decreases n - k,
    {
        let p = ptrs[k];
        if p.number < from || p.number > to {
            proof {
                assert(!(from <= (#[trigger] ptrs0[k as int]).number <= to));
            }
            return Err(EthereumAdapterError::UpstreamProtocol);
        }
        ts.push(EthereumTrigger::Block(p, EthereumBlockTriggerType::Every));
        proof {
            assert(ptrs0.take(k + 1 as int) =~= ptrs0.take(k as int).push(ptrs0[k as int]));
            ptrs0.take(k as int).lemma_push_map_commute(ptr_to_trigger(), ptrs0[k as int]);
        }
        k += 1;
    }
    proof {
        assert(ptrs0.take(n as int) =~= ptrs0);
    }
    Ok(ts)
}

/// Turns the calls found for a block filter into block-level triggers at
/// the calls' blocks, after checking each call sits inside the range.
#[verifier::loop_isolation(false)]
fn block_call_triggers(calls: Vec<EthereumCall>, from: u64, to: u64) -> (r: Result<
    Vec<EthereumTrigger>,
    EthereumAdapterError,
>)
    ensures
        match r {
            Ok(ts) => ts@ == calls@.map_values(call_to_block_trigger()) && (forall|k: int|
                0 <= k < calls@.len() ==> from <= (#[trigger] calls@[k]).block_number <= to),
            Err(e) => e is UpstreamProtocol && (exists|k: int|
                0 <= k < calls@.len() && !(from <= (#[trigger] calls@[k]).block_number <= to)),
        },
{
    let ghost calls0 = calls@;
    let mut ts: Vec<EthereumTrigger> = Vec::new();
    let n = calls.len();
    let mut k: usize = 0;
    proof {
        assert(calls0.take(0).map_values(call_to_block_trigger()) =~= Seq::<
            EthereumTrigger,
        >::empty());
    }
    while k < n
        invariant
            k <= n,
            n == calls0.len(),
            ts@ == calls0.take(k as int).map_values(call_to_block_trigger()),
            forall|j: int| 0 <= j < k ==> from <= (#[trigger] calls0[j]).block_number <= to,
        decreases n - k,
    {
        let bn = calls[k].block_number;
        if bn < from || bn > to {
            proof {
                assert(!(from <= (#[trigger] calls0[k as int]).block_number <= to));
            }
            return Err(EthereumAdapterError::UpstreamProtocol);
        }
        let ptr = EthereumBlockPointer { hash: calls[k].block_hash, number: bn };
        ts.push(EthereumTrigger::Block(ptr, EthereumBlockTriggerType::WithCallTo(calls[k].to)));
        proof {
            assert(calls0.take(k + 1 as int) =~= calls0.take(k as int).push(calls0[k as int]));
            calls0.take(k as int).lemma_push_map_commute(
                call_to_block_trigger(),
                calls0[k as int],
            );
        }
        k += 1;
    }
    proof {
        assert(calls0.take(n as int) =~= calls0);
    }
    Ok(ts)
}

/// The block hashes the triggers point at, deduplicated, with the
/// terminal hash always included.
#[verifier::loop_isolation(false)]
fn collect_hashes(triggers: &Vec<EthereumTrigger>, to_hash: H256) -> (r: Vec<H256>)
    ensures
        forall|h: H256|
            #[trigger] r@.contains(h) <==> (h == to_hash || exists|k: int|
                0 <= k < triggers@.len() && (#[trigger] triggers@[k]).spec_block_hash() == h),
{
    let mut r: Vec<H256> = Vec::new();
    r.push(to_hash);
    let n = triggers.len();
    let mut k: usize = 0;
    proof {
        assert(r@[0] == to_hash);
    }
    while k < n
        invariant
            k <= n,
            n == triggers@.len(),
            r@.contains(to_hash),
            forall|h: H256|
                #[trigger] r@.contains(h) ==> (h == to_hash || exists|j: int|
                    0 <= j < k && (#[trigger] triggers@[j]).spec_block_hash() == h),
            forall|j: int|
                0 <= j < k ==> r@.contains((#[trigger] triggers@[j]).spec_block_hash()),
        decreases n - k,
    {
        let h = triggers[k].block_hash();
        let m = r.len();
        let mut l: usize = 0;
        let mut seen = false;
        while l < m
            invariant
                l <= m,
                m == r@.len(),
                seen == exists|x: int| 0 <= x < l && r@[x] == h,
            decreases m - l,
        {
            if r[l] == h {
                seen = true;
                proof {
                    assert(r@[l as int] == h);
                }
            }
            l += 1;
        }
        let ghost r0 = r@;
        if !seen {
            r.push(h);
        }
        proof {
            if seen {
                let x = choose|x: int| 0 <= x < r0.len() && r0[x] == h;
                assert(r@.contains(h));
            } else {
                assert(r@[r0.len() as int] == h);
                assert(r@.contains(h));
                assert forall|h2: H256| #[trigger] r@.contains(h2) implies (h2 == to_hash
                    || exists|j: int|
                    0 <= j < k + 1 && (#[trigger] triggers@[j]).spec_block_hash() == h2) by {
                    let x = choose|x: int| 0 <= x < r@.len() && r@[x] == h2;
                    if x < r0.len() {
                        assert(r0[x] == h2);
                        assert(r0.contains(h2));
                    } else {
                        assert(h2 == h);
                        assert((#[trigger] triggers@[k as int]).spec_block_hash() == h2);
                    }
                }
            }
            assert forall|j: int| 0 <= j < k + 1 implies r@.contains(
                (#[trigger] triggers@[j]).spec_block_hash(),
            ) by {
                if j < k {
                    let x = choose|x: int|
                        0 <= x < r0.len() && r0[x] == triggers@[j].spec_block_hash();
                    assert(r@[x] == triggers@[j].spec_block_hash());
                } else {
                    assert(r@.contains(h));
                }
            }
            assert forall|h2: H256| (h2 == to_hash || exists|j: int|
                0 <= j < k + 1 && (#[trigger] triggers@[j]).spec_block_hash() == h2)
                implies #[trigger] r@.contains(h2) by {
                if h2 == to_hash {
                    let x = choose|x: int| 0 <= x < r0.len() && r0[x] == to_hash;
                    assert(r@[x] == to_hash);
                }
            }
        }
        k += 1;
    }
    r
}


/// An upstream answer may not claim the caller's own range error: `InvalidRange`
/// means "the caller passed `from > to`", so a node answering it on a valid
/// range is out of protocol and is reported as such.
fn reclassify_upstream_error(e: EthereumAdapterError) -> (r: EthereumAdapterError)
    ensures
        !(r is InvalidRange),
        !(e is InvalidRange) ==> r == e,
        e is InvalidRange ==> r is UpstreamProtocol,
{
    match e {
        EthereumAdapterError::InvalidRange => EthereumAdapterError::UpstreamProtocol,
        other => other,
    }
}

/// A loaded block can serve a trigger group: it carries the group's
/// number, and for the terminal group also the pinned terminal hash.
spec fn block_serves(b: EthereumBlock, n: u64, to: u64, to_hash: H256) -> bool {
    b.number == n && (n == to ==> b.hash == to_hash)
}

/// The hash a failed group is reported under: the hash its triggers point
/// at, or the pinned terminal hash for a group without triggers.
spec fn group_fallback_hash(entry: (u64, Vec<EthereumTrigger>), to_hash: H256) -> H256 {
    if entry.1@.len() > 0 {
        entry.1@[0].spec_block_hash()
    } else {
        to_hash
    }
}

/// An entry among the first `i` groups already carries this number.
spec fn prefix_consumed(ge: Seq<(u64, Vec<EthereumTrigger>)>, i: int, n: u64) -> bool {
    exists|j: int| 0 <= j < i && (#[trigger] ge[j]).0 == n
}

/// Joins the loaded blocks with the grouped triggers: one result entry per
/// group, in ascending number order, each holding a loaded block of its
/// number — for the terminal group, one that also carries the pinned
/// terminal hash. It fails, naming the missing block's hash, exactly when
/// some group has no such loaded block: that block vanished between
/// discovery and fetch.
#[verifier::spinoff_prover]
#[verifier::loop_isolation(false)]
fn assemble_blocks(
    groups: TriggersByBlock,
    blocks: Vec<EthereumBlock>,
    to: u64,
    to_hash: H256,
) -> (r: Result<Vec<EthereumBlockWithTriggers>, EthereumAdapterError>)
    requires
        groups.wf(),
    ensures
        match r {
            Ok(bs) => {
                &&& bs@.len() == groups.entries@.len()
                &&& forall|i: int|
                    0 <= i < bs@.len() ==> (#[trigger] bs@[i]).spec_number()
                        == groups.entries@[i].0 && bs@[i].triggers@ == groups.entries@[i].1@
                        && bs@[i].ethereum_block is Final
                &&& forall|i: int|
                    0 <= i < bs@.len() && (#[trigger] groups.entries@[i]).0 == to
                        ==> bs@[i].ethereum_block.spec_hash() == to_hash
            },
            Err(e) => {
                &&& e is BlockUnavailable
                &&& exists|i: int|
                    0 <= i < groups.entries@.len() && (forall|j: int|
                        0 <= j < blocks@.len() ==> !block_serves(
                            #[trigger] blocks@[j],
                            (#[trigger] groups.entries@[i]).0,
                            to,
                            to_hash,
                        )) && e->BlockUnavailable_0 == group_fallback_hash(
                        groups.entries@[i],
                        to_hash,
                    )
            },
        },
{
    let ghost ge0 = groups.entries@;
    let ghost blocks0 = blocks@;
    let TriggersByBlock { entries: mut rest } = groups;
    let mut blocks = blocks;
    let mut bs: Vec<EthereumBlockWithTriggers> = Vec::new();
    let total = rest.len();
    let mut i: usize = 0;
    proof {
        assert(rest@ =~= ge0.skip(0));
        assert forall|x: int|
            0 <= x < blocks0.len() && !prefix_consumed(
                ge0,
                0,
                (#[trigger] blocks0[x]).number,
            ) implies exists|y: int|
            0 <= y < blocks@.len() && (#[trigger] blocks@[y]) == blocks0[x] by {
            assert(blocks@[x] == blocks0[x]);
        }
    }
    while rest.len() > 0
        invariant
            total == ge0.len(),
            i + rest@.len() == ge0.len(),
            rest@ == ge0.skip(i as int),
            bs@.len() == i,
            forall|j: int|
                0 <= j < i ==> (#[trigger] bs@[j]).spec_number() == ge0[j].0 && bs@[j].triggers@
                    == ge0[j].1@ && bs@[j].ethereum_block is Final,
            forall|j: int|
                0 <= j < i && (#[trigger] ge0[j]).0 == to ==> bs@[j].ethereum_block.spec_hash()
                    == to_hash,
            forall|x: int|
                0 <= x < blocks0.len() && !prefix_consumed(
                    ge0,
                    i as int,
                    (#[trigger] blocks0[x]).number,
                ) ==> exists|y: int| 0 <= y < blocks@.len() && (#[trigger] blocks@[y])
                    == blocks0[x],
        decreases rest@.len(),
    {
        let entry = rest.remove(0);
        proof {
            assert(entry == ge0[i as int]);
            assert(rest@ =~= ge0.skip(i + 1 as int));
        }
        let (n, ts) = entry;
        let m = blocks.len();
        let mut j: usize = 0;
        let mut hit = false;
        let mut idx: usize = 0;
        while j < m
            invariant
                j <= m,
                m == blocks@.len(),
                hit ==> idx < m && block_serves(blocks@[idx as int], n, to, to_hash),
                !hit ==> forall|x: int|
                    0 <= x < j ==> !block_serves(#[trigger] blocks@[x], n, to, to_hash),
            decreases m - j,
        {
            if blocks[j].number == n && (n != to || blocks[j].hash == to_hash) {
                hit = true;
                idx = j;
                break ;
            }
            j += 1;
        }
        if !hit {
            let h = if ts.len() > 0 {
                ts[0].block_hash()
            } else {
                to_hash
            };
            proof {
                // this group's number was not consumed before: numbers ascend
                assert(!prefix_consumed(ge0, i as int, n)) by {
                    if prefix_consumed(ge0, i as int, n) {
                        let j2 = choose|j2: int| 0 <= j2 < i && (#[trigger] ge0[j2]).0 == n;
                        assert(ge0[j2].0 < ge0[i as int].0);
                    }
                }
                // so any serving block would still be in the remaining list
                assert forall|x: int| 0 <= x < blocks0.len() implies !block_serves(
                    #[trigger] blocks0[x],
                    n,
                    to,
                    to_hash,
                ) by {
                    if block_serves(blocks0[x], n, to, to_hash) {
                        let y = choose|y: int|
                            0 <= y < blocks@.len() && (#[trigger] blocks@[y]) == blocks0[x];
                        assert(!block_serves(blocks@[y], n, to, to_hash));
                    }
                }
                assert(ge0[i as int] == (n, ts));
                assert((#[trigger] ge0[i as int]).0 == n);
                assert(group_fallback_hash(ge0[i as int], to_hash) == h);
            }
            return Err(EthereumAdapterError::BlockUnavailable(h));
        }
        let ghost pre_blocks = blocks@;
        let b = blocks.remove(idx);
        bs.push(EthereumBlockWithTriggers::new(ts, BlockFinality::Final(b)));
        proof {
            // removing the serving block consumes this group's number only
            assert forall|x: int|
                0 <= x < blocks0.len() && !prefix_consumed(
                    ge0,
                    i + 1 as int,
                    (#[trigger] blocks0[x]).number,
                ) implies exists|y: int|
                0 <= y < blocks@.len() && (#[trigger] blocks@[y]) == blocks0[x] by {
                assert(!prefix_consumed(ge0, i as int, blocks0[x].number)) by {
                    if prefix_consumed(ge0, i as int, blocks0[x].number) {
                        let j2 = choose|j2: int|
                            0 <= j2 < i && (#[trigger] ge0[j2]).0 == blocks0[x].number;
                        assert(prefix_consumed(ge0, i + 1 as int, blocks0[x].number)) by {
                            assert((#[trigger] ge0[j2]).0 == blocks0[x].number);
                        }
                    }
                }
                let y = choose|y: int|
                    0 <= y < pre_blocks.len() && (#[trigger] pre_blocks[y]) == blocks0[x];
                assert(blocks0[x].number != n) by {
                    assert((#[trigger] ge0[i as int]).0 == n);
                }
                if y < idx as int {
                    assert(blocks@[y] == pre_blocks[y]);
                } else {
                    assert(y != idx as int);
                    assert(blocks@[y - 1] == pre_blocks[y]);
                }
            }
        }
        i += 1;
    }
    Ok(bs)
}

/// Elements of the concatenation of one all-log, one all-call and one
/// all-block segment keep non-decreasing kind ranks after filtering by
/// block number.
proof fn lemma_rank_monotone(
    a: Seq<EthereumTrigger>,
    b: Seq<EthereumTrigger>,
    c: Seq<EthereumTrigger>,
    m: u64,
)
    requires
        forall|k: int| 0 <= k < a.len() ==> (#[trigger] a[k]).kind_rank() == 0,
        forall|k: int| 0 <= k < b.len() ==> (#[trigger] b[k]).kind_rank() == 1,
        forall|k: int| 0 <= k < c.len() ==> (#[trigger] c[k]).kind_rank() == 2,
    ensures
        forall|k1: int, k2: int|
            0 <= k1 <= k2 < (a + b + c).filter(at_number(m)).len() ==> (#[trigger] (a + b
                + c).filter(at_number(m))[k1]).kind_rank() <= (#[trigger] (a + b + c).filter(
                at_number(m),
            )[k2]).kind_rank(),
{
    let fa = a.filter(at_number(m));
    let fb = b.filter(at_number(m));
    let fc = c.filter(at_number(m));
    Seq::filter_distributes_over_add(a + b, c, at_number(m));
    Seq::filter_distributes_over_add(a, b, at_number(m));
    assert((a + b + c).filter(at_number(m)) == fa + fb + fc);
    assert forall|k: int| 0 <= k < fa.len() implies (#[trigger] fa[k]).kind_rank() == 0 by {
        assert(fa.contains(fa[k]));
        a.lemma_filter_contains_rev(at_number(m), fa[k]);
        let x = choose|x: int| 0 <= x < a.len() && a[x] == fa[k];
        assert(a[x].kind_rank() == 0);
    }
    assert forall|k: int| 0 <= k < fb.len() implies (#[trigger] fb[k]).kind_rank() == 1 by {
        assert(fb.contains(fb[k]));
        b.lemma_filter_contains_rev(at_number(m), fb[k]);
        let x = choose|x: int| 0 <= x < b.len() && b[x] == fb[k];
        assert(b[x].kind_rank() == 1);
    }
    assert forall|k: int| 0 <= k < fc.len() implies (#[trigger] fc[k]).kind_rank() == 2 by {
        assert(fc.contains(fc[k]));
        c.lemma_filter_contains_rev(at_number(m), fc[k]);
        let x = choose|x: int| 0 <= x < c.len() && c[x] == fc[k];
        assert(c[x].kind_rank() == 2);
    }
    let f = fa + fb + fc;
    assert forall|k1: int, k2: int|
        0 <= k1 <= k2 < f.len() implies (#[trigger] f[k1]).kind_rank() <= (
    #[trigger] f[k2]).kind_rank() by {
        let r1 = if k1 < fa.len() {
            0int
        } else if k1 < fa.len() + fb.len() {
            1int
        } else {
            2int
        };
        let r2 = if k2 < fa.len() {
            0int
        } else if k2 < fa.len() + fb.len() {
            1int
        } else {
            2int
        };
        assert(f[k1].kind_rank() == r1);
        assert(f[k2].kind_rank() == r2);
    }
}

/// Returns the blocks of the closed range `[from, to]` that carry at least
/// one matching trigger, in ascending block-number order, the terminal
/// block always included (possibly with no triggers). Each block's
/// triggers are exactly the collated triggers of its number: all matching
/// logs first, then all matching calls, then the block-level triggers. The
/// terminal entry's block is checked against the hash pinned for `to`. Any
/// sub-scan failure fails the whole call; no partial result is returned,
/// and `InvalidRange` is returned exactly for a backwards range (an
/// upstream answer claiming it is reported as a protocol violation).
#[verifier::spinoff_prover]
#[verifier::loop_isolation(false)]
#[verifier::rlimit(80)]
pub fn blocks_with_triggers<C: EthereumAdapter>(
    eth: &C,
    from: u64,
    to: u64,
    log_filter: &EthereumLogFilter,
    call_filter: &EthereumCallFilter,
    block_filter: &EthereumBlockFilter,
) -> (r: Result<Vec<EthereumBlockWithTriggers>, EthereumAdapterError>)
    requires
        block_filter.wf(),
    ensures
        from > to <==> (r is Err && r->Err_0 is InvalidRange),
        match r {
            Ok(bs) => {
                &&& forall|i: int, j: int|
                    0 <= i < j < bs@.len() ==> (#[trigger] bs@[i]).spec_number() < (
                    #[trigger] bs@[j]).spec_number()
                &&& exists|i: int| 0 <= i < bs@.len() && (#[trigger] bs@[i]).spec_number() == to
                &&& forall|i: int|
                    0 <= i < bs@.len() ==> from <= (#[trigger] bs@[i]).spec_number() <= to
                &&& forall|i: int|
                    0 <= i < bs@.len() ==> (#[trigger] bs@[i]).ethereum_block is Final
                &&& forall|i: int, k: int|
                    0 <= i < bs@.len() && 0 <= k < bs@[i].triggers@.len() ==> (
                    #[trigger] bs@[i].triggers@[k]).spec_block_number() == bs@[i].spec_number()
                &&& forall|i: int|
                    0 <= i < bs@.len() && (#[trigger] bs@[i]).spec_number() != to
                        ==> bs@[i].triggers@.len() > 0
                &&& forall|i: int, k1: int, k2: int|
                    0 <= i < bs@.len() && 0 <= k1 <= k2 < bs@[i].triggers@.len() ==> (
                    #[trigger] bs@[i].triggers@[k1]).kind_rank() <= (
                    #[trigger] bs@[i].triggers@[k2]).kind_rank()
                &&& (all_filters_trivial(*log_filter, *call_filter, *block_filter) ==> bs@.len()
                    == 1 && bs@[0].spec_number() == to && bs@[0].triggers@.len() == 0)
            },
            Err(_) => true,
        },
{
    if from > to {
        return Err(EthereumAdapterError::InvalidRange);
    }
    let mut all: Vec<EthereumTrigger> = Vec::new();
    let ghost mut log_seg: Seq<EthereumTrigger> = Seq::<EthereumTrigger>::empty();
    let ghost mut call_seg: Seq<EthereumTrigger> = Seq::<EthereumTrigger>::empty();
    let ghost mut block_seg: Seq<EthereumTrigger> = Seq::<EthereumTrigger>::empty();

    if !log_filter.is_empty() {
        let logs = match eth.logs_in_block_range(from, to, log_filter) {
            Ok(v) => v,
            Err(e) => {
                return Err(reclassify_upstream_error(e));
            },
        };
        match log_triggers(logs, from, to) {
            Ok(mut ts) => {
                proof {
                    log_seg = ts@;
                }
                all.append(&mut ts);
            },
            Err(e) => {
                return Err(e);
            },
        }
    }
    if !call_filter.is_empty() {
        let calls = match eth.calls_in_block_range(from, to, call_filter) {
            Ok(v) => v,
            Err(e) => {
                return Err(reclassify_upstream_error(e));
            },
        };
        match call_triggers(calls, from, to) {
            Ok(mut ts) => {
                proof {
                    call_seg = ts@;
                }
                all.append(&mut ts);
            },
            Err(e) => {
                return Err(e);
            },
        }
    }
    if block_filter.trigger_every_block {
        let ptrs = match eth.block_range_to_ptrs(from, to) {
            Ok(v) => v,
            Err(e) => {
                return Err(reclassify_upstream_error(e));
            },
        };
        match block_ptr_triggers(ptrs, from, to) {
            Ok(mut ts) => {
                proof {
                    block_seg = ts@;
                }
                all.append(&mut ts);
            },
            Err(e) => {
                return Err(e);
            },
        }
    } else if block_filter.contract_addresses().len() > 0 {
        let derived = EthereumCallFilter::from_block_filter(block_filter);
        let calls = match eth.calls_in_block_range(from, to, &derived) {
            Ok(v) => v,
            Err(e) => {
                return Err(reclassify_upstream_error(e));
            },
        };
        match block_call_triggers(calls, from, to) {
            Ok(mut ts) => {
                proof {
                    block_seg = ts@;
                }
                all.append(&mut ts);
            },
            Err(e) => {
                return Err(e);
            },
        }
    }
    proof {
        assert(all@ =~= log_seg + call_seg + block_seg);
        assert(all_filters_trivial(*log_filter, *call_filter, *block_filter) ==> all@.len() == 0);
    }
    let ghost all0 = all@;

    // Pin the terminal hash.
    let to_hash = match eth.block_hash_by_block_number(to) {
        Ok(Some(h)) => h,
        Ok(None) => {
            return Err(EthereumAdapterError::UpstreamProtocol);
        },
        Err(e) => {
            return Err(reclassify_upstream_error(e));
        },
    };

    let hashes = collect_hashes(&all, to_hash);

    // Group the triggers by block number.
    let mut groups = TriggersByBlock::new();
    let mut rest = all;
    let total = rest.len();
    let mut k: usize = 0;
    proof {
        assert(rest@ =~= all0.skip(0));
        assert forall|m: u64| #[trigger] groups.spec_at(m) == all0.take(0).filter(
            at_number(m),
        ) by {
            assert(all0.take(0) =~= Seq::<EthereumTrigger>::empty());
            reveal(Seq::filter);
        }
    }
    while rest.len() > 0
        invariant
            total == all0.len(),
            k + rest@.len() == all0.len(),
            rest@ == all0.skip(k as int),
            groups.wf(),
            forall|m: u64| #[trigger] groups.spec_at(m) == all0.take(k as int).filter(
                at_number(m),
            ),
            forall|m: u64|
                #[trigger] groups.contains_key(m) ==> exists|j: int|
                    0 <= j < k && (#[trigger] all0[j]).spec_block_number() == m,
        decreases rest@.len(),
    {
        let t = rest.remove(0);
        proof {
            assert(t == all0[k as int]);
            assert(rest@ =~= all0.skip(k + 1 as int));
        }
        groups.insert(t);
        proof {
            assert(all0.take(k + 1 as int) =~= all0.take(k as int).push(all0[k as int]));
            assert forall|m: u64| #[trigger] groups.spec_at(m) == all0.take(k + 1 as int).filter(
                at_number(m),
            ) by {
                all0.take(k as int).lemma_filter_push(all0[k as int], at_number(m));
                if m == t.spec_block_number() {
                    assert(at_number(m)(all0[k as int]));
                } else {
                    assert(!at_number(m)(all0[k as int]));
                }
            }
            assert forall|m: u64| #[trigger] groups.contains_key(m) implies exists|j: int|
                0 <= j < k + 1 && (#[trigger] all0[j]).spec_block_number() == m by {
                if m == t.spec_block_number() {
                    assert((#[trigger] all0[k as int]).spec_block_number() == m);
                } else {
                    let j = choose|j: int|
                        0 <= j < k && (#[trigger] all0[j]).spec_block_number() == m;
                    assert((#[trigger] all0[j]).spec_block_number() == m);
                }
            }
        }
        k += 1;
    }
    proof {
        assert(all0.take(k as int) =~= all0);
    }

    // Make sure the terminal block is present, even with no triggers.
    let ghost g_before = groups;
    groups.ensure_key(to);

    let ghost ge = groups.entries@;
    proof {
        // Every group key sits in the range, the terminal key exists, and
        // every non-terminal group is non-empty.
        assert forall|i: int| 0 <= i < ge.len() implies from <= (#[trigger] ge[i]).0 <= to && (
        ge[i].0 != to ==> ge[i].1@.len() > 0) && ge[i].1@ == all0.filter(at_number(ge[i].0)) by {
            groups.lemma_at_index(i);
            assert(groups.contains_key(ge[i].0));
            if ge[i].0 != to {
                let j = choose|j: int|
                    0 <= j < all0.len() && (#[trigger] all0[j]).spec_block_number() == ge[i].0;
                assert(from <= all0[j].spec_block_number() <= to) by {
                    assert(all0 == log_seg + call_seg + block_seg);
                }
                assert(at_number(ge[i].0)(all0[j]));
                all0.lemma_filter_contains(at_number(ge[i].0), j);
                assert(all0.filter(at_number(ge[i].0)).contains(all0[j]));
            }
        }
        assert(groups.contains_key(to));
    }
    let blocks = match eth.load_blocks(hashes) {
        Ok(v) => v,
        Err(e) => {
            return Err(reclassify_upstream_error(e));
        },
    };
    match assemble_blocks(groups, blocks, to, to_hash) {
        Ok(bs) => {
            proof {
                assert forall|i: int, k1: int, k2: int|
                    0 <= i < bs@.len() && 0 <= k1 <= k2 < bs@[i].triggers@.len() implies (
                #[trigger] bs@[i].triggers@[k1]).kind_rank() <= (
                #[trigger] bs@[i].triggers@[k2]).kind_rank() by {
                    lemma_rank_monotone(log_seg, call_seg, block_seg, ge[i].0);
                    assert(bs@[i].triggers@ == all0.filter(at_number(ge[i].0)));
                }
                assert forall|i: int, k2: int|
                    0 <= i < bs@.len() && 0 <= k2 < bs@[i].triggers@.len() implies (
                #[trigger] bs@[i].triggers@[k2]).spec_block_number() == bs@[i].spec_number() by {
                    assert(bs@[i].triggers@ == all0.filter(at_number(ge[i].0)));
                    all0.lemma_filter_pred(at_number(ge[i].0), k2);
                }
                let ti = choose|i: int| 0 <= i < ge.len() && (#[trigger] ge[i]).0 == to;
                assert(bs@[ti].spec_number() == to);
                if all_filters_trivial(*log_filter, *call_filter, *block_filter) {
                    assert(all0.len() == 0);
                    assert(g_before.entries@.len() == 0) by {
                        if g_before.entries@.len() > 0 {
                            g_before.lemma_at_index(0);
                            assert(g_before.contains_key(g_before.entries@[0].0));
                        }
                    }
                    assert(!g_before.contains_key(to)) by {
                        if g_before.contains_key(to) {
                            g_before.lemma_at_index(choose|i: int|
                                0 <= i < g_before.entries@.len() && (
                                #[trigger] g_before.entries@[i]).0 == to);
                        }
                    }
                    assert(ge.len() == 1);
                    assert(bs@[0].triggers@ == all0.filter(at_number(to)));
                    assert(all0.filter(at_number(to)).len() <= all0.len()) by {
                        all0.lemma_filter_len(at_number(to));
                    }
                }
            }
            Ok(bs)
        },
        Err(e) => Err(e),
    }
}

/// Pointwise equivalence extends under push.
proof fn lemma_triggers_equiv_push(
    a: Seq<EthereumTrigger>,
    b: Seq<EthereumTrigger>,
    x: EthereumTrigger,
    y: EthereumTrigger,
)
    requires
        triggers_equiv(a, b),
        trigger_equiv(x, y),
    ensures
        triggers_equiv(a.push(x), b.push(y)),
{
    assert forall|i: int| 0 <= i < a.push(x).len() implies trigger_equiv(
        #[trigger] a.push(x)[i],
        b.push(y)[i],
    ) by {
        if i < a.len() {
            assert(a.push(x)[i] == a[i]);
            assert(b.push(y)[i] == b[i]);
        }
    }
}

#[verifier::loop_isolation(false)]
fn copy_bytes(v: &Vec<u8>) -> (r: Vec<u8>)
    ensures
        r@ == v@,
{
    let n = v.len();
    let mut r: Vec<u8> = Vec::new();
    let mut k: usize = 0;
    while k < n
        invariant
            k <= n,
            n == v@.len(),
            r@ == v@.take(k as int),
        decreases n - k,
    {
        r.push(v[k]);
        proof {
            assert(v@.take(k + 1 as int) =~= v@.take(k as int).push(v@[k as int]));
        }
        k += 1;
    }
    proof {
        assert(v@.take(n as int) =~= v@);
    }
    r
}

#[verifier::loop_isolation(false)]
fn copy_topics(v: &Vec<H256>) -> (r: Vec<H256>)
    ensures
        r@ == v@,
{
    let n = v.len();
    let mut r: Vec<H256> = Vec::new();
    let mut k: usize = 0;
    while k < n
        invariant
            k <= n,
            n == v@.len(),
            r@ == v@.take(k as int),
        decreases n - k,
    {
        r.push(v[k]);
        proof {
            assert(v@.take(k + 1 as int) =~= v@.take(k as int).push(v@[k as int]));
        }
        k += 1;
    }
    proof {
        assert(v@.take(n as int) =~= v@);
    }
    r
}

fn copy_log(l: &Log) -> (r: Log)
    ensures
        log_equiv(r, *l),
{
    Log {
        address: l.address,
        topics: copy_topics(&l.topics),
        data: copy_bytes(&l.data),
        block_number: l.block_number,
        block_hash: l.block_hash,
    }
}

fn copy_call(c: &EthereumCall) -> (r: EthereumCall)
    ensures
        call_equiv(r, *c),
{
    EthereumCall {
        to: c.to,
        input: copy_bytes(&c.input),
        block_number: c.block_number,
        block_hash: c.block_hash,
    }
}

#[verifier::loop_isolation(false)]
fn copy_block(b: &EthereumBlock) -> (r: EthereumBlock)
    ensures
        block_equiv(r, *b),
{
    let n = b.logs.len();
    let mut logs: Vec<Log> = Vec::new();
    let mut k: usize = 0;
    while k < n
        invariant
            k <= n,
            n == b.logs@.len(),
            logs@.len() == k,
            forall|j: int| 0 <= j < k ==> log_equiv(#[trigger] logs@[j], b.logs@[j]),
        decreases n - k,
    {
        logs.push(copy_log(&b.logs[k]));
        k += 1;
    }
    let m = b.calls.len();
    let mut calls: Vec<EthereumCall> = Vec::new();
    let mut l: usize = 0;
    while l < m
        invariant
            l <= m,
            m == b.calls@.len(),
            calls@.len() == l,
            forall|j: int| 0 <= j < l ==> call_equiv(#[trigger] calls@[j], b.calls@[j]),
        decreases m - l,
    {
        calls.push(copy_call(&b.calls[l]));
        l += 1;
    }
    EthereumBlock { number: b.number, hash: b.hash, logs, calls }
}

/// Evaluates the three filters against one supplied block: the result
/// carries the block itself and, in order, a log trigger for each of its
/// logs the log filter matches, a call trigger for each of its calls the
/// call filter matches, and the block-level triggers — one every-block
/// trigger when asked for, else one per call to a watched address. This
/// matches a range scan of the single-block range, evaluated locally.
#[verifier::spinoff_prover]
#[verifier::loop_isolation(false)]
pub fn triggers_in_block(
    block: &EthereumBlock,
    log_filter: &EthereumLogFilter,
    call_filter: &EthereumCallFilter,
    block_filter: &EthereumBlockFilter,
) -> (r: EthereumBlockWithTriggers)
    requires
        call_filter.wf(),
        block_filter.wf(),
    ensures
        r.ethereum_block is Final,
        block_equiv(r.ethereum_block.spec_block(), *block),
        triggers_equiv(
            r.triggers@,
            block.logs@.filter(log_pred(*log_filter)).map_values(log_to_trigger())
                + block.calls@.filter(call_pred(*call_filter)).map_values(call_to_trigger()) + (
            if block_filter.trigger_every_block {
                seq![
                    EthereumTrigger::Block(
                        (EthereumBlockPointer { hash: block.hash, number: block.number }),
                        EthereumBlockTriggerType::Every,
                    ),
                ]
            } else {
                block.calls@.filter(block_call_pred(*block_filter)).map_values(
                    call_to_block_trigger(),
                )
            }),
        ),
{
    let ghost ideal_a = block.logs@.filter(log_pred(*log_filter)).map_values(log_to_trigger());
    let ghost ideal_b = block.calls@.filter(call_pred(*call_filter)).map_values(call_to_trigger());
    let mut triggers: Vec<EthereumTrigger> = Vec::new();

    let n = block.logs.len();
    let mut k: usize = 0;
    proof {
        reveal(Seq::filter);
        assert(block.logs@.take(0).filter(log_pred(*log_filter)).map_values(log_to_trigger()) =~= Seq::<EthereumTrigger>::empty());
    }
    while k < n
        invariant
            k <= n,
            n == block.logs@.len(),
            triggers_equiv(
                triggers@,
                block.logs@.take(k as int).filter(log_pred(*log_filter)).map_values(
                    log_to_trigger(),
                ),
            ),
        decreases n - k,
    {
        let ghost pre = triggers@;
        let ghost ideal_pre = block.logs@.take(k as int).filter(log_pred(*log_filter)).map_values(
            log_to_trigger(),
        );
        proof {
            assert(block.logs@.take(k + 1 as int) =~= block.logs@.take(k as int).push(
                block.logs@[k as int],
            ));
            block.logs@.take(k as int).lemma_filter_push(
                block.logs@[k as int],
                log_pred(*log_filter),
            );
        }
        if log_filter.matches(&block.logs[k]) {
            let l = copy_log(&block.logs[k]);
            triggers.push(EthereumTrigger::Log(l));
            proof {
                block.logs@.take(k as int).filter(log_pred(*log_filter)).lemma_push_map_commute(
                    log_to_trigger(),
                    block.logs@[k as int],
                );
                lemma_triggers_equiv_push(
                    pre,
                    ideal_pre,
                    EthereumTrigger::Log(l),
                    EthereumTrigger::Log(block.logs@[k as int]),
                );
            }
        }
        k += 1;
    }
    proof {
        assert(block.logs@.take(n as int) =~= block.logs@);
        assert(triggers_equiv(triggers@, ideal_a));
    }

    let ghost done_a = triggers@;
    let m = block.calls.len();
    let mut l: usize = 0;
    proof {
        assert(block.calls@.take(0).filter(call_pred(*call_filter)).map_values(call_to_trigger())
            =~= Seq::<EthereumTrigger>::empty());
        assert(done_a.len() == ideal_a.len());
    }
    while l < m
        invariant
            l <= m,
            m == block.calls@.len(),
            triggers@.len() >= done_a.len(),
            triggers@.take(done_a.len() as int) == done_a,
            triggers_equiv(
                triggers@,
                ideal_a + block.calls@.take(l as int).filter(call_pred(*call_filter)).map_values(
                    call_to_trigger(),
                ),
            ),
        decreases m - l,
    {
        let ghost pre = triggers@;
        let ghost ideal_pre = ideal_a + block.calls@.take(l as int).filter(
            call_pred(*call_filter),
        ).map_values(call_to_trigger());
        proof {
            assert(block.calls@.take(l + 1 as int) =~= block.calls@.take(l as int).push(
                block.calls@[l as int],
            ));
            block.calls@.take(l as int).lemma_filter_push(
                block.calls@[l as int],
                call_pred(*call_filter),
            );
        }
        if call_filter.matches(&block.calls[l]) {
            let c = copy_call(&block.calls[l]);
            triggers.push(EthereumTrigger::Call(c));
            proof {
                block.calls@.take(l as int).filter(call_pred(*call_filter)).lemma_push_map_commute(
                    call_to_trigger(),
                    block.calls@[l as int],
                );
                lemma_triggers_equiv_push(
                    pre,
                    ideal_pre,
                    EthereumTrigger::Call(c),
                    EthereumTrigger::Call(block.calls@[l as int]),
                );
                assert((ideal_a + block.calls@.take(l as int).filter(
                    call_pred(*call_filter),
                ).map_values(call_to_trigger())).push(EthereumTrigger::Call(block.calls@[l as int]))
                    =~= ideal_a + block.calls@.take(l + 1 as int).filter(
                    call_pred(*call_filter),
                ).map_values(call_to_trigger()));
                assert(triggers@.take(done_a.len() as int) =~= done_a);
            }
        }
        l += 1;
    }
    proof {
        assert(block.calls@.take(m as int) =~= block.calls@);
        assert(triggers_equiv(triggers@, ideal_a + ideal_b));
    }

    let ghost done_ab = triggers@;
    if block_filter.trigger_every_block {
        let ptr = EthereumBlockPointer { hash: block.hash, number: block.number };
        let t = EthereumTrigger::Block(ptr, EthereumBlockTriggerType::Every);
        let ghost tg = t;
        triggers.push(t);
        proof {
            lemma_triggers_equiv_push(done_ab, ideal_a + ideal_b, tg, tg);
            assert((ideal_a + ideal_b).push(tg) =~= ideal_a + ideal_b + seq![tg]);
        }
    } else {
        let mut j: usize = 0;
        proof {
            assert(block.calls@.take(0).filter(block_call_pred(*block_filter)).map_values(
                call_to_block_trigger(),
            ) =~= Seq::<EthereumTrigger>::empty());
        }
        while j < m
            invariant
                j <= m,
                m == block.calls@.len(),
                triggers_equiv(
                    triggers@,
                    ideal_a + ideal_b + block.calls@.take(j as int).filter(
                        block_call_pred(*block_filter),
                    ).map_values(call_to_block_trigger()),
                ),
            decreases m - j,
        {
            let ghost pre = triggers@;
            let ghost ideal_pre = ideal_a + ideal_b + block.calls@.take(j as int).filter(
                block_call_pred(*block_filter),
            ).map_values(call_to_block_trigger());
            proof {
                assert(block.calls@.take(j + 1 as int) =~= block.calls@.take(j as int).push(
                    block.calls@[j as int],
                ));
                block.calls@.take(j as int).lemma_filter_push(
                    block.calls@[j as int],
                    block_call_pred(*block_filter),
                );
            }
            if block_filter.has_address(&block.calls[j].to) {
                let ptr = EthereumBlockPointer {
                    hash: block.calls[j].block_hash,
                    number: block.calls[j].block_number,
                };
                let t = EthereumTrigger::Block(
                    ptr,
                    EthereumBlockTriggerType::WithCallTo(block.calls[j].to),
                );
                triggers.push(t);
                proof {
                    block.calls@.take(j as int).filter(
                        block_call_pred(*block_filter),
                    ).lemma_push_map_commute(call_to_block_trigger(), block.calls@[j as int]);
                    assert(t == call_to_block_trigger()(block.calls@[j as int]));
                    lemma_triggers_equiv_push(pre, ideal_pre, t, t);
                    assert(ideal_pre.push(t) =~= ideal_a + ideal_b + block.calls@.take(
                        j + 1 as int,
                    ).filter(block_call_pred(*block_filter)).map_values(call_to_block_trigger()));
                }
            }
            j += 1;
        }
        proof {
            assert(block.calls@.take(m as int) =~= block.calls@);
        }
    }
    EthereumBlockWithTriggers::new(triggers, BlockFinality::Final(copy_block(block)))
}

} // verus!
