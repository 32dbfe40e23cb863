use vstd::prelude::*;

use crate::types::EthereumBlockPointer;
use std::sync::Arc;

verus! {

/// The indexing status of a subgraph on an Ethereum network (like mainnet
/// or ropsten).
#[derive(Clone, Debug)]
pub struct EthereumIndexingStatus {
    /// The network name (e.g. `mainnet` or `ropsten`).
    pub network: String,
    /// The current head block of the chain.
    pub chain_head_block: Option<EthereumBlockPointer>,
    /// The earliest block available for this subgraph.
    pub earliest_block: Option<EthereumBlockPointer>,
    /// The latest block that the subgraph has synced to.
    pub latest_block: Option<EthereumBlockPointer>,
}

/// Indexing status information for different chains (only Ethereum right
/// now).
#[derive(Clone, Debug)]
pub enum ChainIndexingStatus {
    Ethereum(EthereumIndexingStatus),
}

/// The ID of a subgraph deployment assignment: which node indexes which
/// subgraph.
#[derive(Clone, Debug)]
pub struct DeploymentAssignment {
    /// ID of the subgraph.
    pub subgraph: String,
    /// ID of the node that indexes the subgraph.
    pub node: String,
}

/// The overall indexing status of a subgraph, before an indexing node is
/// known for it.
#[derive(Clone, Debug)]
pub struct IndexingStatusWithoutNode {
    /// The subgraph ID.
    pub subgraph: String,
    /// Whether the subgraph has synced all the way to the current chain
    /// head.
    pub synced: bool,
    /// Whether the subgraph has failed syncing.
    pub failed: bool,
    /// If it has failed, an optional error.
    pub error: Option<String>,
    /// Indexing status on the chains involved in the subgraph's data
    /// sources.
    pub chains: Vec<ChainIndexingStatus>,
}

/// The overall indexing status of a subgraph.
#[derive(Clone, Debug)]
pub struct IndexingStatus {
    pub subgraph: String,
    pub synced: bool,
    pub failed: bool,
    pub error: Option<String>,
    pub chains: Vec<ChainIndexingStatus>,
    /// ID of the node that the subgraph is indexed by.
    pub node: String,
}

/// The status a node assignment turns a bare status into: the same fields
/// with the node attached.
pub open spec fn with_node_spec(s: IndexingStatusWithoutNode, node: String) -> IndexingStatus {
    IndexingStatus {
        subgraph: s.subgraph,
        synced: s.synced,
        failed: s.failed,
        error: s.error,
        chains: s.chains,
        node: node,
    }
}

impl IndexingStatusWithoutNode {
    /// Adds an indexing node ID to the status.
    pub fn with_node(self, node: String) -> (r: IndexingStatus)
        ensures
            r == with_node_spec(self, node),
    {
        IndexingStatus {
            subgraph: self.subgraph,
            synced: self.synced,
            failed: self.failed,
            error: self.error,
            chains: self.chains,
            node: node,
        }
    }
}

/// The first assignment whose subgraph ID equals the given one.
pub open spec fn assignment_for(
    assignments: Seq<DeploymentAssignment>,
    subgraph: Seq<char>,
) -> Option<DeploymentAssignment>
    decreases assignments.len(),
{
    if assignments.len() == 0 {
        None
    } else if assignments[0].subgraph@ == subgraph {
        Some(assignments[0])
    } else {
        assignment_for(assignments.drop_first(), subgraph)
    }
}

proof fn lemma_assignment_for_at(assignments: Seq<DeploymentAssignment>, subgraph: Seq<char>, j: int)
    requires
        0 <= j < assignments.len(),
        forall|x: int| 0 <= x < j ==> (#[trigger] assignments[x]).subgraph@ != subgraph,
        assignments[j].subgraph@ == subgraph,
    ensures
        assignment_for(assignments, subgraph) == Some(assignments[j]),
    decreases j,
{
    if j > 0 {
        let rest = assignments.drop_first();
        assert forall|x: int| 0 <= x < j - 1 implies (#[trigger] rest[x]).subgraph@
            != subgraph by {
            assert(rest[x] == assignments[x + 1]);
        }
        assert(rest[j - 1] == assignments[j]);
        lemma_assignment_for_at(rest, subgraph, j - 1);
    }
}

proof fn lemma_assignment_for_none(assignments: Seq<DeploymentAssignment>, subgraph: Seq<char>)
    requires
        forall|x: int|
            0 <= x < assignments.len() ==> (#[trigger] assignments[x]).subgraph@ != subgraph,
    ensures
        assignment_for(assignments, subgraph) is None,
    decreases assignments.len(),
{
    if assignments.len() > 0 {
        let rest = assignments.drop_first();
        assert forall|x: int| 0 <= x < rest.len() implies (#[trigger] rest[x]).subgraph@
            != subgraph by {
            assert(rest[x] == assignments[x + 1]);
        }
        lemma_assignment_for_none(rest, subgraph);
    }
}

/// Joining one status with the assignments: the status with its node when
/// an assignment names its subgraph, dropped otherwise; as a function
/// value.
pub open spec fn join_one(assignments: Seq<DeploymentAssignment>) -> spec_fn(
    IndexingStatusWithoutNode,
) -> Option<IndexingStatus> {
    |s: IndexingStatusWithoutNode|
        match assignment_for(assignments, s.subgraph@) {
            Some(a) => Some(with_node_spec(s, a.node)),
            None => None,
        }
}

/// Keeps the statuses whose subgraph has an active assignment, attaching
/// the assigned node to each; statuses without an assignment are dropped.
#[verifier::loop_isolation(false)]
pub fn associate_statuses(
    statuses: Vec<IndexingStatusWithoutNode>,
    assignments: &Vec<DeploymentAssignment>,
) -> (r: Vec<IndexingStatus>)
    ensures
        r@ == statuses@.filter_map(join_one(assignments@)),
{
    let ghost sts0 = statuses@;
    let mut rest = statuses;
    let mut r: Vec<IndexingStatus> = Vec::new();
    let total = rest.len();
    let mut k: usize = 0;
    proof {
        assert(rest@ =~= sts0.skip(0));
        reveal_with_fuel(Seq::filter_map, 1);
        assert(sts0.take(0).filter_map(join_one(assignments@)) =~= Seq::<IndexingStatus>::empty());
    }
    while rest.len() > 0
        invariant
            total == sts0.len(),
            k + rest@.len() == sts0.len(),
            rest@ == sts0.skip(k as int),
            r@ == sts0.take(k as int).filter_map(join_one(assignments@)),
        decreases rest@.len(),
    {
        let status = rest.remove(0);
        proof {
            assert(status == sts0[k as int]);
            assert(rest@ =~= sts0.skip(k + 1 as int));
            sts0.lemma_filter_map_take_succ(join_one(assignments@), k as int);
        }
        // find the first assignment for this subgraph
        let n = assignments.len();
        let mut j: usize = 0;
        let mut found = false;
        while j < n
            invariant
                j <= n,
                n == assignments@.len(),
                !found,
                forall|x: int| 0 <= x < j ==> (#[trigger] assignments@[x]).subgraph@
                    != status.subgraph@,
            decreases n - j,
        {
            if assignments[j].subgraph == status.subgraph {
                found = true;
                break ;
            }
            j += 1;
        }
        if found {
            proof {
                lemma_assignment_for_at(assignments@, status.subgraph@, j as int);
            }
            let node = assignments[j].node.clone();
            let joined = status.with_node(node);
            r.push(joined);
            proof {
                assert(join_one(assignments@)(sts0[k as int]) == Some(joined));
                assert(r@ =~= sts0.take(k + 1 as int).filter_map(join_one(assignments@)));
            }
        } else {
            proof {
                lemma_assignment_for_none(assignments@, status.subgraph@);
                assert(join_one(assignments@)(sts0[k as int]) is None);
                assert(r@ =~= sts0.take(k + 1 as int).filter_map(join_one(assignments@)));
            }
        }
        k += 1;
    }
    proof {
        assert(sts0.take(k as int) =~= sts0);
    }
    r
}

/// Resolver for the index node API: the capabilities it answers from.
#[derive(Clone, Debug)]
pub struct IndexNodeResolver<R, S> {
    pub graphql_runner: Arc<R>,
    pub store: Arc<S>,
}

impl<R, S> IndexNodeResolver<R, S> {
    pub fn new(graphql_runner: Arc<R>, store: Arc<S>) -> (r: Self)
        ensures
            r.graphql_runner == graphql_runner,
            r.store == store,
    {
        IndexNodeResolver { graphql_runner, store }
    }
}

} // verus!
