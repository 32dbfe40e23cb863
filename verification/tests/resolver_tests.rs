use std::sync::Arc;

use ethereum_adapter::resolver::{
    associate_statuses, ChainIndexingStatus, DeploymentAssignment, EthereumIndexingStatus,
    IndexNodeResolver, IndexingStatusWithoutNode,
};
use ethereum_adapter::types::{EthereumBlockPointer, H256};

fn status(subgraph: &str) -> IndexingStatusWithoutNode {
    IndexingStatusWithoutNode {
        subgraph: String::from(subgraph),
        synced: true,
        failed: false,
        error: None,
        chains: vec![ChainIndexingStatus::Ethereum(EthereumIndexingStatus {
            network: String::from("mainnet"),
            chain_head_block: Some(EthereumBlockPointer {
                hash: H256::from_low_u64_be(100),
                number: 100,
            }),
            earliest_block: None,
            latest_block: None,
        })],
    }
}

#[test]
fn with_node_keeps_all_fields() {
    let s = status("Qm1");
    let joined = s.with_node(String::from("node-a"));
    assert_eq!(joined.subgraph, "Qm1");
    assert!(joined.synced);
    assert!(!joined.failed);
    assert!(joined.error.is_none());
    assert_eq!(joined.chains.len(), 1);
    assert_eq!(joined.node, "node-a");
}

#[test]
fn associate_keeps_only_assigned_statuses() {
    let statuses = vec![status("Qm1"), status("Qm2"), status("Qm3")];
    let assignments = vec![
        DeploymentAssignment { subgraph: String::from("Qm3"), node: String::from("node-c") },
        DeploymentAssignment { subgraph: String::from("Qm1"), node: String::from("node-a") },
    ];
    let joined = associate_statuses(statuses, &assignments);
    assert_eq!(joined.len(), 2);
    assert_eq!(joined[0].subgraph, "Qm1");
    assert_eq!(joined[0].node, "node-a");
    assert_eq!(joined[1].subgraph, "Qm3");
    assert_eq!(joined[1].node, "node-c");
}

#[test]
fn associate_takes_the_first_matching_assignment() {
    let statuses = vec![status("Qm1")];
    let assignments = vec![
        DeploymentAssignment { subgraph: String::from("Qm1"), node: String::from("node-a") },
        DeploymentAssignment { subgraph: String::from("Qm1"), node: String::from("node-b") },
    ];
    let joined = associate_statuses(statuses, &assignments);
    assert_eq!(joined.len(), 1);
    assert_eq!(joined[0].node, "node-a");
}

#[test]
fn resolver_new_keeps_its_capabilities() {
    let runner = Arc::new(String::from("runner"));
    let store = Arc::new(7u64);
    let resolver = IndexNodeResolver::new(runner.clone(), store.clone());
    assert_eq!(*resolver.graphql_runner, "runner");
    assert_eq!(*resolver.store, 7);
    let cloned = resolver.clone();
    assert_eq!(*cloned.store, 7);
}
