//! The trigger-filter and block-ingestion core of a subgraph indexer.
//!
//! From a declarative set of data sources the crate builds filters over
//! logs, contract calls and blocks, compresses the log filter into a small
//! set of remote query windows, and scans a closed block range for the
//! ordered sequence of blocks that carry at least one matching trigger.

pub mod adapter;
pub mod block_filter;
pub mod call_filter;
pub mod keccak;
pub mod log_filter;
pub mod resolver;
pub mod trigger;
pub mod types;
