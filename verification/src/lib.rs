//! The consensus graph of a tree-graph ledger, with proofs.
//!
//! Blocks form a directed graph: each has a parent, which makes a tree, and may refer to further
//! blocks. The heaviest line of the tree is the pivot chain; every pivot block stands for an epoch
//! of blocks that are executed in one order. A sparse chain of timer blocks tells how much time has
//! passed and confirms blocks for good. Headers carry the states of earlier epochs and blame
//! blocks that carry wrong ones.
//!
//! The state of the graph is [`graph::ConsensusGraphInner`]; what every state keeps is
//! [`graph::ConsensusGraphInner::wf`]. Its operations stand in the modules by subject:
//!
//! - `genesis`, `new_block`, `new_block_rules`, `insertion`, `referee_rules`, `extend`: the first state
//!   and new blocks;
//! - `reach`, `age`, `topo`, `epoch`, `past`, `order`: pasts, futures, epochs and their execution order;
//! - `weight`, `weight_rules`, `past_weight_rules`, `anticone_rules`, `adaptive`, `adaptive_rules`,
//!   `subtree_rules`, `mining`, `mining_rules`: weights and adaptive blocks;
//! - `timer`, `timer_chain`, `timer_rules`, `confirmation`: the timer chain and what it confirms;
//! - `blame`, `trust`, `trust_rules`, `state`, `state_rules`, `vote`, `blame_rules`: states, blame and
//!   votes;
//! - `metadata`, `metadata_rules`, `stable`, `stable_rules`, `consistency`: the pivot chain and what is
//!   kept for it;
//! - `difficulty`, `reward`, `query`, `query_rules`: what is asked of the graph.
//!
//! Public proof functions whose names begin with `law` state what holds of several operations
//! together. The module `admin` holds the internal contract that keeps the admins of contracts.
pub mod adaptive;
pub mod adaptive_rules;
pub mod admin;
pub mod age;
pub mod anticone_rules;
pub mod blame;
pub mod blame_rules;
pub mod block_data;
pub mod caches;
pub mod confirmation;
pub mod consistency;
pub mod difficulty;
pub mod epoch;
pub mod extend;
pub mod genesis;
pub mod graph;
pub mod hash_map;
pub mod index_set;
pub mod insertion;
pub mod keccak;
pub mod lineage;
pub mod lists;
pub mod metadata;
pub mod metadata_rules;
pub mod mining;
pub mod mining_rules;
pub mod new_block;
pub mod new_block_rules;
pub mod node;
pub mod order;
pub mod past;
pub mod past_weight_rules;
pub mod query;
pub mod query_rules;
pub mod reach;
pub mod referee_rules;
pub mod reward;
pub mod stable;
pub mod stable_rules;
pub mod state;
pub mod state_rules;
pub mod subtree_rules;
pub mod sums;
pub mod text;
pub mod timer;
pub mod timer_chain;
pub mod timer_rules;
pub mod topo;
pub mod tree;
pub mod trust;
pub mod trust_rules;
pub mod types;
pub mod vote;
pub mod weight;
pub mod weight_rules;
