//! The nodes of the consensus graph and the arena that holds them.
use slab::Slab;
use std::collections::HashSet;

use vstd::prelude::*;

use crate::types::{H256, NULL, NULLU64, U256};

verus! {

/// The part of a node that changes while the block is processed.
pub struct ConsensusGraphNodeData {
    pub epoch_number: u64,
    pub partial_invalid: bool,
    pub pending: bool,
    /// How many of the parent and the referees are not active yet. A block is active only if
    /// the counter is zero.
    pub active_cnt: usize,
    pub activated: bool,
    /// The force confirm point in the past view of this block.
    pub force_confirm: usize,
    /// The blocks of the epoch of which this block is the pivot block, without the block itself.
    pub blockset_in_own_view_of_epoch: Vec<usize>,
    /// The executable blocks of this epoch in execution order: those that are in the same era
    /// as the pivot block, and the pivot block last.
    pub ordered_executable_epoch_blocks: Vec<usize>,
    /// Whether `blockset_in_own_view_of_epoch` was dropped because of its size.
    pub blockset_cleared: bool,
    pub sequence_number: u64,
    /// The height of the fork point that `vote_valid` was computed for.
    pub vote_valid_lca_height: u64,
    /// Whether the blame that this block votes for is correct.
    pub vote_valid: bool,
    /// Whether the states stored in the header are correct, once that was evaluated.
    pub state_valid: Option<bool>,
}

impl ConsensusGraphNodeData {
    /// The data of a block that has just been received.
    pub fn new(epoch_number: u64, sequence_number: u64, active_cnt: usize) -> (r: Self)
        ensures
            r.epoch_number == epoch_number,
            !r.partial_invalid,
            !r.pending,
            r.active_cnt == active_cnt,
            !r.activated,
            r.force_confirm == NULL,
            r.blockset_in_own_view_of_epoch@ == Seq::<usize>::empty(),
            r.ordered_executable_epoch_blocks@ == Seq::<usize>::empty(),
            !r.blockset_cleared,
            r.sequence_number == sequence_number,
            r.vote_valid_lca_height == NULLU64,
            r.vote_valid,
            r.state_valid is None,
    {
        ConsensusGraphNodeData {
            epoch_number,
            partial_invalid: false,
            pending: false,
            active_cnt,
            activated: false,
            force_confirm: NULL,
            blockset_in_own_view_of_epoch: Vec::new(),
            ordered_executable_epoch_blocks: Vec::new(),
            blockset_cleared: false,
            sequence_number,
            vote_valid_lca_height: NULLU64,
            vote_valid: true,
            state_valid: None,
        }
    }
}

/// What is kept for each block of the pivot chain.
pub struct ConsensusGraphPivotData {
    /// The blocks whose `last_pivot_in_past` points to this position of the pivot chain.
    pub last_pivot_in_past_blocks: HashSet<usize>,
}

impl Default for ConsensusGraphPivotData {
    fn default() -> (r: Self)
        ensures
            r.last_pivot_in_past_blocks@ == Set::<usize>::empty(),
    {
        ConsensusGraphPivotData { last_pivot_in_past_blocks: HashSet::new() }
    }
}

/// A block in the consensus graph.
pub struct ConsensusGraphNode {
    pub hash: H256,
    pub height: u64,
    pub is_heavy: bool,
    pub difficulty: U256,
    /// The number of blocks in the past of this block, without the block itself.
    pub past_num_blocks: u64,
    /// The total weight of the past of this block in its own era.
    pub past_era_weight: i128,
    pub is_timer: bool,
    /// The longest chain of all timer blocks.
    pub timer_longest_difficulty: i128,
    /// The last timer block in the chain.
    pub last_timer_block_arena_index: usize,
    /// The height of the closest timer block in the longest timer chain.
    pub timer_chain_height: u64,
    pub adaptive: bool,
    pub parent: usize,
    /// The genesis of the era of this block; `NULL` if the block is not in the subtree of the
    /// current era genesis.
    pub era_block: usize,
    pub last_pivot_in_past: u64,
    pub children: Vec<usize>,
    pub referrers: Vec<usize>,
    pub referees: Vec<usize>,
    pub data: ConsensusGraphNodeData,
}

impl ConsensusGraphNode {
    pub fn past_era_weight(&self) -> (r: i128)
        ensures
            r == self.past_era_weight,
    {
        self.past_era_weight
    }

    pub fn adaptive(&self) -> (r: bool)
        ensures
            r == self.adaptive,
    {
        self.adaptive
    }

    pub fn pending(&self) -> (r: bool)
        ensures
            r == self.data.pending,
    {
        self.data.pending
    }

    pub fn partial_invalid(&self) -> (r: bool)
        ensures
            r == self.data.partial_invalid,
    {
        self.data.partial_invalid
    }

    pub fn era_block(&self) -> (r: usize)
        ensures
            r == self.era_block,
    {
        self.era_block
    }
}

/// `slab::Slab`.
#[verifier::external_type_specification]
#[verifier::external_body]
#[verifier::reject_recursive_types(T)]
pub struct ExSlab<T>(Slab<T>);

/// The nodes in an arena, by their keys.
pub uninterp spec fn arena_nodes(arena: Slab<ConsensusGraphNode>) -> Map<
    usize,
    ConsensusGraphNode,
>;

/// The key that the next insertion into an arena takes.
pub uninterp spec fn arena_next_key(arena: Slab<ConsensusGraphNode>) -> usize;

/// `Slab::new`: the arena is empty and its first key is zero.
#[verifier::external_body]
pub(crate) fn arena_new() -> (arena: Slab<ConsensusGraphNode>)
    ensures
        arena_nodes(arena) == (Map::<usize, ConsensusGraphNode>::empty()),
        arena_next_key(arena) == 0,
{
    Slab::new()
}

/// `Slab::vacant_key`: the key of the next insertion; no node has it yet.
#[verifier::external_body]
pub(crate) fn arena_vacant_key(arena: &Slab<ConsensusGraphNode>) -> (key: usize)
    ensures
        key == arena_next_key(*arena),
        !arena_nodes(*arena).contains_key(key),
{
    arena.vacant_key()
}

/// `Slab::insert`: the node stands under the key that is returned, which was the next key and
/// was not taken; all other nodes stay where they are.
#[verifier::external_body]
pub(crate) fn arena_insert(
    arena: &mut Slab<ConsensusGraphNode>,
    node: ConsensusGraphNode,
) -> (key: usize)
    ensures
        key == arena_next_key(*old(arena)),
        !arena_nodes(*old(arena)).contains_key(key),
        arena_nodes(*final(arena)) == arena_nodes(*old(arena)).insert(key, node),
{
    arena.insert(node)
}

/// `Index` on a slab: the node under a key that is taken.
#[verifier::external_body]
pub(crate) fn arena_get(arena: &Slab<ConsensusGraphNode>, key: usize) -> (node:
    &ConsensusGraphNode)
    requires
        arena_nodes(*arena).contains_key(key),
    ensures
        *node == arena_nodes(*arena)[key],
{
    &arena[key]
}

/// `IndexMut` on a slab: the node under a key that is taken, for writing; what is written is the
/// node under that key afterwards, and nothing else changes.
#[verifier::external_body]
pub(crate) fn arena_get_mut(arena: &mut Slab<ConsensusGraphNode>, key: usize) -> (node:
    &mut ConsensusGraphNode)
    requires
        arena_nodes(*old(arena)).contains_key(key),
    ensures
        *node == arena_nodes(*old(arena))[key],
        arena_nodes(*final(arena)) == arena_nodes(*old(arena)).insert(key, *final(node)),
        arena_next_key(*final(arena)) == arena_next_key(*old(arena)),
{
    &mut arena[key]
}

/// `Slab::get`: the node under a key, if the key is taken.
#[verifier::external_body]
pub(crate) fn arena_find(arena: &Slab<ConsensusGraphNode>, key: usize) -> (node: Option<
    &ConsensusGraphNode,
>)
    ensures
        match node {
            Some(n) => arena_nodes(*arena).contains_key(key) && *n == arena_nodes(*arena)[key],
            None => !arena_nodes(*arena).contains_key(key),
        },
{
    arena.get(key)
}

/// `Slab::capacity`: a bound above all keys that are taken. How far above depends on the
/// allocator and is not said.
#[verifier::external_body]
pub(crate) fn arena_capacity(arena: &Slab<ConsensusGraphNode>) -> (n: usize)
    ensures
        forall|key: usize| #[trigger] arena_nodes(*arena).contains_key(key) ==> key < n,
{
    arena.capacity()
}

} // verus!
