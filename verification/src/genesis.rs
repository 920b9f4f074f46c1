//! The first state of a graph: an era genesis and nothing else.
use std::collections::HashSet;

use vstd::prelude::*;

use crate::block_data::{BlockDataManager, BlockHeader};
use crate::caches::{AnticoneCache, PastSetCache};
use crate::graph::{
    children_wf, links_wf, ConsensusGraphInner, ConsensusInnerConfig, ProofOfWorkConfig,
};
use crate::hash_map::H256Map;
use crate::index_set::{index_limit, IndexSet};
use crate::node::{
    arena_get, arena_get_mut, arena_new, ConsensusGraphNode, ConsensusGraphNodeData,
    ConsensusGraphPivotData,
};
use crate::tree::{LinkCutTree, TreeNode};
use crate::types::{H256, NULL, NULLU64, U256};

verus! {

broadcast use vstd::std_specs::hash::group_hash_axioms;

/// The number that the bits of a `u128` stand for as an `i128`.
pub open spec fn as_signed(x: u128) -> int {
    if x <= i128::MAX {
        x as int
    } else {
        x - 0x1_0000_0000_0000_0000_0000_0000_0000_0000
    }
}

fn to_signed(x: u128) -> (r: i128)
    ensures
        r == as_signed(x),
{
    if x <= 0x7fff_ffff_ffff_ffff_ffff_ffff_ffff_ffff {
        x as i128
    } else {
        let y: u128 = 0xffff_ffff_ffff_ffff_ffff_ffff_ffff_ffff - x;
        -(y as i128) - 1
    }
}

/// Whether `n` is the node of an era genesis, with the given blocks in its epoch.
pub open spec fn is_genesis_node(
    n: ConsensusGraphNode,
    header: BlockHeader,
    conf: ConsensusInnerConfig,
    start_block_number: u64,
    epoch: Seq<usize>,
) -> bool {
    &&& n.hash == header.hash
    &&& n.height == header.height
    &&& n.is_heavy == (header.pow_quality.value() >= conf.heavy_block_difficulty_ratio
        * header.difficulty.value())
    &&& n.difficulty == header.difficulty
    &&& n.past_num_blocks == start_block_number
    &&& n.past_era_weight == 0
    &&& n.is_timer == (header.pow_quality.value() >= conf.timer_chain_block_difficulty_ratio
        * header.difficulty.value())
    &&& n.timer_longest_difficulty == 0
    &&& n.last_timer_block_arena_index == NULL
    &&& n.timer_chain_height == 0
    &&& n.adaptive == header.adaptive
    &&& n.parent == NULL
    &&& n.era_block == 0
    &&& n.last_pivot_in_past == header.height
    &&& n.children@ == Seq::<usize>::empty()
    &&& n.referrers@ == Seq::<usize>::empty()
    &&& n.referees@ == Seq::<usize>::empty()
    &&& n.data.epoch_number == header.height
    &&& !n.data.partial_invalid
    &&& !n.data.pending
    &&& n.data.active_cnt == 0
    &&& n.data.activated
    &&& n.data.force_confirm == NULL
    &&& n.data.blockset_in_own_view_of_epoch@ == Seq::<usize>::empty()
    &&& n.data.ordered_executable_epoch_blocks@ == epoch
    &&& !n.data.blockset_cleared
    &&& n.data.sequence_number == 0
    &&& n.data.vote_valid_lca_height == NULLU64
    &&& n.data.vote_valid
    &&& n.data.state_valid == (if header.height == 0 {
        Some(true)
    } else {
        None
    })
}

impl ConsensusGraphInner {
    /// A graph without nodes.
    fn empty(
        pow_config: ProofOfWorkConfig,
        data_man: BlockDataManager,
        inner_conf: ConsensusInnerConfig,
        cur_era_genesis_height: u64,
        cur_era_stable_height: u64,
        cur_era_stable_block_hash: H256,
    ) -> (r: Self)
        requires
            data_man.wf(),
        ensures
            r.base_wf(),
            r.nodes() == Map::<usize, ConsensusGraphNode>::empty(),
            crate::node::arena_next_key(r.arena) == 0,
            r.hash_to_arena_indices@ == Map::<H256, usize>::empty(),
            r.pivot_chain@ == Seq::<usize>::empty(),
            r.pivot_chain_metadata@ == Seq::<ConsensusGraphPivotData>::empty(),
            r.timer_chain@ == Seq::<usize>::empty(),
            r.timer_chain_accumulative_lca@ == Seq::<usize>::empty(),
            r.terminal_hashes@ == Seq::<H256>::empty(),
            r.cur_era_genesis_block_arena_index == NULL,
            r.cur_era_genesis_height == cur_era_genesis_height,
            r.cur_era_stable_height == cur_era_stable_height,
            r.cur_era_stable_block_hash == cur_era_stable_block_hash,
            r.initial_stable_future is Some,
            r.initial_stable_future->0@ == Set::<usize>::empty(),
            r.cur_era_genesis_timer_chain_height == 0,
            r.best_timer_chain_difficulty == 0,
            r.best_timer_chain_hash.value() == 0,
            r.weight_tree.view() == Map::<usize, TreeNode>::empty(),
            r.adaptive_tree.view() == Map::<usize, TreeNode>::empty(),
            r.invalid_block_queue@ == Seq::<(i128, usize)>::empty(),
            r.pow_config == pow_config,
            r.current_difficulty.value() == pow_config.initial_difficulty,
            r.data_man == data_man,
            r.inner_conf == inner_conf,
            r.anticone_cache@ == Map::<usize, Seq<usize>>::empty(),
            r.pastset_cache@ == Map::<usize, Set<usize>>::empty(),
            r.sequence_number_of_block_entrance == 0,
            r.last_recycled_era_block == 0,
            r.old_era_block_set@ == Seq::<H256>::empty(),
            r.exposed_states@.len() == 0,
    {
        let r = ConsensusGraphInner {
            arena: arena_new(),
            hash_to_arena_indices: H256Map::new(),
            pivot_chain: Vec::new(),
            pivot_chain_metadata: Vec::new(),
            timer_chain: Vec::new(),
            timer_chain_accumulative_lca: Vec::new(),
            terminal_hashes: Vec::new(),
            cur_era_genesis_block_arena_index: NULL,
            cur_era_genesis_height,
            cur_era_stable_height,
            cur_era_stable_block_hash,
            initial_stable_future: Some(IndexSet::new()),
            cur_era_genesis_timer_chain_height: 0,
            best_timer_chain_difficulty: 0,
            best_timer_chain_hash: H256::zero(),
            weight_tree: LinkCutTree::new(),
            adaptive_tree: LinkCutTree::new(),
            invalid_block_queue: Vec::new(),
            pow_config,
            current_difficulty: U256::from_u64(pow_config.initial_difficulty),
            data_man,
            inner_conf,
            anticone_cache: AnticoneCache::new(),
            pastset_cache: PastSetCache::new(),
            sequence_number_of_block_entrance: 0,
            last_recycled_era_block: 0,
            old_era_block_set: Vec::new(),
            exposed_states: Vec::new(),
        };
        assert(r.adaptive_tree.parents() =~= r.weight_tree.parents());
        r
    }

    /// Whether a graph is the first state for an era genesis and a stable block.
    pub open spec fn is_first_state(
        &self,
        pow_config: ProofOfWorkConfig,
        data_man: BlockDataManager,
        inner_conf: ConsensusInnerConfig,
        genesis_hash: H256,
        stable_hash: H256,
    ) -> bool {
        let header = data_man.headers@[genesis_hash];
        let n = self.node(0);
        &&& self.nodes().dom() == set![0usize]
        &&& is_genesis_node(
            n,
            header,
            inner_conf,
            data_man.execution_contexts@[genesis_hash].start_block_number,
            seq![0usize],
        )
        &&& self.hash_to_arena_indices@ == map![header.hash => 0usize]
        &&& self.pivot_chain@ == seq![0usize]
        &&& self.pivot_chain_metadata@.len() == 1
        &&& self.pivot_chain_metadata@[0].last_pivot_in_past_blocks@ == set![0usize]
        &&& self.timer_chain@ == (if n.is_timer {
            seq![0usize]
        } else {
            seq![]
        })
        &&& self.timer_chain_accumulative_lca@ == Seq::<usize>::empty()
        &&& self.terminal_hashes@ == Seq::<H256>::empty()
        &&& self.cur_era_genesis_block_arena_index == 0
        &&& self.cur_era_genesis_height == header.height
        &&& self.cur_era_stable_height == data_man.headers@[stable_hash].height
        &&& self.cur_era_stable_block_hash == stable_hash
        &&& self.initial_stable_future is Some
        &&& self.initial_stable_future->0@ == (if genesis_hash == stable_hash {
            set![0usize]
        } else {
            Set::empty()
        })
        &&& self.cur_era_genesis_timer_chain_height == 0
        &&& self.best_timer_chain_difficulty == (if n.is_timer {
            header.difficulty.low as int
        } else {
            0
        })
        &&& self.best_timer_chain_hash.value() == 0
        &&& self.weight_tree.view().dom() == set![0usize]
        &&& self.weight_tree.view()[0].parent == NULL
        &&& self.weight_tree.value(0) == as_signed(header.difficulty.low)
        &&& self.adaptive_tree.view() == map![0usize => TreeNode { parent: NULL, value: 0 }]
        &&& self.invalid_block_queue@ == Seq::<(i128, usize)>::empty()
        &&& self.pow_config == pow_config
        &&& self.current_difficulty.value() == pow_config.initial_difficulty
        &&& self.data_man == data_man
        &&& self.inner_conf == inner_conf
        &&& self.anticone_cache@.dom() == set![0usize]
        &&& self.anticone_cache@[0] == Seq::<usize>::empty()
        &&& self.pastset_cache@ == Map::<usize, Set<usize>>::empty()
        &&& self.sequence_number_of_block_entrance == 1
        &&& self.last_recycled_era_block == 0
        &&& self.old_era_block_set@ == Seq::<H256>::empty()
        &&& self.exposed_states@.len() == 0
    }

    /// A graph that holds an era genesis.
    pub fn with_era_genesis(
        pow_config: ProofOfWorkConfig,
        data_man: BlockDataManager,
        inner_conf: ConsensusInnerConfig,
        cur_era_genesis_block_hash: &H256,
        cur_era_stable_block_hash: &H256,
    ) -> (r: Self)
        requires
            data_man.wf(),
            data_man.headers@.contains_key(*cur_era_genesis_block_hash),
            data_man.headers@.contains_key(*cur_era_stable_block_hash),
            data_man.execution_contexts@.contains_key(*cur_era_genesis_block_hash),
            data_man.headers@[*cur_era_genesis_block_hash].hash
                == data_man.cur_consensus_era_genesis_hash,
            data_man.headers@[*cur_era_genesis_block_hash].pow_quality.value()
                >= inner_conf.timer_chain_block_difficulty_ratio
                * data_man.headers@[*cur_era_genesis_block_hash].difficulty.value()
                ==> data_man.headers@[*cur_era_genesis_block_hash].difficulty.low <= i128::MAX,
        ensures
            r.wf(),
            r.is_first_state(
                pow_config,
                data_man,
                inner_conf,
                *cur_era_genesis_block_hash,
                *cur_era_stable_block_hash,
            ),
    {
        let cur_era_stable_height: u64 = match data_man.block_header_by_hash(
            cur_era_stable_block_hash,
        ) {
            Some(h) => h.height,
            None => 0,
        };
        let start_block_number: u64 = match data_man.get_epoch_execution_context(
            cur_era_genesis_block_hash,
        ) {
            Some(c) => c.start_block_number,
            None => 0,
        };
        let node: ConsensusGraphNode = Self::make_genesis_node(
            &data_man,
            &inner_conf,
            cur_era_genesis_block_hash,
            start_block_number,
        );
        let ghost header = data_man.headers@[*cur_era_genesis_block_hash];
        let height: u64 = node.height;
        let weight: u128 = node.difficulty.low_u128();
        let mut inner: ConsensusGraphInner = Self::empty(
            pow_config,
            data_man,
            inner_conf,
            height,
            cur_era_stable_height,
            *cur_era_stable_block_hash,
        );
        let index: usize = inner.add_node(node);
        assert(index == 0);
        assert(inner.nodes().dom() =~= set![0usize]);
        assert(inner.hash_to_arena_indices@ =~= map![header.hash => 0usize]);
        let ghost added = inner;
        inner.weight_tree.make_tree(index);
        inner.adaptive_tree.make_tree(index);
        proof {
            added.lemma_new_tree_wf(&inner, index);
        }
        inner.weight_tree.set(index, to_signed(weight));
        assert(inner.weight_tree.view().dom() =~= set![0usize]);
        assert(inner.adaptive_tree.view() =~= map![0usize => TreeNode { parent: NULL, value: 0 }]);
        if *cur_era_genesis_block_hash == *cur_era_stable_block_hash {
            let mut future: IndexSet = IndexSet::new();
            future.add(index);
            assert(future@ =~= set![0usize]);
            inner.initial_stable_future = Some(future);
        }
        inner.cur_era_genesis_block_arena_index = index;
        let mut ordered: Vec<usize> = Vec::new();
        ordered.push(index);
        arena_get_mut(&mut inner.arena, index).data.ordered_executable_epoch_blocks = ordered;
        inner.pivot_chain.push(index);
        let mut last_pivot_in_past_blocks: HashSet<usize> = HashSet::new();
        last_pivot_in_past_blocks.insert(index);
        assert(last_pivot_in_past_blocks@ =~= set![0usize]);
        inner.pivot_chain_metadata.push(ConsensusGraphPivotData { last_pivot_in_past_blocks });
        if arena_get(&inner.arena, index).is_timer {
            inner.timer_chain.push(index);
        }
        inner.best_timer_chain_difficulty = inner.get_timer_difficulty(index);
        let none: IndexSet = IndexSet::new();
        inner.anticone_cache.update(index, &none);
        proof {
            assert(inner.nodes().dom() =~= set![0usize]);
            assert(inner.anticone_cache@.dom() =~= set![0usize]) by {
                assert(inner.anticone_cache@.remove(0) =~= Map::<usize, Seq<usize>>::empty());
                assert forall|x: usize| inner.anticone_cache@.contains_key(x) implies x == 0 by {
                    if x != 0 {
                        assert(inner.anticone_cache@.remove(0).contains_key(x));
                    }
                }
            }
            let cached = inner.anticone_cache@[0];
            if cached.len() > 0 {
                assert(cached.contains(cached[0]));
                assert(cached.to_set().contains(cached[0]));
            }
            assert(cached =~= Seq::<usize>::empty());
            assert forall|i: usize| #[trigger] inner.nodes().contains_key(i) implies i
                < index_limit() && links_wf(inner.nodes(), inner.nodes()[i]) && children_wf(
                inner.nodes(),
                i,
            ) by {
                assert(i == 0);
            }
            assert forall|h: H256| #[trigger]
                inner.hash_to_arena_indices@.contains_key(h) implies inner.has(
                inner.hash_to_arena_indices@[h],
            ) && inner.node(inner.hash_to_arena_indices@[h]).hash == h by {
                assert(h == header.hash);
            }
            assert forall|v: usize| #[trigger] inner.weight_tree.has(v) implies inner.nodes().contains_key(
            v) && (inner.weight_tree.view()[v].parent == NULL || inner.weight_tree.view()[v].parent
                == inner.nodes()[v].parent) by {
                assert(inner.weight_tree.view().dom().contains(v));
            }
            assert forall|v: usize| #[trigger] inner.adaptive_tree.has(v) implies inner.nodes().contains_key(
            v) && (inner.adaptive_tree.view()[v].parent == NULL
                || inner.adaptive_tree.view()[v].parent == inner.nodes()[v].parent) by {
                assert(inner.adaptive_tree.view().dom().contains(v));
            }
            assert(inner.node(0).data.ordered_executable_epoch_blocks@ =~= seq![0usize]);
        }
        inner
    }

    fn make_genesis_node(
        data_man: &BlockDataManager,
        inner_conf: &ConsensusInnerConfig,
        hash: &H256,
        start_block_number: u64,
    ) -> (n: ConsensusGraphNode)
        requires
            data_man.wf(),
            data_man.headers@.contains_key(*hash),
        ensures
            is_genesis_node(
                n,
                data_man.headers@[*hash],
                *inner_conf,
                start_block_number,
                Seq::empty(),
            ),
    {
        let header: &BlockHeader = data_man.block_header_by_hash(hash).unwrap();
        let is_heavy: bool = header.pow_quality.is_at_least_times(
            inner_conf.heavy_block_difficulty_ratio,
            &header.difficulty,
        );
        let is_timer: bool = header.pow_quality.is_at_least_times(
            inner_conf.timer_chain_block_difficulty_ratio,
            &header.difficulty,
        );
        let mut data: ConsensusGraphNodeData = ConsensusGraphNodeData::new(header.height, 0, 0);
        data.activated = true;
        if header.height == 0 {
            data.state_valid = Some(true);
        }
        ConsensusGraphNode {
            hash: header.hash,
            height: header.height,
            is_heavy,
            difficulty: header.difficulty,
            past_num_blocks: start_block_number,
            past_era_weight: 0,
            is_timer,
            timer_longest_difficulty: 0,
            last_timer_block_arena_index: NULL,
            timer_chain_height: 0,
            adaptive: header.adaptive,
            parent: NULL,
            era_block: 0,
            last_pivot_in_past: header.height,
            children: Vec::new(),
            referrers: Vec::new(),
            referees: Vec::new(),
            data,
        }
    }
}

} // verus!
