//! The consensus graph: its state, what every state keeps, and the pivot chain.
use slab::Slab;

use vstd::prelude::*;

use crate::block_data::BlockDataManager;
use crate::caches::{AnticoneCache, PastSetCache};
use crate::hash_map::H256Map;
use crate::index_set::{index_limit, IndexSet};
use crate::lineage::{ancestor_at_depth, is_lca, lca_of, ranked};
use crate::node::{
    arena_find, arena_get, arena_get_mut, arena_next_key, arena_nodes, arena_vacant_key,
    ConsensusGraphNode, ConsensusGraphNodeData, ConsensusGraphPivotData,
};
use crate::tree::LinkCutTree;
use crate::types::{H256, NULL, U256};

verus! {

/// The parameters of the consensus algorithms.
#[derive(Clone, Copy)]
pub struct ConsensusInnerConfig {
    /// The threshold in the GHAST algorithm.
    pub adaptive_weight_beta: u64,
    /// The heavy block ratio in the GHAST algorithm.
    pub heavy_block_difficulty_ratio: u64,
    /// The timer block ratio in the timer chain algorithm.
    pub timer_chain_block_difficulty_ratio: u64,
    /// How many timer blocks it takes to confirm.
    pub timer_chain_beta: u64,
    /// The number of epochs per era.
    pub era_epoch_count: u64,
    /// Whether epochs are executed ahead of the deferred execution boundary.
    pub enable_optimistic_execution: bool,
    pub enable_state_expose: bool,
}

/// The parameters of proof of work.
#[derive(Clone, Copy)]
pub struct ProofOfWorkConfig {
    pub initial_difficulty: u64,
    pub difficulty_adjustment_epoch_period: u64,
}

/// What is exposed of the evaluation of a block's state.
#[derive(Clone, Copy)]
pub struct ConsensusGraphBlockExecutionState {
    pub block_hash: H256,
    pub deferred_state_root: H256,
    pub deferred_receipt_root: H256,
    pub deferred_logs_bloom_hash: H256,
    pub state_valid: bool,
}

/// The consensus graph. Every block is a node with an index into the arena.
pub struct ConsensusGraphInner {
    pub arena: Slab<ConsensusGraphNode>,
    pub hash_to_arena_indices: H256Map<usize>,
    /// The current pivot chain.
    pub pivot_chain: Vec<usize>,
    /// What is kept for each pivot chain block.
    pub pivot_chain_metadata: Vec<ConsensusGraphPivotData>,
    /// The longest timer chain.
    pub timer_chain: Vec<usize>,
    /// The accumulative lowest common ancestors of consecutive timer chain blocks.
    pub timer_chain_accumulative_lca: Vec<usize>,
    /// The tips of the graph, for mining, each once.
    pub terminal_hashes: Vec<H256>,
    pub cur_era_genesis_block_arena_index: usize,
    pub cur_era_genesis_height: u64,
    pub cur_era_stable_height: u64,
    pub cur_era_stable_block_hash: H256,
    /// While the initial stable block is awaited: the future set of it, kept by hand.
    pub initial_stable_future: Option<IndexSet>,
    pub cur_era_genesis_timer_chain_height: u64,
    pub best_timer_chain_difficulty: i128,
    pub best_timer_chain_hash: H256,
    /// The subtree weight of each block.
    pub weight_tree: LinkCutTree,
    /// For each block, twice its subtree weight, less that of its parent, plus the weight of the
    /// parent itself.
    pub adaptive_tree: LinkCutTree,
    /// The partial invalid blocks that are not active, with the timer stamp at which each
    /// becomes active, in ascending order.
    pub invalid_block_queue: Vec<(i128, usize)>,
    pub pow_config: ProofOfWorkConfig,
    /// The expected difficulty of the next block that is mined here.
    pub current_difficulty: U256,
    pub data_man: BlockDataManager,
    pub inner_conf: ConsensusInnerConfig,
    pub anticone_cache: AnticoneCache,
    pub pastset_cache: PastSetCache,
    pub sequence_number_of_block_entrance: u64,
    pub last_recycled_era_block: usize,
    /// The blocks of old eras that can be collected.
    pub old_era_block_set: Vec<H256>,
    /// The evaluations that were exposed, oldest first.
    pub exposed_states: Vec<ConsensusGraphBlockExecutionState>,
}

/// The parent links of the nodes.
pub open spec fn arena_parents(nodes: Map<usize, ConsensusGraphNode>) -> Map<usize, usize> {
    nodes.map_values(|n: ConsensusGraphNode| n.parent)
}

/// The sequence numbers of the nodes.
pub open spec fn arena_ranks(nodes: Map<usize, ConsensusGraphNode>) -> Map<usize, nat> {
    nodes.map_values(|n: ConsensusGraphNode| n.data.sequence_number as nat)
}

/// Whether all indices in a list are nodes.
pub open spec fn all_nodes(nodes: Map<usize, ConsensusGraphNode>, list: Seq<usize>) -> bool {
    forall|i: int| 0 <= i < list.len() ==> nodes.contains_key(#[trigger] list[i])
}

/// Whether the links of a node lead to nodes, those into the past to older ones and those into
/// the future to younger ones.
pub open spec fn links_wf(
    nodes: Map<usize, ConsensusGraphNode>,
    n: ConsensusGraphNode,
) -> bool {
    &&& n.parent != NULL ==> nodes.contains_key(n.parent)
        && nodes[n.parent].data.sequence_number < n.data.sequence_number
    &&& all_nodes(nodes, n.referees@)
    &&& all_nodes(nodes, n.children@)
    &&& all_nodes(nodes, n.referrers@)
    &&& all_nodes(nodes, n.data.blockset_in_own_view_of_epoch@)
    &&& all_nodes(nodes, n.data.ordered_executable_epoch_blocks@)
    &&& forall|i: int|
        0 <= i < n.referees@.len() ==> nodes[#[trigger] n.referees@[i]].data.sequence_number
            < n.data.sequence_number
    &&& forall|i: int|
        0 <= i < n.children@.len() ==> nodes[#[trigger] n.children@[i]].data.sequence_number
            > n.data.sequence_number
    &&& forall|i: int|
        0 <= i < n.referrers@.len() ==> nodes[#[trigger] n.referrers@[i]].data.sequence_number
            > n.data.sequence_number
}

/// Whether the children of a node are listed once each, and have it as their parent unless they
/// were cut off.
pub open spec fn children_wf(nodes: Map<usize, ConsensusGraphNode>, i: usize) -> bool {
    &&& nodes[i].children@.no_duplicates()
    &&& forall|k: int|
        0 <= k < nodes[i].children@.len() ==> nodes[#[trigger] nodes[i].children@[k]].parent == i
            || nodes[nodes[i].children@[k]].parent == NULL
}

/// Whether the nodes are linked well.
pub open spec fn arena_wf(nodes: Map<usize, ConsensusGraphNode>) -> bool {
    forall|i: usize| #[trigger]
        nodes.contains_key(i) ==> i < index_limit() && links_wf(nodes, nodes[i]) && children_wf(
            nodes,
            i,
        )
}

/// Whether two nodes have the same hash, the same links and the same epoch.
pub open spec fn same_links(a: ConsensusGraphNode, b: ConsensusGraphNode) -> bool {
    &&& a.hash == b.hash
    &&& a.parent == b.parent
    &&& a.referees@ == b.referees@
    &&& a.children@ == b.children@
    &&& a.referrers@ == b.referrers@
    &&& a.data.sequence_number == b.data.sequence_number
    &&& a.data.blockset_in_own_view_of_epoch@ == b.data.blockset_in_own_view_of_epoch@
    &&& a.data.ordered_executable_epoch_blocks@ == b.data.ordered_executable_epoch_blocks@
}

/// Whether two arenas hold the same nodes with the same links.
pub open spec fn same_graph(
    a: Map<usize, ConsensusGraphNode>,
    b: Map<usize, ConsensusGraphNode>,
) -> bool {
    &&& a.dom() == b.dom()
    &&& forall|i: usize| #[trigger] b.contains_key(i) ==> same_links(a[i], b[i])
}

/// Whether a tree is made of nodes and its links are parent links of the arena.
pub open spec fn tree_matches(nodes: Map<usize, ConsensusGraphNode>, tree: LinkCutTree) -> bool {
    &&& tree.wf()
    &&& forall|v: usize| #[trigger]
        tree.has(v) ==> nodes.contains_key(v) && (tree.view()[v].parent == NULL
            || tree.view()[v].parent == nodes[v].parent)
}

/// A change that keeps the links keeps the graph well linked.
pub proof fn lemma_same_graph(
    a: Map<usize, ConsensusGraphNode>,
    b: Map<usize, ConsensusGraphNode>,
)
    requires
        same_graph(a, b),
        arena_wf(a),
    ensures
        arena_wf(b),
        arena_parents(a) == arena_parents(b),
        arena_ranks(a) == arena_ranks(b),
{
    assert forall|i: usize| #[trigger] b.contains_key(i) implies i < index_limit() && links_wf(
        b,
        b[i],
    ) && children_wf(b, i) by {
        assert(a.contains_key(i));
        assert(same_links(a[i], b[i]));
        assert forall|k: int| 0 <= k < b[i].children@.len() implies b[#[trigger] b[i].children@[k]].data.sequence_number
            > b[i].data.sequence_number && (b[b[i].children@[k]].parent == i
            || b[b[i].children@[k]].parent == NULL) by {
            let c = a[i].children@[k];
            assert(a.contains_key(c));
            assert(b.contains_key(c));
        }
        assert forall|k: int| 0 <= k < b[i].referrers@.len() implies b[#[trigger] b[i].referrers@[k]].data.sequence_number
            > b[i].data.sequence_number by {
            let r = a[i].referrers@[k];
            assert(a.contains_key(r));
            assert(b.contains_key(r));
        }
        if b[i].parent != NULL {
            assert(a.contains_key(b[i].parent));
            assert(b.contains_key(b[i].parent));
            assert(same_links(a[b[i].parent], b[b[i].parent]));
        }
        assert forall|k: int| 0 <= k < b[i].referees@.len() implies b[#[trigger] b[i].referees@[k]].data.sequence_number
            < b[i].data.sequence_number by {
            let r = a[i].referees@[k];
            assert(a.contains_key(r));
            assert(b.contains_key(r));
        }
    }
    assert(arena_parents(a) =~= arena_parents(b));
    assert(arena_ranks(a) =~= arena_ranks(b));
}

/// A node can be given another epoch of nodes.
pub proof fn lemma_new_epoch(
    nodes: Map<usize, ConsensusGraphNode>,
    i: usize,
    n: ConsensusGraphNode,
)
    requires
        arena_wf(nodes),
        nodes.contains_key(i),
        n.parent == nodes[i].parent,
        n.referees@ == nodes[i].referees@,
        n.children@ == nodes[i].children@,
        n.referrers@ == nodes[i].referrers@,
        n.data.sequence_number == nodes[i].data.sequence_number,
        all_nodes(nodes, n.data.blockset_in_own_view_of_epoch@),
        all_nodes(nodes, n.data.ordered_executable_epoch_blocks@),
    ensures
        arena_wf(nodes.insert(i, n)),
{
    let b = nodes.insert(i, n);
    assert(b.dom() =~= nodes.dom());
    assert forall|j: usize| #[trigger] b.contains_key(j) implies j < index_limit() && links_wf(
        b,
        b[j],
    ) && children_wf(b, j) by {
        assert(nodes.contains_key(j));
        assert(links_wf(nodes, nodes[j]) && children_wf(nodes, j));
    }
}

/// In a well linked graph sequence numbers rank the parent links.
pub proof fn lemma_arena_ranked(nodes: Map<usize, ConsensusGraphNode>)
    requires
        arena_wf(nodes),
    ensures
        ranked(arena_parents(nodes), arena_ranks(nodes)),
        !nodes.contains_key(NULL),
{
    assert(!nodes.contains_key(NULL));
    let parents = arena_parents(nodes);
    let ranks = arena_ranks(nodes);
    assert forall|v: usize| #[trigger]
        parents.contains_key(v) && parents[v] != NULL implies parents.contains_key(parents[v])
        && ranks[parents[v]] < ranks[v] by {
        assert(nodes.contains_key(v));
    }
}

/// Whether a queue is in ascending order, so that its greatest item comes out of its end: by stamp,
/// and by index where stamps are the same.
pub open spec fn in_queue_order(queue: Seq<(i128, usize)>) -> bool {
    forall|i: int, j: int|
        0 <= i < j < queue.len() ==> (#[trigger] queue[i]).0 < (#[trigger] queue[j]).0 || (
        queue[i].0 == queue[j].0 && queue[i].1 <= queue[j].1)
}

impl ConsensusGraphInner {
    /// The nodes of the graph.
    pub open spec fn nodes(&self) -> Map<usize, ConsensusGraphNode> {
        arena_nodes(self.arena)
    }

    pub open spec fn node(&self, i: usize) -> ConsensusGraphNode {
        self.nodes()[i]
    }

    pub open spec fn has(&self, i: usize) -> bool {
        self.nodes().contains_key(i)
    }

    /// The parent links of the graph.
    pub open spec fn parents(&self) -> Map<usize, usize> {
        arena_parents(self.nodes())
    }

    /// Whether the arena has room for another node.
    pub open spec fn room(&self) -> bool {
        arena_next_key(self.arena) < index_limit()
    }

    /// Whether the hashes lead to the nodes that have them.
    pub open spec fn hashes_wf(&self) -> bool {
        &&& self.hash_to_arena_indices.wf()
        &&& forall|h: H256| #[trigger]
            self.hash_to_arena_indices@.contains_key(h) ==> self.has(self.hash_to_arena_indices@[h])
                && self.node(self.hash_to_arena_indices@[h]).hash == h
    }

    /// What every state of the graph keeps, also before it has its era genesis.
    pub open spec fn base_wf(&self) -> bool {
        &&& arena_wf(self.nodes())
        &&& forall|i: usize| #[trigger]
            self.has(i) ==> self.node(i).data.sequence_number
                < self.sequence_number_of_block_entrance
        &&& self.hashes_wf()
        &&& all_nodes(self.nodes(), self.pivot_chain@)
        &&& all_nodes(self.nodes(), self.timer_chain@)
        &&& all_nodes(self.nodes(), self.timer_chain_accumulative_lca@)
        &&& tree_matches(self.nodes(), self.weight_tree)
        &&& tree_matches(self.nodes(), self.adaptive_tree)
        &&& self.adaptive_tree.parents() == self.weight_tree.parents()
        &&& self.data_man.wf()
        &&& self.terminal_hashes@.no_duplicates()
        &&& in_queue_order(self.invalid_block_queue@)
    }

    /// What every state of the graph keeps.
    pub open spec fn wf(&self) -> bool {
        &&& self.base_wf()
        &&& self.pivot_chain@.len() > 0
        &&& self.has(self.cur_era_genesis_block_arena_index)
    }

    /// A change of nodes that keeps hashes, parents and ages and leaves them linked well keeps the
    /// state well formed.
    pub proof fn lemma_wf_arena(&self, other: &ConsensusGraphInner)
        requires
            self.wf(),
            arena_wf(other.nodes()),
            self.nodes().dom() == other.nodes().dom(),
            forall|i: usize| #[trigger]
                other.has(i) ==> other.node(i).hash == self.node(i).hash && other.node(i).parent
                    == self.node(i).parent && other.node(i).data.sequence_number == self.node(
                    i,
                ).data.sequence_number,
            *other == (ConsensusGraphInner {
                arena: other.arena,
                pastset_cache: other.pastset_cache,
                anticone_cache: other.anticone_cache,
                pivot_chain_metadata: other.pivot_chain_metadata,
                exposed_states: other.exposed_states,
                ..*self
            }),
        ensures
            other.wf(),
    {
        assert forall|i: usize| self.has(i) == other.has(i) by {
            assert(self.nodes().dom().contains(i) == other.nodes().dom().contains(i));
        }
        assert forall|i: usize| #[trigger] other.has(i) implies other.node(i).data.sequence_number
            < other.sequence_number_of_block_entrance by {
            assert(self.has(i));
        }
        assert forall|h: H256| #[trigger]
            other.hash_to_arena_indices@.contains_key(h) implies other.has(
            other.hash_to_arena_indices@[h],
        ) && other.node(other.hash_to_arena_indices@[h]).hash == h by {
            let i = self.hash_to_arena_indices@[h];
            assert(self.has(i));
            assert(other.has(i));
        }
        assert forall|v: usize| #[trigger] other.weight_tree.has(v) implies other.nodes().contains_key(
        v) && (other.weight_tree.view()[v].parent == NULL || other.weight_tree.view()[v].parent
            == other.nodes()[v].parent) by {
            assert(self.nodes().contains_key(v));
            assert(other.has(v));
        }
        assert forall|v: usize| #[trigger] other.adaptive_tree.has(v) implies other.nodes().contains_key(
        v) && (other.adaptive_tree.view()[v].parent == NULL || other.adaptive_tree.view()[v].parent
            == other.nodes()[v].parent) by {
            assert(self.nodes().contains_key(v));
            assert(other.has(v));
        }
    }

    /// A change of node data that keeps the links keeps the state well formed.
    pub proof fn lemma_wf_same(&self, other: &ConsensusGraphInner)
        requires
            self.wf(),
            same_graph(self.nodes(), other.nodes()),
            *other == (ConsensusGraphInner {
                arena: other.arena,
                pastset_cache: other.pastset_cache,
                anticone_cache: other.anticone_cache,
                pivot_chain_metadata: other.pivot_chain_metadata,
                exposed_states: other.exposed_states,
                ..*self
            }),
        ensures
            other.wf(),
            self.parents() == other.parents(),
    {
        lemma_same_graph(self.nodes(), other.nodes());
        assert forall|i: usize| #[trigger] other.has(i) implies other.node(i).hash == self.node(
            i,
        ).hash && other.node(i).parent == self.node(i).parent
            && other.node(i).data.sequence_number == self.node(i).data.sequence_number by {
            assert(same_links(self.nodes()[i], other.nodes()[i]));
        }
        self.lemma_wf_arena(other);
    }

    /// Chains can be replaced by other chains of nodes.
    pub proof fn lemma_wf_chains(&self, other: &ConsensusGraphInner)
        requires
            self.wf(),
            *other == (ConsensusGraphInner {
                pivot_chain: other.pivot_chain,
                timer_chain: other.timer_chain,
                timer_chain_accumulative_lca: other.timer_chain_accumulative_lca,
                ..*self
            }),
            other.pivot_chain@.len() > 0,
            all_nodes(self.nodes(), other.pivot_chain@),
            all_nodes(self.nodes(), other.timer_chain@),
            all_nodes(self.nodes(), other.timer_chain_accumulative_lca@),
        ensures
            other.wf(),
    {
        assert forall|i: usize| #[trigger] other.has(i) implies other.node(i).data.sequence_number
            < other.sequence_number_of_block_entrance by {
            assert(self.has(i));
        }
        assert forall|h: H256| #[trigger]
            other.hash_to_arena_indices@.contains_key(h) implies other.has(
            other.hash_to_arena_indices@[h],
        ) && other.node(other.hash_to_arena_indices@[h]).hash == h by {
            assert(self.has(self.hash_to_arena_indices@[h]));
        }
    }

    /// Trees can take other weights.
    pub proof fn lemma_wf_trees(&self, other: &ConsensusGraphInner)
        requires
            self.wf(),
            *other == (ConsensusGraphInner {
                weight_tree: other.weight_tree,
                adaptive_tree: other.adaptive_tree,
                ..*self
            }),
            other.weight_tree.wf(),
            other.adaptive_tree.wf(),
            other.weight_tree.parents() == self.weight_tree.parents(),
            other.adaptive_tree.parents() == self.adaptive_tree.parents(),
        ensures
            other.wf(),
            forall|v: usize| #[trigger] other.weight_tree.has(v) == self.weight_tree.has(v),
            forall|v: usize| #[trigger] other.adaptive_tree.has(v) == self.adaptive_tree.has(v),
            forall|v: usize| #[trigger] other.adaptive_tree.has(v) == other.weight_tree.has(v),
    {
        assert forall|v: usize| #[trigger]
            other.weight_tree.has(v) == self.weight_tree.has(v) by {
            other.weight_tree.lemma_parents(v);
            self.weight_tree.lemma_parents(v);
        }
        assert forall|v: usize| #[trigger]
            other.adaptive_tree.has(v) == self.adaptive_tree.has(v) by {
            other.adaptive_tree.lemma_parents(v);
            self.adaptive_tree.lemma_parents(v);
        }
        assert forall|v: usize| #[trigger]
            other.adaptive_tree.has(v) == other.weight_tree.has(v) by {
            other.adaptive_tree.lemma_parents(v);
            other.weight_tree.lemma_parents(v);
        }
        assert forall|v: usize| #[trigger] other.weight_tree.has(v) implies other.nodes().contains_key(
        v) && (other.weight_tree.view()[v].parent == NULL || other.weight_tree.view()[v].parent
            == other.nodes()[v].parent) by {
            assert(self.weight_tree.has(v));
            other.weight_tree.lemma_parents(v);
            self.weight_tree.lemma_parents(v);
        }
        assert forall|v: usize| #[trigger] other.adaptive_tree.has(v) implies other.nodes().contains_key(
        v) && (other.adaptive_tree.view()[v].parent == NULL || other.adaptive_tree.view()[v].parent
            == other.nodes()[v].parent) by {
            assert(self.adaptive_tree.has(v));
            other.adaptive_tree.lemma_parents(v);
            self.adaptive_tree.lemma_parents(v);
        }
        assert forall|i: usize| #[trigger] other.has(i) implies other.node(i).data.sequence_number
            < other.sequence_number_of_block_entrance by {
            assert(self.has(i));
        }
        assert forall|h: H256| #[trigger]
            other.hash_to_arena_indices@.contains_key(h) implies other.has(
            other.hash_to_arena_indices@[h],
        ) && other.node(other.hash_to_arena_indices@[h]).hash == h by {
            assert(self.has(self.hash_to_arena_indices@[h]));
        }
    }

    /// The two trees have the same nodes.
    pub proof fn lemma_trees_agree(&self)
        requires
            self.wf(),
        ensures
            forall|v: usize| #[trigger] self.adaptive_tree.has(v) == self.weight_tree.has(v),
    {
        assert forall|v: usize| #[trigger]
            self.adaptive_tree.has(v) == self.weight_tree.has(v) by {
            self.adaptive_tree.lemma_parents(v);
            self.weight_tree.lemma_parents(v);
        }
    }

    /// Whether the arena has room for another node.
    pub fn has_room(&self) -> (r: bool)
        ensures
            r == self.room(),
    {
        let key: usize = arena_vacant_key(&self.arena);
        let limit: usize = if usize::BITS == 64 {
            0x100_0000
        } else {
            0x10_0000
        };
        key < limit
    }

    /// The node of a hash.
    pub fn block_node(&self, block_hash: &H256) -> (r: Option<&ConsensusGraphNode>)
        requires
            self.wf(),
        ensures
            match r {
                Some(n) => self.hash_to_arena_indices@.contains_key(*block_hash) && *n == self.node(
                    self.hash_to_arena_indices@[*block_hash],
                ),
                None => !self.hash_to_arena_indices@.contains_key(*block_hash),
            },
    {
        match self.hash_to_arena_indices.get(block_hash) {
            Some(index) => arena_find(&self.arena, *index),
            None => None,
        }
    }

    /// The pivot block at `height`, which has to be a height of the pivot chain.
    pub fn get_pivot_block_arena_index(&self, height: u64) -> (r: usize)
        requires
            self.cur_era_genesis_height <= height,
            height - self.cur_era_genesis_height < self.pivot_chain@.len(),
        ensures
            r == self.pivot_chain@[height - self.cur_era_genesis_height],
    {
        let count: usize = self.pivot_chain.len();
        assert(height - self.cur_era_genesis_height < count);
        let pivot_index: usize = (height - self.cur_era_genesis_height) as usize;
        self.pivot_chain[pivot_index]
    }

    /// The height above the pivot chain.
    pub fn get_pivot_height(&self) -> (r: u64)
        requires
            self.cur_era_genesis_height + self.pivot_chain@.len() <= u64::MAX,
        ensures
            r == self.cur_era_genesis_height + self.pivot_chain@.len(),
    {
        self.cur_era_genesis_height + self.pivot_chain.len() as u64
    }

    /// The position of a height relative to the era genesis.
    pub fn height_to_pivot_index(&self, height: u64) -> (r: usize)
        requires
            self.cur_era_genesis_height <= height,
            height - self.cur_era_genesis_height <= usize::MAX,
        ensures
            r == height - self.cur_era_genesis_height,
    {
        (height - self.cur_era_genesis_height) as usize
    }

    /// The height of a position relative to the era genesis.
    pub fn pivot_index_to_height(&self, pivot_index: usize) -> (r: u64)
        requires
            self.cur_era_genesis_height + pivot_index <= u64::MAX,
        ensures
            r == self.cur_era_genesis_height + pivot_index,
    {
        self.cur_era_genesis_height + pivot_index as u64
    }

    /// Takes the next sequence number.
    pub fn get_next_sequence_number(&mut self) -> (r: u64)
        requires
            old(self).sequence_number_of_block_entrance < u64::MAX,
        ensures
            r == old(self).sequence_number_of_block_entrance,
            *final(self) == (ConsensusGraphInner {
                sequence_number_of_block_entrance: (r + 1) as u64,
                ..*old(self)
            }),
    {
        let sn: u64 = self.sequence_number_of_block_entrance;
        self.sequence_number_of_block_entrance = sn + 1;
        sn
    }

    /// Sets the sequence number of the era genesis and goes on from there.
    pub fn set_initial_sequence_number(&mut self, initial_sn: u64)
        requires
            old(self).has(old(self).cur_era_genesis_block_arena_index),
            initial_sn < u64::MAX,
        ensures
            final(self).nodes() == old(self).nodes().insert(
                old(self).cur_era_genesis_block_arena_index,
                ConsensusGraphNode {
                    data: ConsensusGraphNodeData {
                        sequence_number: initial_sn,
                        ..old(self).node(old(self).cur_era_genesis_block_arena_index).data
                    },
                    ..old(self).node(old(self).cur_era_genesis_block_arena_index)
                },
            ),
            *final(self) == (ConsensusGraphInner {
                arena: final(self).arena,
                sequence_number_of_block_entrance: (initial_sn + 1) as u64,
                ..*old(self)
            }),
            old(self).wf() && old(self).nodes().dom() == set![
                old(self).cur_era_genesis_block_arena_index,
            ] ==> final(self).wf(),
    {
        let ghost before = *self;
        arena_get_mut(&mut self.arena, self.cur_era_genesis_block_arena_index).data.sequence_number =
        initial_sn;
        self.sequence_number_of_block_entrance = initial_sn + 1;
        proof {
            let g = before.cur_era_genesis_block_arena_index;
            assert(self.nodes().dom() =~= before.nodes().dom());
            if before.wf() && before.nodes().dom() == set![g] {
                before.lemma_wf_only_genesis(self);
            }
        }
    }

    /// A state with the era genesis as its only block stays well formed with another sequence number
    /// for it.
    proof fn lemma_wf_only_genesis(&self, other: &ConsensusGraphInner)
        requires
            self.wf(),
            self.nodes().dom() == set![self.cur_era_genesis_block_arena_index],
            other.nodes().dom() == self.nodes().dom(),
            ({
                let g = self.cur_era_genesis_block_arena_index;
                other.node(g) == (ConsensusGraphNode {
                    data: ConsensusGraphNodeData {
                        sequence_number: other.node(g).data.sequence_number,
                        ..self.node(g).data
                    },
                    ..self.node(g)
                })
            }),
            *other == (ConsensusGraphInner {
                arena: other.arena,
                sequence_number_of_block_entrance: other.sequence_number_of_block_entrance,
                ..*self
            }),
            other.node(self.cur_era_genesis_block_arena_index).data.sequence_number
                < other.sequence_number_of_block_entrance,
        ensures
            other.wf(),
    {
        let g = self.cur_era_genesis_block_arena_index;
        let before = self.nodes();
        let after = other.nodes();
        assert forall|i: usize| #[trigger] before.contains_key(i) <==> i == g by {
            assert(before.dom().contains(i) <==> set![g].contains(i));
        }
        assert forall|i: usize| #[trigger] after.contains_key(i) <==> i == g by {
            assert(after.dom().contains(i) <==> set![g].contains(i));
        }
        assert(before.contains_key(g));
        let n = before[g];
        assert(links_wf(before, n));
        assert(n.parent == NULL);
        assert(n.referees@.len() == 0) by {
            if n.referees@.len() > 0 {
                assert(before.contains_key(n.referees@[0]));
            }
        }
        assert(n.children@.len() == 0) by {
            if n.children@.len() > 0 {
                assert(before.contains_key(n.children@[0]));
            }
        }
        assert(n.referrers@.len() == 0) by {
            if n.referrers@.len() > 0 {
                assert(before.contains_key(n.referrers@[0]));
            }
        }
        assert forall|i: usize| #[trigger] after.contains_key(i) implies i < index_limit()
            && links_wf(after, after[i]) && children_wf(after, i) by {
            assert(before.contains_key(i));
            assert forall|k: int| 0 <= k < n.data.blockset_in_own_view_of_epoch@.len() implies
                after.contains_key(#[trigger] n.data.blockset_in_own_view_of_epoch@[k]) by {
                assert(before.contains_key(n.data.blockset_in_own_view_of_epoch@[k]));
            }
            assert forall|k: int| 0 <= k < n.data.ordered_executable_epoch_blocks@.len() implies
                after.contains_key(#[trigger] n.data.ordered_executable_epoch_blocks@[k]) by {
                assert(before.contains_key(n.data.ordered_executable_epoch_blocks@[k]));
            }
        }
        assert forall|h: H256| #[trigger]
            other.hash_to_arena_indices@.contains_key(h) implies other.has(
            other.hash_to_arena_indices@[h],
        ) && other.node(other.hash_to_arena_indices@[h]).hash == h by {
            assert(self.has(self.hash_to_arena_indices@[h]));
        }
        assert forall|v: usize| #[trigger] other.weight_tree.has(v) implies after.contains_key(v)
            && (other.weight_tree.view()[v].parent == NULL || other.weight_tree.view()[v].parent
            == after[v].parent) by {
            assert(before.contains_key(v));
        }
        assert forall|v: usize| #[trigger] other.adaptive_tree.has(v) implies after.contains_key(v)
            && (other.adaptive_tree.view()[v].parent == NULL || other.adaptive_tree.view()[v].parent
            == after[v].parent) by {
            assert(before.contains_key(v));
        }
        assert(all_nodes(after, other.pivot_chain@)) by {
            assert forall|k: int| 0 <= k < self.pivot_chain@.len() implies after.contains_key(
                #[trigger] self.pivot_chain@[k],
            ) by {
                assert(before.contains_key(self.pivot_chain@[k]));
            }
        }
        assert(all_nodes(after, other.timer_chain@)) by {
            assert forall|k: int| 0 <= k < self.timer_chain@.len() implies after.contains_key(
                #[trigger] self.timer_chain@[k],
            ) by {
                assert(before.contains_key(self.timer_chain@[k]));
            }
        }
        assert(all_nodes(after, other.timer_chain_accumulative_lca@)) by {
            assert forall|k: int| 0 <= k < self.timer_chain_accumulative_lca@.len() implies
                after.contains_key(#[trigger] self.timer_chain_accumulative_lca@[k]) by {
                assert(before.contains_key(self.timer_chain_accumulative_lca@[k]));
            }
        }
    }

    /// Whether a block weighs more than another; hashes break ties.
    pub fn is_heavier(a: (i128, &H256), b: (i128, &H256)) -> (r: bool)
        ensures
            r == (a.0 > b.0 || (a.0 == b.0 && a.1.value() > b.1.value())),
    {
        a.0 > b.0 || (a.0 == b.0 && a.1.is_greater(b.1))
    }

    /// The ancestor of `me` at `height`, as a value.
    pub open spec fn ancestor_at_height(&self, me: usize, height: int) -> usize {
        ancestor_at_depth(
            self.weight_tree.parents(),
            me,
            (height - self.cur_era_genesis_height) as nat,
        )
    }

    /// The ancestor of `me` at `height`; `NULL` if `me` is below that.
    pub fn ancestor_at(&self, me: usize, height: u64) -> (r: usize)
        requires
            self.wf(),
            self.weight_tree.has(me),
            self.cur_era_genesis_height <= height,
            height - self.cur_era_genesis_height <= usize::MAX,
        ensures
            r == self.ancestor_at_height(me, height as int),
            r != NULL ==> self.weight_tree.has(r) && self.has(r),
    {
        let height_index: usize = self.height_to_pivot_index(height);
        self.weight_tree.ancestor_at(me, height_index)
    }

    /// Whether a block is outside the subtree of the era genesis.
    pub open spec fn legacy(&self, i: usize) -> bool {
        self.node(i).era_block == NULL
    }

    /// The lowest common ancestor of two blocks, `NULL` if one of them is outside the era.
    pub open spec fn common_ancestor(&self, me: usize, v: usize) -> usize {
        if self.legacy(v) || self.legacy(me) {
            NULL
        } else {
            lca_of(self.weight_tree.parents(), me, v)
        }
    }

    /// Whether a block can be looked up in the weight tree, or needs not be.
    pub open spec fn in_tree_or_legacy(&self, i: usize) -> bool {
        self.legacy(i) || self.weight_tree.has(i)
    }

    /// Whether the lowest common ancestor of two blocks can be asked for: both stand in the weight
    /// tree, unless one of them is outside the era.
    pub open spec fn comparable(&self, me: usize, v: usize) -> bool {
        !self.legacy(me) && !self.legacy(v) ==> self.weight_tree.has(me) && self.weight_tree.has(v)
    }

    /// The lowest common ancestor of two blocks; `NULL` if one of them is outside the era.
    pub fn lca(&self, me: usize, v: usize) -> (r: usize)
        requires
            self.wf(),
            self.has(me),
            self.has(v),
            self.comparable(me, v),
        ensures
            r == self.common_ancestor(me, v),
            r != NULL ==> self.weight_tree.has(r) && self.has(r) && is_lca(
                self.weight_tree.parents(),
                me,
                v,
                r,
            ),
    {
        if arena_get(&self.arena, v).era_block == NULL || arena_get(&self.arena, me).era_block
            == NULL {
            return NULL;
        }
        self.weight_tree.lca(me, v)
    }

    /// The height of the era genesis for a parent height.
    pub open spec fn era_genesis_height(&self, parent_height: int, offset: int) -> int {
        if parent_height > offset {
            (parent_height - offset) / (self.inner_conf.era_epoch_count as int)
                * self.inner_conf.era_epoch_count
        } else {
            0
        }
    }

    /// The height of the genesis of the era that a block with a parent at `parent_height`
    /// belongs to.
    pub fn get_era_genesis_height(&self, parent_height: u64, offset: u64) -> (r: u64)
        requires
            parent_height > offset ==> self.inner_conf.era_epoch_count > 0,
        ensures
            r == self.era_genesis_height(parent_height as int, offset as int),
            r <= parent_height,
    {
        if parent_height > offset {
            let count: u64 = self.inner_conf.era_epoch_count;
            let x: u64 = parent_height - offset;
            proof {
                vstd::arithmetic::div_mod::lemma_fundamental_div_mod(x as int, count as int);
                vstd::arithmetic::mul::lemma_mul_is_commutative(count as int, x as int / count as int);
            }
            x / count * count
        } else {
            0
        }
    }

    pub fn get_cur_era_genesis_height(&self) -> (r: u64)
        ensures
            r == self.cur_era_genesis_height,
    {
        self.cur_era_genesis_height
    }

    /// The genesis of the era that a block with this parent belongs to.
    pub open spec fn era_genesis_with_parent(&self, parent: usize, offset: u64) -> usize {
        if parent == NULL {
            0
        } else {
            self.ancestor_at_height(
                parent,
                self.era_genesis_height(self.node(parent).height as int, offset as int),
            )
        }
    }

    /// Whether the genesis of the era of a block with this parent can be looked up.
    pub open spec fn era_genesis_found(&self, parent: usize, offset: u64) -> bool {
        parent != NULL ==> {
            let h = self.era_genesis_height(self.node(parent).height as int, offset as int);
            &&& self.weight_tree.has(parent)
            &&& self.node(parent).height > offset ==> self.inner_conf.era_epoch_count > 0
            &&& self.cur_era_genesis_height <= h
            &&& h - self.cur_era_genesis_height <= usize::MAX
        }
    }

    /// The genesis of the era that a block with this parent belongs to.
    pub fn get_era_genesis_block_with_parent(&self, parent: usize, offset: u64) -> (r: usize)
        requires
            self.wf(),
            self.era_genesis_found(parent, offset),
        ensures
            r == self.era_genesis_with_parent(parent, offset),
            parent != NULL && r != NULL ==> self.weight_tree.has(r) && self.has(r),
    {
        if parent == NULL {
            return 0;
        }
        let height: u64 = arena_get(&self.arena, parent).height;
        let era_genesis_height: u64 = self.get_era_genesis_height(height, offset);
        self.ancestor_at(parent, era_genesis_height)
    }

    /// The hashes of nodes.
    pub open spec fn hashes_of(&self, indices: Seq<usize>) -> Seq<H256> {
        indices.map_values(|i: usize| self.node(i).hash)
    }

    /// The hashes of a list of nodes.
    fn collect_hashes(&self, indices: &Vec<usize>) -> (r: Vec<H256>)
        requires
            all_nodes(self.nodes(), indices@),
        ensures
            r@ == self.hashes_of(indices@),
    {
        let mut r: Vec<H256> = Vec::new();
        let mut i: usize = 0;
        while i < indices.len()
            invariant
                i <= indices.len(),
                all_nodes(self.nodes(), indices@),
                r@ == self.hashes_of(indices@.take(i as int)),
            decreases indices.len() - i,
        {
            r.push(arena_get(&self.arena, indices[i]).hash);
            assert(self.hashes_of(indices@.take(i + 1)) =~= self.hashes_of(
                indices@.take(i as int),
            ).push(self.node(indices@[i as int]).hash));
            i = i + 1;
        }
        assert(indices@.take(i as int) =~= indices@);
        r
    }

    /// The hashes of the executable blocks of an epoch, in execution order.
    pub fn get_epoch_block_hashes(&self, epoch_arena_index: usize) -> (r: Vec<H256>)
        requires
            self.wf(),
            self.has(epoch_arena_index),
        ensures
            r@ == self.hashes_of(
                self.node(epoch_arena_index).data.ordered_executable_epoch_blocks@,
            ),
    {
        self.collect_hashes(
            &arena_get(&self.arena, epoch_arena_index).data.ordered_executable_epoch_blocks,
        )
    }

    /// The number of the first block of an epoch.
    pub fn get_epoch_start_block_number(&self, epoch_arena_index: usize) -> (r: u64)
        requires
            self.wf(),
            self.has(epoch_arena_index),
            self.node(epoch_arena_index).parent != NULL,
            self.node(self.node(epoch_arena_index).parent).past_num_blocks < u64::MAX,
        ensures
            r == self.node(self.node(epoch_arena_index).parent).past_num_blocks + 1,
    {
        let parent: usize = arena_get(&self.arena, epoch_arena_index).parent;
        arena_get(&self.arena, parent).past_num_blocks + 1
    }

    pub fn is_legacy_block(&self, index: usize) -> (r: bool)
        requires
            self.has(index),
        ensures
            r == self.legacy(index),
    {
        arena_get(&self.arena, index).era_block == NULL
    }

    /// Whether two blocks belong to one era.
    pub open spec fn same_era(&self, a: usize, b: usize) -> bool {
        self.node(a).era_block == self.node(b).era_block
    }

    pub fn is_same_era(&self, me: usize, pivot: usize) -> (r: bool)
        requires
            self.has(me),
            self.has(pivot),
        ensures
            r == self.same_era(me, pivot),
    {
        arena_get(&self.arena, me).era_block == arena_get(&self.arena, pivot).era_block
    }

    /// How many sequence numbers were taken.
    pub fn total_processed_block_count(&self) -> (r: u64)
        ensures
            r == self.sequence_number_of_block_entrance,
    {
        self.sequence_number_of_block_entrance
    }

    /// The hashes of the tips of the graph.
    pub fn terminal_hashes(&self) -> (r: Vec<H256>)
        ensures
            r@ == self.terminal_hashes@,
    {
        crate::block_data::copy_hashes(&self.terminal_hashes)
    }

    /// Cuts a block off its parent, in the arena and in both trees.
    pub fn split_root(&mut self, me: usize)
        requires
            old(self).wf(),
            old(self).has(me),
            old(self).node(me).parent != NULL,
            old(self).weight_tree.has(me),
            old(self).adaptive_tree.has(me),
            old(self).weight_tree.view()[me].parent == old(self).node(me).parent,
            old(self).adaptive_tree.view()[me].parent == old(self).node(me).parent,
        ensures
            final(self).wf(),
            final(self).nodes() == old(self).nodes().insert(
                me,
                ConsensusGraphNode { parent: NULL, ..old(self).node(me) },
            ),
            final(self).weight_tree.view() == old(self).weight_tree.view().insert(
                me,
                (crate::tree::TreeNode {
                    parent: NULL,
                    value: old(self).weight_tree.view()[me].value,
                }),
            ),
            final(self).adaptive_tree.view() == old(self).adaptive_tree.view().insert(
                me,
                (crate::tree::TreeNode {
                    parent: NULL,
                    value: old(self).adaptive_tree.view()[me].value,
                }),
            ),
            *final(self) == (ConsensusGraphInner {
                arena: final(self).arena,
                weight_tree: final(self).weight_tree,
                adaptive_tree: final(self).adaptive_tree,
                ..*old(self)
            }),
    {
        let parent: usize = arena_get(&self.arena, me).parent;
        self.weight_tree.split_root(parent, me);
        self.adaptive_tree.split_root(parent, me);
        arena_get_mut(&mut self.arena, me).parent = NULL;
        proof {
            let a = old(self).nodes();
            let b = self.nodes();
            assert forall|i: usize| #[trigger] b.contains_key(i) implies i < index_limit()
                && links_wf(b, b[i]) && children_wf(b, i) by {
                assert(a.contains_key(i));
                assert(links_wf(a, a[i]) && children_wf(a, i));
            }
            assert forall|v: usize| #[trigger] self.weight_tree.has(v) implies self.nodes().contains_key(
            v) && (self.weight_tree.view()[v].parent == NULL || self.weight_tree.view()[v].parent
                == self.nodes()[v].parent) by {
                assert(old(self).weight_tree.has(v));
            }
            assert forall|v: usize| #[trigger] self.adaptive_tree.has(v) implies self.nodes().contains_key(
            v) && (self.adaptive_tree.view()[v].parent == NULL
                || self.adaptive_tree.view()[v].parent == self.nodes()[v].parent) by {
                assert(old(self).adaptive_tree.has(v));
            }
            assert(self.weight_tree.parents() =~= old(self).weight_tree.parents().insert(me, NULL));
            assert(self.adaptive_tree.parents() =~= old(self).adaptive_tree.parents().insert(
                me,
                NULL,
            ));
            assert forall|i: usize| #[trigger] self.has(i) implies self.node(i).data.sequence_number
                < self.sequence_number_of_block_entrance by {
                assert(old(self).has(i));
            }
            assert forall|h: H256| #[trigger]
                self.hash_to_arena_indices@.contains_key(h) implies self.has(
                self.hash_to_arena_indices@[h],
            ) && self.node(self.hash_to_arena_indices@[h]).hash == h by {
                assert(old(self).has(old(self).hash_to_arena_indices@[h]));
            }
        }
    }
}

} // verus!
