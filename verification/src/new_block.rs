//! Insertion of a block of the current era.

use vstd::prelude::*;

use crate::block_data::{BlockDataManager, BlockHeader, EpochExecutionContext};
use crate::graph::{all_nodes, links_wf, same_graph, ConsensusGraphInner};
use crate::insertion::links_added;
use crate::node::{
    arena_get, arena_get_mut, arena_next_key, ConsensusGraphNode, ConsensusGraphNodeData,
};
use crate::sums::{lemma_list_sum_grows, lemma_list_sum_same, lemma_set_sum_list, set_sum};
use crate::topo::{is_topo_order, lemma_topo_same};
use crate::types::{H256, NULL, NULLU64};

verus! {

impl ConsensusGraphInner {
    /// The parent of a new block, `NULL` for the era genesis.
    pub open spec fn new_parent(&self, block_header: BlockHeader) -> usize {
        if block_header.hash != self.data_man.cur_consensus_era_genesis_hash {
            self.hash_to_arena_indices@[block_header.parent_hash]
        } else {
            NULL
        }
    }

    /// The referees of a new block.
    pub open spec fn new_referees(&self, block_header: BlockHeader) -> Seq<usize> {
        self.referees_from(block_header.referee_hashes@, block_header.referee_hashes@.len())
    }

    /// How many blocks of a list are not active.
    pub open spec fn inactive_in(&self, list: Seq<usize>) -> nat
        decreases list.len(),
    {
        if list.len() == 0 {
            0
        } else {
            self.inactive_in(list.drop_last()) + (if self.node(list.last()).data.activated {
                0nat
            } else {
                1nat
            })
        }
    }

    /// How many of the parent and the referees of a new block are not active.
    pub open spec fn new_active_cnt(&self, parent: usize, referees: Seq<usize>) -> nat {
        (if parent != NULL && !self.node(parent).data.activated {
            1nat
        } else {
            0nat
        }) + self.inactive_in(referees)
    }

    fn count_inactive(&self, parent: usize, referees: &Vec<usize>) -> (r: usize)
        requires
            parent == NULL || self.has(parent),
            all_nodes(self.nodes(), referees@),
            referees@.len() < usize::MAX,
        ensures
            r == self.new_active_cnt(parent, referees@),
    {
        let mut active_cnt: usize = if parent != NULL && !arena_get(
            &self.arena,
            parent,
        ).data.activated {
            1
        } else {
            0
        };
        let mut i: usize = 0;
        assert(referees@.take(0) =~= seq![]);
        while i < referees.len()
            invariant
                i <= referees.len(),
                referees@.len() < usize::MAX,
                all_nodes(self.nodes(), referees@),
                active_cnt == self.new_active_cnt(parent, referees@.take(i as int)),
                active_cnt <= i + 1,
            decreases referees.len() - i,
        {
            assert(self.nodes().contains_key(referees@[i as int]));
            assert(referees@.take(i + 1).drop_last() =~= referees@.take(i as int));
            if !arena_get(&self.arena, referees[i]).data.activated {
                active_cnt = active_cnt + 1;
            }
            i = i + 1;
        }
        assert(referees@.take(i as int) =~= referees@);
        active_cnt
    }

    /// The weight of the epoch of a new block in its era.
    pub open spec fn new_epoch_weight(&self, parent: usize, referees: Seq<usize>) -> int {
        set_sum(
            self.new_epoch(parent, referees),
            self.weight_in_era(self.era_genesis_with_parent(parent, 0)),
        )
    }

    /// The weight of the past of a new block in its era.
    pub open spec fn new_past_era_weight(&self, parent: usize, referees: Seq<usize>) -> int {
        (if parent != self.era_genesis_with_parent(parent, 0) {
            self.node(parent).past_era_weight as int
        } else {
            0
        }) + self.weight(parent) + self.new_epoch_weight(parent, referees)
    }

    /// The blocks of the epoch of a new block that are in its era.
    pub open spec fn new_epoch_in_era(&self, parent: usize, referees: Seq<usize>) -> Set<usize> {
        Set::new(
            |i: usize|
                self.new_epoch(parent, referees).contains(i) && self.node(i).era_block
                    == self.era_genesis_with_parent(parent, 0),
        )
    }

    /// Whether the epoch of a new block and its weights can be computed.
    pub open spec fn new_epoch_ready(&self, parent: usize, referees: Seq<usize>) -> bool {
        let genesis = self.era_genesis_with_parent(parent, 0);
        let g = self.genesis_or_current(genesis);
        &&& self.in_tree_or_legacy(self.pivot_chain@.last())
        &&& self.in_tree_or_legacy(parent)
        &&& self.common_ancestor(self.pivot_chain@.last(), parent) != NULL
        &&& self.has(g)
        &&& self.cur_era_genesis_height <= self.node(g).height
        &&& self.node(g).height - self.cur_era_genesis_height <= usize::MAX
        &&& forall|i: usize| #[trigger]
            self.new_epoch(parent, referees).contains(i) ==> self.era_known(i, genesis) && (
            self.counts_for_era(i, genesis) ==> self.weight_fits(i))
        &&& self.new_epoch_weight(parent, referees) <= i128::MAX
        &&& self.weight_fits(parent)
        &&& self.new_past_era_weight(parent, referees) <= i128::MAX
        &&& self.node(parent).past_num_blocks + self.new_epoch_in_era(parent, referees).len() + 1
            <= u64::MAX
        &&& self.data_man.execution_contexts@.len() < usize::MAX
    }

    /// Whether a block can be inserted.
    pub open spec fn insertable(&self, block_header: BlockHeader) -> bool {
        let parent = self.new_parent(block_header);
        let referees = self.new_referees(block_header);
        &&& self.room()
        &&& self.sequence_number_of_block_entrance < u64::MAX
        &&& self.hash_to_arena_indices@.len() < usize::MAX
        &&& block_header.hash != self.data_man.cur_consensus_era_genesis_hash
            ==> self.hash_to_arena_indices@.contains_key(block_header.parent_hash)
        &&& self.referees_ready(block_header.referee_hashes@)
        &&& block_header.referee_hashes@.len() < usize::MAX
        &&& self.era_genesis_found(parent, 0)
        &&& parent != NULL ==> self.new_epoch_ready(parent, referees)
    }

    /// Whether `n` is the node of a new block, but for the weights of its past and its epoch.
    pub open spec fn is_new_node(&self, block_header: BlockHeader, n: ConsensusGraphNode) -> bool {
        let parent = self.new_parent(block_header);
        &&& n.hash == block_header.hash
        &&& n.height == block_header.height
        &&& n.is_heavy == (block_header.pow_quality.value()
            >= self.inner_conf.heavy_block_difficulty_ratio * block_header.difficulty.value())
        &&& n.difficulty == block_header.difficulty
        &&& n.is_timer == (block_header.pow_quality.value()
            >= self.inner_conf.timer_chain_block_difficulty_ratio * block_header.difficulty.value())
        &&& n.timer_longest_difficulty == 0
        &&& n.last_timer_block_arena_index == NULL
        &&& n.timer_chain_height == NULLU64
        &&& n.adaptive == block_header.adaptive
        &&& n.parent == parent
        &&& n.last_pivot_in_past == 0
        &&& n.era_block == self.era_genesis_with_parent(parent, 0)
        &&& n.children@ == Seq::<usize>::empty()
        &&& n.referees@ == self.new_referees(block_header)
        &&& n.referrers@ == Seq::<usize>::empty()
        &&& n.data.epoch_number == NULLU64
        &&& n.data.sequence_number == self.sequence_number_of_block_entrance
        &&& n.data.active_cnt == self.new_active_cnt(parent, self.new_referees(block_header))
        &&& !n.data.partial_invalid
        &&& !n.data.pending
        &&& !n.data.activated
        &&& n.data.force_confirm == NULL
        &&& !n.data.blockset_cleared
        &&& n.data.vote_valid_lca_height == NULLU64
        &&& n.data.vote_valid
        &&& n.data.state_valid is None
    }

    /// Whether the epoch of a new block is in its node: listed without repetition, and ordered for
    /// execution as far as it is in the era, with the block last.
    pub open spec fn has_new_epoch(
        &self,
        block_header: BlockHeader,
        after: Map<usize, ConsensusGraphNode>,
        index: usize,
    ) -> bool {
        let parent = self.new_parent(block_header);
        let referees = self.new_referees(block_header);
        let blocks = after[index].data.blockset_in_own_view_of_epoch@;
        let ordered = after[index].data.ordered_executable_epoch_blocks@;
        &&& blocks.no_duplicates()
        &&& blocks.to_set() == self.new_epoch(parent, referees)
        &&& ordered.len() > 0
        &&& ordered.last() == index
        &&& is_topo_order(after, self.new_epoch_in_era(parent, referees), ordered.drop_last())
    }

    fn make_node(&self, block_header: &BlockHeader) -> (n: ConsensusGraphNode)
        requires
            self.wf(),
            self.insertable(*block_header),
        ensures
            self.is_new_node(*block_header, n),
            self.addable(n),
            n.past_num_blocks == 0,
            n.past_era_weight == 0,
    {
        let hash: H256 = block_header.hash;
        let is_heavy: bool = block_header.pow_quality.is_at_least_times(
            self.inner_conf.heavy_block_difficulty_ratio,
            &block_header.difficulty,
        );
        let is_timer: bool = block_header.pow_quality.is_at_least_times(
            self.inner_conf.timer_chain_block_difficulty_ratio,
            &block_header.difficulty,
        );
        let parent: usize = if hash != self.data_man.cur_consensus_era_genesis_hash {
            match self.hash_to_arena_indices.get(&block_header.parent_hash) {
                Some(p) => *p,
                None => NULL,
            }
        } else {
            NULL
        };
        let referees: Vec<usize> = self.collect_referees(&block_header.referee_hashes);
        let active_cnt: usize = self.count_inactive(parent, &referees);
        let era_block: usize = self.get_era_genesis_block_with_parent(parent, 0);
        let sn: u64 = self.sequence_number_of_block_entrance;
        ConsensusGraphNode {
            hash,
            height: block_header.height,
            is_heavy,
            difficulty: block_header.difficulty,
            past_num_blocks: 0,
            past_era_weight: 0,
            is_timer,
            timer_longest_difficulty: 0,
            last_timer_block_arena_index: NULL,
            timer_chain_height: NULLU64,
            adaptive: block_header.adaptive,
            parent,
            era_block,
            last_pivot_in_past: 0,
            children: Vec::new(),
            referrers: Vec::new(),
            referees,
            data: ConsensusGraphNodeData::new(NULLU64, sn, active_cnt),
        }
    }

    /// The past sets that are cached after a block with this parent was inserted.
    pub open spec fn pastsets_after_insert(&self, parent: usize) -> Map<usize, Set<usize>> {
        if parent == NULL {
            self.pastset_cache@
        } else {
            let lca = self.common_ancestor(self.pivot_chain@.last(), parent);
            self.pastset_cache@.insert(lca, self.pastset(lca))
        }
    }

    /// Adds the node of a new block and collects its epoch.
    fn add_with_epoch(&mut self, block_header: &BlockHeader) -> (index: usize)
        requires
            old(self).wf(),
            old(self).insertable(*block_header),
        ensures
            final(self).wf(),
            index == arena_next_key(old(self).arena),
            links_added(old(self).nodes(), final(self).nodes(), index),
            old(self).is_new_node(*block_header, final(self).node(index)),
            old(self).has_new_epoch(*block_header, final(self).nodes(), index),
            final(self).node(index).past_num_blocks == 0,
            final(self).node(index).past_era_weight == 0,
            old(self).new_epoch(
                old(self).new_parent(*block_header),
                old(self).new_referees(*block_header),
            ).subset_of(old(self).nodes().dom()),
            final(self).hash_to_arena_indices@ == old(self).hash_to_arena_indices@.insert(
                block_header.hash,
                index,
            ),
            final(self).pastset_cache@ == old(self).pastsets_after_insert(
                old(self).new_parent(*block_header),
            ),
            *final(self) == (ConsensusGraphInner {
                arena: final(self).arena,
                hash_to_arena_indices: final(self).hash_to_arena_indices,
                pastset_cache: final(self).pastset_cache,
                sequence_number_of_block_entrance: (old(self).sequence_number_of_block_entrance
                    + 1) as u64,
                ..*old(self)
            }),
    {
        let node: ConsensusGraphNode = self.make_node(block_header);
        let ghost parent = node.parent;
        let ghost referees = node.referees@;
        let index: usize = self.add_node(node);
        let ghost mid = *self;
        proof {
            assert(mid.nodes().dom().contains(mid.cur_era_genesis_block_arena_index)) by {
                assert(old(self).nodes().dom().contains(mid.cur_era_genesis_block_arena_index));
            }
            assert(mid.nodes().dom().contains(index));
            if parent != NULL {
                let last = old(self).pivot_chain@.last();
                assert(old(self).nodes().contains_key(
                    old(self).pivot_chain@[old(self).pivot_chain@.len() - 1],
                ));
                assert(old(self).nodes().contains_key(parent));
                old(self).lemma_common_ancestor_node(last, parent);
                assert(mid.common_ancestor(last, parent) == old(self).common_ancestor(
                    last,
                    parent,
                ));
                old(self).lemma_pastset_kept(
                    &mid,
                    index,
                    old(self).common_ancestor(last, parent),
                );
            }
            old(self).lemma_new_epoch(&mid, index);
        }
        self.collect_blockset_in_own_view_of_epoch(index);
        proof {
            let after = self.nodes();
            let data = self.node(index).data;
            let blocks = data.blockset_in_own_view_of_epoch@;
            assert(blocks.skip(0) =~= blocks);
            assert(after.dom() =~= mid.nodes().dom());
            assert(links_added(old(self).nodes(), after, index)) by {
                assert forall|i: usize| #[trigger] old(self).nodes().contains_key(i) implies after[i]
                    == mid.nodes()[i] by {
                    assert(i != index);
                }
            }
            let set = mid.in_era_of(blocks, index);
            let era = old(self).new_epoch_in_era(parent, referees);
            assert(set =~= era) by {
                assert forall|i: usize| set.contains(i) <==> era.contains(i) by {
                    assert(blocks.to_set().contains(i) <==> blocks.contains(i));
                    if old(self).new_epoch(parent, referees).contains(i) {
                        assert(old(self).nodes().contains_key(i));
                    }
                }
            }
            lemma_topo_same(
                mid.nodes(),
                after,
                set,
                data.ordered_executable_epoch_blocks@.drop_last(),
            );
        }
        index
    }

    /// A common ancestor is a node.
    proof fn lemma_common_ancestor_node(&self, a: usize, b: usize)
        requires
            self.wf(),
            self.has(a),
            self.has(b),
            self.in_tree_or_legacy(a),
            self.in_tree_or_legacy(b),
            self.common_ancestor(a, b) != NULL,
        ensures
            self.has(self.common_ancestor(a, b)),
    {
        let parents = self.weight_tree.parents();
        let ranks = self.weight_tree.ranks();
        self.weight_tree.lemma_ranked();
        self.weight_tree.lemma_parents(a);
        self.weight_tree.lemma_parents(b);
        crate::lineage::lemma_lca_exists(parents, ranks, a, b);
        let r = self.common_ancestor(a, b);
        let k = choose|k: nat| #[trigger] crate::lineage::ancestor(parents, a, k) == r;
        crate::lineage::lemma_ancestor_ranked(parents, ranks, a, k);
        self.weight_tree.lemma_parents(r);
    }

    /// Old blocks weigh the same after a block was added.
    proof fn lemma_weights_kept(&self, after: &ConsensusGraphInner, index: usize, genesis: usize)
        requires
            self.wf(),
            links_added(self.nodes(), after.nodes(), index),
            after.inner_conf == self.inner_conf,
            after.weight_tree == self.weight_tree,
            after.cur_era_genesis_block_arena_index == self.cur_era_genesis_block_arena_index,
            after.cur_era_genesis_height == self.cur_era_genesis_height,
            self.has(self.genesis_or_current(genesis)),
        ensures
            forall|i: usize| #[trigger]
                self.has(i) ==> after.weight(i) == self.weight(i) && after.weight_fits(i)
                    == self.weight_fits(i) && after.counts_for_era(i, genesis)
                    == self.counts_for_era(i, genesis) && after.era_known(i, genesis)
                    == self.era_known(i, genesis),
    {
        assert(self.nodes().contains_key(self.genesis_or_current(genesis)));
        assert forall|i: usize| #[trigger] self.has(i) implies after.weight(i) == self.weight(i)
            && after.weight_fits(i) == self.weight_fits(i) && after.counts_for_era(i, genesis)
            == self.counts_for_era(i, genesis) && after.era_known(i, genesis) == self.era_known(
            i,
            genesis,
        ) by {
            assert(self.nodes().contains_key(i));
        }
    }

    /// The weight of the epoch of a block that was added.
    fn compute_new_epoch_weight(
        &self,
        index: usize,
        era_genesis: usize,
        Ghost(before): Ghost<ConsensusGraphInner>,
        Ghost(parent): Ghost<usize>,
        Ghost(referees): Ghost<Seq<usize>>,
    ) -> (r: i128)
        requires
            before.wf(),
            self.wf(),
            links_added(before.nodes(), self.nodes(), index),
            self.inner_conf == before.inner_conf,
            self.weight_tree == before.weight_tree,
            self.cur_era_genesis_block_arena_index == before.cur_era_genesis_block_arena_index,
            self.cur_era_genesis_height == before.cur_era_genesis_height,
            era_genesis == before.era_genesis_with_parent(parent, 0),
            before.new_epoch_ready(parent, referees),
            before.new_epoch(parent, referees).subset_of(before.nodes().dom()),
            self.node(index).data.blockset_in_own_view_of_epoch@.no_duplicates(),
            self.node(index).data.blockset_in_own_view_of_epoch@.to_set() == before.new_epoch(
                parent,
                referees,
            ),
        ensures
            r == before.new_epoch_weight(parent, referees),
            r >= 0,
    {
        assert(self.nodes().dom().contains(index));
        let blocks: &Vec<usize> = &arena_get(
            &self.arena,
            index,
        ).data.blockset_in_own_view_of_epoch;
        proof {
            let g = before.genesis_or_current(era_genesis);
            assert(before.nodes().contains_key(g));
            assert(self.nodes().dom().contains(g));
            assert(links_wf(self.nodes(), self.node(index)));
            before.lemma_weights_kept(self, index, era_genesis);
            assert forall|k: int| 0 <= k < blocks@.len() implies self.era_known(
                #[trigger] blocks@[k],
                era_genesis,
            ) && (self.counts_for_era(blocks@[k], era_genesis) ==> self.weight_fits(blocks@[k]))
                && (self.weight_in_era(era_genesis))(blocks@[k]) == (before.weight_in_era(
                era_genesis,
            ))(blocks@[k]) by {
                assert(blocks@.to_set().contains(blocks@[k]));
                assert(before.new_epoch(parent, referees).contains(blocks@[k]));
                assert(before.nodes().dom().contains(blocks@[k]));
                assert(before.has(blocks@[k]));
            }
            lemma_list_sum_same(
                blocks@,
                self.weight_in_era(era_genesis),
                before.weight_in_era(era_genesis),
            );
            lemma_set_sum_list(blocks@, before.weight_in_era(era_genesis));
            assert forall|x: usize| #[trigger] (before.weight_in_era(era_genesis))(x) >= 0 by {
                before.lemma_weight_not_negative(x);
            }
            lemma_list_sum_grows(blocks@, before.weight_in_era(era_genesis), blocks@.len() as int);
        }
        self.total_weight_in_own_epoch(blocks, era_genesis)
    }

    /// The number of blocks in the past of a new block, and the weight of those in its era.
    pub open spec fn new_past(&self, block_header: BlockHeader) -> (int, int) {
        let parent = self.new_parent(block_header);
        let referees = self.new_referees(block_header);
        if parent == NULL {
            (0, 0)
        } else {
            (
                self.node(parent).past_num_blocks + self.new_epoch_in_era(parent, referees).len()
                    + 1,
                self.new_past_era_weight(parent, referees),
            )
        }
    }

    /// Inserts a block and returns its index and the number of hashes in the graph.
    #[verifier::rlimit(30)]
    pub fn insert(&mut self, block_header: &BlockHeader) -> (r: (usize, usize))
        requires
            old(self).wf(),
            old(self).insertable(*block_header),
        ensures
            final(self).wf(),
            r.0 == arena_next_key(old(self).arena),
            r.1 == final(self).hash_to_arena_indices@.len(),
            links_added(old(self).nodes(), final(self).nodes(), r.0),
            old(self).is_new_node(*block_header, final(self).node(r.0)),
            old(self).has_new_epoch(*block_header, final(self).nodes(), r.0),
            final(self).node(r.0).past_num_blocks == old(self).new_past(*block_header).0,
            final(self).node(r.0).past_era_weight == old(self).new_past(*block_header).1,
            final(self).hash_to_arena_indices@ == old(self).hash_to_arena_indices@.insert(
                block_header.hash,
                r.0,
            ),
            final(self).pastset_cache@ == old(self).pastsets_after_insert(
                old(self).new_parent(*block_header),
            ),
            final(self).data_man.execution_contexts@ == (if old(self).new_parent(*block_header)
                == NULL {
                old(self).data_man.execution_contexts@
            } else {
                old(self).data_man.execution_contexts@.insert(
                    block_header.hash,
                    EpochExecutionContext {
                        start_block_number: (old(self).node(
                            old(self).new_parent(*block_header),
                        ).past_num_blocks + 1) as u64,
                    },
                )
            }),
            *final(self) == (ConsensusGraphInner {
                arena: final(self).arena,
                hash_to_arena_indices: final(self).hash_to_arena_indices,
                pastset_cache: final(self).pastset_cache,
                sequence_number_of_block_entrance: (old(self).sequence_number_of_block_entrance
                    + 1) as u64,
                data_man: BlockDataManager {
                    execution_contexts: final(self).data_man.execution_contexts,
                    ..old(self).data_man
                },
                ..*old(self)
            }),
    {
        let hash: H256 = block_header.hash;
        let index: usize = self.add_with_epoch(block_header);
        let ghost before = *old(self);
        let ghost mid = *self;
        let ghost referees = before.new_referees(*block_header);
        assert(self.nodes().dom().contains(index));
        let parent: usize = arena_get(&self.arena, index).parent;
        if parent != NULL {
            proof {
                assert(before.nodes().contains_key(parent));
                assert(self.nodes().dom().contains(parent));
                before.lemma_weights_kept(self, index, before.era_genesis_with_parent(parent, 0));
                assert(before.has(parent));
                before.lemma_weight_not_negative(parent);
                assert(self.era_genesis_found(parent, 0));
                assert(self.era_genesis_with_parent(parent, 0) == before.era_genesis_with_parent(
                    parent,
                    0,
                ));
                let sorted = self.node(index).data.ordered_executable_epoch_blocks@.drop_last();
                sorted.unique_seq_to_set();
            }
            let era_genesis: usize = self.get_era_genesis_block_with_parent(parent, 0);
            let weight_era_in_my_epoch: i128 = self.compute_new_epoch_weight(
                index,
                era_genesis,
                Ghost(before),
                Ghost(parent),
                Ghost(referees),
            );
            let past_num_blocks: u64 = arena_get(&self.arena, parent).past_num_blocks + arena_get(
                &self.arena,
                index,
            ).data.ordered_executable_epoch_blocks.len() as u64;
            let past_era_weight: i128 = if parent != era_genesis {
                arena_get(&self.arena, parent).past_era_weight + self.block_weight(parent)
                    + weight_era_in_my_epoch
            } else {
                self.block_weight(parent) + weight_era_in_my_epoch
            };
            let start_block_number: u64 = self.get_epoch_start_block_number(index);
            self.data_man.insert_epoch_execution_context(
                hash,
                EpochExecutionContext { start_block_number },
            );
            let node: &mut ConsensusGraphNode = arena_get_mut(&mut self.arena, index);
            node.past_num_blocks = past_num_blocks;
            node.past_era_weight = past_era_weight;
            proof {
                mid.lemma_new_past(self, index);
                let ordered = self.node(index).data.ordered_executable_epoch_blocks@;
                lemma_topo_same(
                    mid.nodes(),
                    self.nodes(),
                    before.new_epoch_in_era(parent, referees),
                    ordered.drop_last(),
                );
                assert(links_added(before.nodes(), self.nodes(), index)) by {
                    assert(self.nodes().dom() =~= mid.nodes().dom());
                    assert forall|i: usize| #[trigger]
                        before.nodes().contains_key(i) implies self.nodes()[i]
                        == mid.nodes()[i] by {
                        assert(i != index);
                    }
                }
            }
        }
        (index, self.hash_to_arena_indices.len())
    }

    /// Setting the weights of the past of a node and an execution context keeps the state well
    /// formed.
    proof fn lemma_new_past(&self, other: &ConsensusGraphInner, index: usize)
        requires
            self.wf(),
            self.has(index),
            other.data_man.wf(),
            other.nodes() == self.nodes().insert(
                index,
                (ConsensusGraphNode {
                    past_num_blocks: other.node(index).past_num_blocks,
                    past_era_weight: other.node(index).past_era_weight,
                    ..self.node(index)
                }),
            ),
            *other == (ConsensusGraphInner {
                arena: other.arena,
                data_man: other.data_man,
                ..*self
            }),
        ensures
            other.wf(),
    {
        let mid = ConsensusGraphInner { data_man: self.data_man, ..*other };
        assert(mid.nodes() == other.nodes());
        assert(mid.nodes().dom() =~= self.nodes().dom());
        assert(same_graph(self.nodes(), mid.nodes()));
        self.lemma_wf_same(&mid);
        assert forall|i: usize| #[trigger] other.has(i) implies other.node(i).data.sequence_number
            < other.sequence_number_of_block_entrance by {
            assert(mid.has(i));
        }
        assert forall|h: H256| #[trigger]
            other.hash_to_arena_indices@.contains_key(h) implies other.has(
            other.hash_to_arena_indices@[h],
        ) && other.node(other.hash_to_arena_indices@[h]).hash == h by {
            assert(mid.has(mid.hash_to_arena_indices@[h]));
        }
    }
}

} // verus!
