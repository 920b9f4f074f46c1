//! What is kept for a new block.
use vstd::prelude::*;

use crate::block_data::{BlockDataManager, BlockHeader};
use crate::graph::{links_wf, ConsensusGraphInner, ConsensusInnerConfig, ProofOfWorkConfig};
use crate::insertion::links_added;
use crate::lineage::{ancestor, depth, has_depth, lemma_depth_is};
use crate::node::{ConsensusGraphNode, ConsensusGraphNodeData};
use crate::past::{lemma_past_least, past_closed};
use crate::reach::{is_pred, lemma_reach_closed, past_of, past_steps_outside};
use crate::topo::{law_topo_order_links, lemma_is_pred_older};
use crate::types::{H256, NULL};

verus! {

impl ConsensusGraphInner {
    /// The inactive ones of a list are counted one by one.
    proof fn lemma_inactive_in(&self, list: Seq<usize>)
        ensures
            self.inactive_in(list) == list.filter(|r: usize| !self.node(r).data.activated).len(),
        decreases list.len(),
    {
        reveal(Seq::filter);
        if list.len() > 0 {
            self.lemma_inactive_in(list.drop_last());
        }
    }

    /// What is kept for a new block is what its header says: its hash, height, difficulty and whether it
    /// is adaptive; it is heavy, or a timer block, if its quality is at least the ratio for that times
    /// its difficulty. Its parent is the block that the header names, unless it is the genesis of the
    /// era, which has none. Its number is the next one. It waits for as many blocks as its parent and
    /// referees are not active, and is neither active nor pending nor partial invalid, in no epoch and
    /// without an evaluation.
    pub proof fn law_new_node(&self, header: BlockHeader, n: ConsensusGraphNode)
        requires
            self.is_new_node(header, n),
        ensures
            n.hash == header.hash,
            n.height == header.height,
            n.difficulty == header.difficulty,
            n.adaptive == header.adaptive,
            n.is_heavy <==> header.pow_quality.value()
                >= self.inner_conf.heavy_block_difficulty_ratio * header.difficulty.value(),
            n.is_timer <==> header.pow_quality.value()
                >= self.inner_conf.timer_chain_block_difficulty_ratio * header.difficulty.value(),
            header.hash == self.data_man.cur_consensus_era_genesis_hash ==> n.parent == usize::MAX,
            header.hash != self.data_man.cur_consensus_era_genesis_hash ==> n.parent
                == self.hash_to_arena_indices@[header.parent_hash],
            n.data.sequence_number == self.sequence_number_of_block_entrance,
            n.data.active_cnt == n.referees@.filter(
                |r: usize| !self.node(r).data.activated,
            ).len() + (if n.parent != usize::MAX && !self.node(n.parent).data.activated {
                1nat
            } else {
                0nat
            }),
            !n.data.activated && !n.data.pending && !n.data.partial_invalid,
            !n.data.blockset_cleared,
            n.data.epoch_number == u64::MAX,
            n.data.state_valid is None,
            n.data.vote_valid && n.data.vote_valid_lca_height == u64::MAX,
            n.data.force_confirm == usize::MAX,
            n.children@.len() == 0 && n.referrers@.len() == 0,
            n.last_timer_block_arena_index == usize::MAX && n.timer_chain_height == u64::MAX,
            n.timer_longest_difficulty == 0 && n.last_pivot_in_past == 0,
    {
        self.lemma_inactive_in(n.referees@);
    }

    /// What is kept for a block from outside the era: what its header says, and links to what of its
    /// parent and referees is in the graph. It belongs to no era, is pending and counts as active and
    /// heavy, and never as a timer block.
    pub proof fn law_out_era_node(
        &self,
        header: BlockHeader,
        partial_invalid: bool,
        n: ConsensusGraphNode,
    )
        requires
            self.is_out_era_node(header, partial_invalid, n),
        ensures
            n.hash == header.hash,
            n.height == header.height,
            n.difficulty == header.difficulty,
            n.adaptive == header.adaptive,
            n.is_heavy && !n.is_timer,
            n.era_block == usize::MAX,
            self.hash_to_arena_indices@.contains_key(header.parent_hash) ==> n.parent
                == self.hash_to_arena_indices@[header.parent_hash],
            !self.hash_to_arena_indices@.contains_key(header.parent_hash) ==> n.parent
                == usize::MAX,
            n.data.sequence_number == self.sequence_number_of_block_entrance,
            n.data.partial_invalid == partial_invalid,
            n.data.pending && n.data.activated && n.data.active_cnt == 0,
            n.data.epoch_number == u64::MAX,
            n.data.state_valid is None,
            n.past_num_blocks == 0 && n.past_era_weight == 0,
            n.data.blockset_in_own_view_of_epoch@.len() == 0
                && n.data.ordered_executable_epoch_blocks@.len() == 0,
            n.children@.len() == 0 && n.referrers@.len() == 0,
            n.timer_chain_height == 0 && n.last_timer_block_arena_index == 0,
    {
    }

    /// A block from outside the era is left out exactly if neither its parent nor any of its referees is
    /// in the graph.
    pub proof fn law_unlinked(&self, header: BlockHeader)
        requires
            self.wf(),
            self.referees_ready(header.referee_hashes@),
        ensures
            self.unlinked(header) <==> !self.hash_to_arena_indices@.contains_key(
                header.parent_hash,
            ) && forall|k: int|
                0 <= k < header.referee_hashes@.len() ==> !self.hash_to_arena_indices@.contains_key(
                    #[trigger] header.referee_hashes@[k],
                ),
    {
        let hashes = header.referee_hashes@;
        self.lemma_no_referees(hashes, hashes.len());
        if self.hash_to_arena_indices@.contains_key(header.parent_hash) {
            let p = self.hash_to_arena_indices@[header.parent_hash];
            assert(self.has(p));
            if self.nodes().contains_key(usize::MAX) {
                assert(self.has(usize::MAX));
            }
        }
    }

    proof fn lemma_no_referees(&self, hashes: Seq<H256>, n: nat)
        requires
            n <= hashes.len(),
        ensures
            self.referees_from(hashes, n).len() == 0 <==> forall|k: int|
                0 <= k < n ==> !self.hash_to_arena_indices@.contains_key(#[trigger] hashes[k]),
        decreases n,
    {
        if n > 0 {
            self.lemma_no_referees(hashes, (n - 1) as nat);
            let before = self.referees_from(hashes, (n - 1) as nat);
            if self.hash_to_arena_indices@.contains_key(hashes[n - 1]) {
                self.lemma_with_referee_not_empty(
                    before,
                    self.hash_to_arena_indices@[hashes[n - 1]],
                    0,
                );
            } else if before.len() != 0 {
                let k = choose|k: int|
                    0 <= k < n - 1 && self.hash_to_arena_indices@.contains_key(
                        #[trigger] hashes[k],
                    );
                assert(self.hash_to_arena_indices@.contains_key(hashes[k]));
            }
        }
    }

    proof fn lemma_with_referee_not_empty(&self, list: Seq<usize>, me: usize, i: int)
        ensures
            self.with_referee(list, me, i).len() > 0,
        decreases list.len() - i,
    {
        if 0 <= i < list.len() {
            self.lemma_with_referee_not_empty(list, me, i + 1);
        }
    }

    /// In the first state the genesis of the era is the only block. It is what its header says, active,
    /// in its own epoch, at the height of the era, and right where it is the first of all. It is the
    /// pivot chain, and the timer chain if it is a timer block, whose difficulty is then that of the
    /// chain; the weight tree holds it with its difficulty.
    pub proof fn law_genesis_node(
        &self,
        pow_config: ProofOfWorkConfig,
        data_man: BlockDataManager,
        inner_conf: ConsensusInnerConfig,
        genesis_hash: H256,
        stable_hash: H256,
    )
        requires
            self.is_first_state(pow_config, data_man, inner_conf, genesis_hash, stable_hash),
        ensures
            ({
                let g = self.cur_era_genesis_block_arena_index;
                let n = self.node(g);
                let header = data_man.headers@[genesis_hash];
                let timer = header.pow_quality.value()
                    >= inner_conf.timer_chain_block_difficulty_ratio * header.difficulty.value();
                &&& forall|x: usize| #[trigger] self.has(x) <==> x == g
                &&& n.hash == header.hash && n.height == header.height
                &&& n.difficulty == header.difficulty && n.adaptive == header.adaptive
                &&& n.is_heavy == (header.pow_quality.value()
                    >= inner_conf.heavy_block_difficulty_ratio * header.difficulty.value())
                &&& n.is_timer == timer
                &&& n.past_num_blocks == data_man.execution_contexts@[genesis_hash].start_block_number
                &&& n.past_era_weight == 0
                &&& n.parent == usize::MAX && n.era_block == g
                &&& n.data.activated && !n.data.pending && !n.data.partial_invalid
                &&& n.data.epoch_number == header.height && n.last_pivot_in_past == header.height
                &&& n.data.state_valid == Some(true) <==> header.height == 0
                &&& n.data.state_valid != Some(false)
                &&& n.data.ordered_executable_epoch_blocks@ == seq![g]
                &&& n.data.blockset_in_own_view_of_epoch@.len() == 0 && !n.data.blockset_cleared
                &&& n.data.active_cnt == 0 && n.data.sequence_number == 0
                &&& n.data.force_confirm == usize::MAX
                &&& n.data.vote_valid && n.data.vote_valid_lca_height == u64::MAX
                &&& n.children@.len() == 0 && n.referrers@.len() == 0 && n.referees@.len() == 0
                &&& n.timer_chain_height == 0 && n.timer_longest_difficulty == 0
                &&& n.last_timer_block_arena_index == usize::MAX
                &&& self.hash_to_arena_indices@.contains_key(header.hash)
                &&& self.hash_to_arena_indices@[header.hash] == g
                &&& self.pivot_chain@ == seq![g]
                &&& timer ==> self.timer_chain@ == seq![g]
                &&& !timer ==> self.timer_chain@.len() == 0
                &&& self.best_timer_chain_difficulty == self.timer_difficulty(g)
                &&& self.cur_era_genesis_height == n.height
                &&& self.cur_era_stable_height == data_man.headers@[stable_hash].height
                &&& self.cur_era_stable_block_hash == stable_hash
                &&& self.initial_stable_future->0@.contains(g) <==> genesis_hash == stable_hash
                &&& header.difficulty.low <= i128::MAX && !n.adaptive ==> self.weight_tree.value(g)
                    == self.weight(g)
                &&& header.difficulty.low > i128::MAX ==> self.weight_tree.value(g)
                    == header.difficulty.low - 0x1_0000_0000_0000_0000_0000_0000_0000_0000
                &&& self.sequence_number_of_block_entrance == n.data.sequence_number + 1
                &&& self.weight_tree.has(g) && self.weight_tree.parents()[g] == usize::MAX
                &&& self.adaptive_tree.has(g) && self.adaptive_tree.value(g) == 0
                &&& self.pivot_chain_metadata@.len() == 1
                &&& self.anticone_cache@.contains_key(g) && self.anticone_cache@[g].len() == 0
                &&& self.timer_chain_accumulative_lca@.len() == 0
                &&& self.terminal_hashes@.len() == 0
                &&& self.invalid_block_queue@.len() == 0
                &&& self.cur_era_genesis_timer_chain_height == 0
                &&& self.current_difficulty.value() == pow_config.initial_difficulty
            }),
    {
        assert forall|x: usize| #[trigger] self.has(x) <==> x == 0 by {
            assert(self.nodes().dom().contains(x) <==> set![0usize].contains(x));
        }
    }

    /// In the first state the timer chain is numbered, the tree holds blocks at their heights, the past
    /// weight of the genesis is what counts in its past, and with each active block its past is active.
    pub proof fn law_first_state_counts(
        &self,
        pow_config: ProofOfWorkConfig,
        data_man: BlockDataManager,
        inner_conf: ConsensusInnerConfig,
        genesis_hash: H256,
        stable_hash: H256,
    )
        requires
            self.is_first_state(pow_config, data_man, inner_conf, genesis_hash, stable_hash),
        ensures
            self.timer_chain_numbered(),
            self.tree_at_heights(),
            self.past_weight_counted(self.cur_era_genesis_block_arena_index),
            self.active_with_past(),
    {
        let nodes = self.nodes();
        let tp = self.weight_tree.parents();
        let g = self.cur_era_genesis_block_arena_index;
        assert forall|i: usize| #[trigger] self.weight_tree.has(i) implies depth(tp, i)
            + self.cur_era_genesis_height == self.node(i).height by {
            assert(self.weight_tree.view().dom().contains(i));
            self.weight_tree.lemma_parents(i);
            self.weight_tree.lemma_parents(NULL);
            assert(i == 0);
            assert(!self.weight_tree.view().dom().contains(NULL));
            assert(ancestor(tp, i, 0) == i);
            assert(ancestor(tp, i, 1) == NULL);
            assert(has_depth(tp, i, 0));
            lemma_depth_is(tp, i, 0);
        }
        assert(past_closed(nodes, set![g]));
        lemma_past_least(nodes, set![g], g);
        assert(past_of(nodes, g).remove(g) =~= Set::empty());
        assert forall|u: usize, v: usize|
            self.has(u) && self.node(u).data.activated && #[trigger] is_pred(
                nodes,
                u,
                v,
            ) implies self.node(v).data.activated by {
            assert(nodes.dom().contains(u));
        }
    }

    /// The epoch of a new block is executed in this order: those blocks that are listed for it and are in
    /// its era, each once and none before one that it links to, and last the block itself.
    pub proof fn law_new_epoch_is_ordered(&self, header: BlockHeader, after: Self, index: usize)
        requires
            self.wf(),
            self.is_new_node(header, after.node(index)),
            self.has_new_epoch(header, after.nodes(), index),
            links_added(self.nodes(), after.nodes(), index),
            after.wf(),
        ensures
            ({
                let n = after.node(index);
                let listed = n.data.blockset_in_own_view_of_epoch@;
                let ordered = n.data.ordered_executable_epoch_blocks@;
                &&& ordered.len() > 0 && ordered.last() == index
                &&& ordered.drop_last().no_duplicates()
                &&& forall|x: usize| #[trigger]
                    ordered.drop_last().contains(x) <==> listed.contains(x) && after.node(
                        x,
                    ).era_block == n.era_block
                &&& forall|i: int, j: int|
                    0 <= i < j < ordered.len() - 1 ==> !is_pred(
                        after.nodes(),
                        #[trigger] ordered[i],
                        #[trigger] ordered[j],
                    )
            }),
    {
        let parent = self.new_parent(header);
        let referees = self.new_referees(header);
        let n = after.node(index);
        let listed = n.data.blockset_in_own_view_of_epoch@;
        let ordered = n.data.ordered_executable_epoch_blocks@;
        let init = ordered.drop_last();
        let set = self.new_epoch_in_era(parent, referees);
        assert(after.nodes().dom().contains(index));
        assert(links_wf(after.nodes(), n));
        assert forall|x: usize| #[trigger] init.contains(x) <==> listed.contains(x) && after.node(
            x,
        ).era_block == n.era_block by {
            assert(init.to_set().contains(x) <==> init.contains(x));
            assert(listed.to_set().contains(x) <==> listed.contains(x));
            assert(set.contains(x) <==> self.new_epoch(parent, referees).contains(x) && self.node(
                x,
            ).era_block == n.era_block);
            if listed.contains(x) {
                let k = choose|k: int| 0 <= k < listed.len() && listed[k] == x;
                assert(after.nodes().contains_key(listed[k]));
                assert(after.nodes().dom().contains(x));
                if x != index {
                    assert(self.nodes().contains_key(x));
                } else {
                    self.lemma_epoch_without_itself(header, after, index);
                }
            }
        }
        assert forall|i: int, j: int| 0 <= i < j < ordered.len() - 1 implies !is_pred(
            after.nodes(),
            #[trigger] ordered[i],
            #[trigger] ordered[j],
        ) by {
            if is_pred(after.nodes(), ordered[i], ordered[j]) {
                law_topo_order_links(after.nodes(), set, init, i, j);
            }
        }
    }

    /// Collecting the epoch of a block lists it behind what was listed, without repeating itself, and marks
    /// it as listed. It is executed in this order: those listed blocks that are in the era of the block,
    /// each once and none before one that it links to, and last the block itself. Nothing is listed anew
    /// for a block without a parent, and nothing else changes.
    pub proof fn law_collected_epoch_is_ordered(&self, pivot: usize, data: ConsensusGraphNodeData)
        requires
            self.epoch_collected(pivot, data),
        ensures
            ({
                let old_list = self.node(pivot).data.blockset_in_own_view_of_epoch@;
                let listed = data.blockset_in_own_view_of_epoch@;
                let ordered = data.ordered_executable_epoch_blocks@;
                &&& old_list.len() <= listed.len() && listed.take(old_list.len() as int) == old_list
                &&& listed.skip(old_list.len() as int).no_duplicates()
                &&& self.node(pivot).parent == NULL ==> listed == old_list
                &&& !data.blockset_cleared
                &&& ordered.len() > 0 && ordered.last() == pivot
                &&& ordered.drop_last().no_duplicates()
                &&& forall|x: usize| #[trigger]
                    ordered.drop_last().contains(x) <==> listed.contains(x) && self.node(
                        x,
                    ).era_block == self.node(pivot).era_block
                &&& forall|i: int, j: int|
                    0 <= i < j < ordered.len() - 1 ==> !is_pred(
                        self.nodes(),
                        #[trigger] ordered[i],
                        #[trigger] ordered[j],
                    )
                &&& data == (ConsensusGraphNodeData {
                    blockset_in_own_view_of_epoch: data.blockset_in_own_view_of_epoch,
                    ordered_executable_epoch_blocks: data.ordered_executable_epoch_blocks,
                    blockset_cleared: data.blockset_cleared,
                    ..self.node(pivot).data
                })
            }),
    {
        let old_list = self.node(pivot).data.blockset_in_own_view_of_epoch@;
        let listed = data.blockset_in_own_view_of_epoch@;
        let ordered = data.ordered_executable_epoch_blocks@;
        let init = ordered.drop_last();
        let set = self.in_era_of(listed, pivot);
        let n = old_list.len() as int;
        if self.node(pivot).parent == NULL {
            let new = listed.skip(n);
            if new.len() > 0 {
                assert(new.to_set().contains(new[0]));
            }
            assert(listed =~= old_list) by {
                assert(listed.take(n) =~= listed);
            }
        }
        assert forall|x: usize| #[trigger] init.contains(x) <==> listed.contains(x) && self.node(
            x,
        ).era_block == self.node(pivot).era_block by {
            assert(init.to_set().contains(x) <==> init.contains(x));
            assert(set.contains(x) <==> listed.contains(x) && self.same_era(x, pivot));
        }
        assert forall|i: int, j: int| 0 <= i < j < ordered.len() - 1 implies !is_pred(
            self.nodes(),
            #[trigger] ordered[i],
            #[trigger] ordered[j],
        ) by {
            if is_pred(self.nodes(), ordered[i], ordered[j]) {
                law_topo_order_links(self.nodes(), set, init, i, j);
            }
        }
    }

    /// The epoch of a new block is made of old ones.
    proof fn lemma_epoch_without_itself(&self, header: BlockHeader, after: Self, index: usize)
        requires
            self.wf(),
            self.has_new_epoch(header, after.nodes(), index),
            links_added(self.nodes(), after.nodes(), index),
        ensures
            !after.node(index).data.blockset_in_own_view_of_epoch@.contains(index),
    {
        let parent = self.new_parent(header);
        let referees = self.new_referees(header);
        let listed = after.node(index).data.blockset_in_own_view_of_epoch@;
        if listed.contains(index) {
            assert(listed.to_set().contains(index));
            assert(self.new_epoch(parent, referees).contains(index));
            self.lemma_new_epoch_is_old(header);
            assert(self.nodes().dom().contains(index));
        }
    }

    proof fn lemma_new_epoch_is_old(&self, header: BlockHeader)
        requires
            self.wf(),
        ensures
            self.new_epoch(self.new_parent(header), self.new_referees(header)).subset_of(
                self.nodes().dom(),
            ),
    {
        let nodes = self.nodes();
        let parent = self.new_parent(header);
        let referees = self.new_referees(header);
        let avoid = self.new_epoch_avoid(parent);
        let edge = past_steps_outside(nodes, avoid);
        self.lemma_referees_are_nodes(header.referee_hashes@, header.referee_hashes@.len());
        if parent != NULL {
            assert(referees.to_set().difference(avoid).subset_of(nodes.dom())) by {
                assert forall|v: usize| referees.to_set().contains(v) implies nodes.dom().contains(
                    v,
                ) by {
                    let i = choose|i: int| 0 <= i < referees.len() && referees[i] == v;
                    assert(nodes.contains_key(referees[i]));
                }
            }
            assert forall|a: usize, b: usize|
                nodes.dom().contains(a) && #[trigger] edge(a, b) implies nodes.dom().contains(b) by {
                assert(nodes.contains_key(a));
                lemma_is_pred_older(nodes, a, b);
            }
            lemma_reach_closed(edge, referees.to_set().difference(avoid), nodes.dom());
        }
    }
}

} // verus!
