//! Epochs stay complete, and executing them one after the other executes every block once and
//! after all that it links to.
use vstd::prelude::*;

use crate::block_data::{BlockDataManager, BlockHeader};
use crate::extend::lemma_past_outside_kept;
use crate::graph::{
    all_nodes, arena_wf, links_wf, ConsensusGraphInner, ConsensusInnerConfig, ProofOfWorkConfig,
};
use crate::insertion::links_added;
use crate::lineage::ancestor;
use crate::node::{ConsensusGraphNode, ConsensusGraphNodeData};
use crate::past::{
    epoch_complete, epochs_complete, epochs_end, lemma_fresh_past, lemma_past_closed,
    lemma_past_least, lemma_past_of_parent, lemma_seen_since, past_closed, past_or_empty,
};
use crate::reach::{is_pred, past_of, past_steps_outside};
use crate::stable::with_data;
use crate::topo::lemma_is_pred_older;
use crate::types::{H256, NULL};

verus! {

/// A block is not in the past of its parent: what is there is older.
pub proof fn lemma_not_in_past_of_parent(nodes: Map<usize, ConsensusGraphNode>, y: usize)
    requires
        arena_wf(nodes),
        nodes.contains_key(y),
        nodes[y].parent != NULL,
    ensures
        !past_of(nodes, nodes[y].parent).contains(y),
{
    let p = nodes[y].parent;
    let older = Set::new(
        |v: usize|
            nodes.contains_key(v) && nodes[v].data.sequence_number < nodes[y].data.sequence_number,
    );
    assert(is_pred(nodes, y, p));
    lemma_is_pred_older(nodes, y, p);
    assert(past_closed(nodes, older)) by {
        assert forall|a: usize, b: usize|
            older.contains(a) && #[trigger] is_pred(nodes, a, b) implies older.contains(b) by {
            lemma_is_pred_older(nodes, a, b);
        }
    }
    lemma_past_least(nodes, older, p);
}

/// A new block changes neither the past of an old one nor whether its epoch is complete.
pub proof fn lemma_old_epoch_kept(
    before: Map<usize, ConsensusGraphNode>,
    after: Map<usize, ConsensusGraphNode>,
    index: usize,
    x: usize,
)
    requires
        arena_wf(before),
        links_added(before, after, index),
        before.contains_key(x),
    ensures
        past_of(after, x) == past_of(before, x),
        past_or_empty(after, after[x].parent) == past_or_empty(before, before[x].parent),
        epoch_complete(after, x) == epoch_complete(before, x),
{
    assert(links_wf(before, before[x]));
    assert(set![x].subset_of(before.dom()));
    lemma_past_outside_kept(before, after, index, Set::empty(), set![x]);
    let p = before[x].parent;
    if p != NULL {
        assert(set![p].subset_of(before.dom()));
        lemma_past_outside_kept(before, after, index, Set::empty(), set![p]);
    }
}

/// A block from outside the era leaves the epochs of the era complete, each with its pivot block
/// last.
pub proof fn law_out_era_block_keeps_epochs(
    before: Map<usize, ConsensusGraphNode>,
    after: Map<usize, ConsensusGraphNode>,
    index: usize,
)
    requires
        arena_wf(before),
        epochs_complete(before),
        epochs_end(before),
        links_added(before, after, index),
        after[index].era_block == NULL,
    ensures
        epochs_complete(after),
        epochs_end(after),
{
    assert forall|x: usize| #[trigger]
        after.contains_key(x) && after[x].era_block != NULL implies after[x].data.ordered_executable_epoch_blocks@.len()
        > 0 && after[x].data.ordered_executable_epoch_blocks@.last() == x by {
        assert(after.dom().contains(x));
        assert(before.contains_key(x));
    }
    assert forall|x: usize| #[trigger]
        after.contains_key(x) && after[x].era_block != NULL implies {
        &&& after[x].parent != NULL ==> after[after[x].parent].era_block != NULL
        &&& if after[x].data.blockset_cleared {
                after[x].data.blockset_in_own_view_of_epoch@.len() == 0
            } else {
                epoch_complete(after, x)
            }
    } by {
        assert(after.dom().contains(x));
        assert(before.contains_key(x));
        assert(links_wf(before, before[x]));
        lemma_old_epoch_kept(before, after, index, x);
        if before[x].parent != NULL {
            assert(before.contains_key(before[x].parent));
        }
    }
}

impl ConsensusGraphInner {
    /// In the first state the epochs are complete, each with its pivot block last, and the cached past
    /// sets right.
    pub proof fn law_first_epochs(
        &self,
        pow_config: ProofOfWorkConfig,
        data_man: BlockDataManager,
        inner_conf: ConsensusInnerConfig,
        genesis_hash: H256,
        stable_hash: H256,
    )
        requires
            self.is_first_state(pow_config, data_man, inner_conf, genesis_hash, stable_hash),
        ensures
            epochs_complete(self.nodes()),
            epochs_end(self.nodes()),
            self.pastsets_right(),
    {
        let nodes = self.nodes();
        assert forall|x: usize| #[trigger]
            nodes.contains_key(x) && nodes[x].era_block != NULL implies nodes[x].data.ordered_executable_epoch_blocks@.len()
            > 0 && nodes[x].data.ordered_executable_epoch_blocks@.last() == x by {
            assert(nodes.dom().contains(x));
        }
        assert forall|x: usize| #[trigger]
            nodes.contains_key(x) && nodes[x].era_block != NULL implies {
            &&& nodes[x].parent != NULL ==> nodes[nodes[x].parent].era_block != NULL
            &&& if nodes[x].data.blockset_cleared {
                nodes[x].data.blockset_in_own_view_of_epoch@.len() == 0
            } else {
                epoch_complete(nodes, x)
            }
        } by {
            assert(nodes.dom().contains(x));
            assert(x == 0);
            assert(past_closed(nodes, set![x]));
            lemma_past_least(nodes, set![x], x);
            lemma_past_closed(nodes, x);
            assert(nodes[x].data.blockset_in_own_view_of_epoch@.to_set() =~= Set::empty());
            assert(past_of(nodes, x).difference(past_or_empty(nodes, NULL)).remove(x)
                =~= Set::empty());
        }
    }

    /// Inserting a block keeps epochs complete, each with its pivot block last, and cached past sets
    /// right, and lists for the new block its past without the past of its parent and without the
    /// block itself.
    pub proof fn law_insert_keeps_epochs(
        &self,
        block_header: BlockHeader,
        after: Self,
        index: usize,
    )
        requires
            self.wf(),
            self.insertable(block_header),
            self.new_parent(block_header) != NULL,
            epochs_complete(self.nodes()),
            epochs_end(self.nodes()),
            self.pastsets_right(),
            links_added(self.nodes(), after.nodes(), index),
            self.is_new_node(block_header, after.node(index)),
            self.has_new_epoch(block_header, after.nodes(), index),
            after.pastset_cache@ == self.pastsets_after_insert(self.new_parent(block_header)),
        ensures
            epochs_complete(after.nodes()),
            epochs_end(after.nodes()),
            after.pastsets_right(),
            epoch_complete(after.nodes(), index),
    {
        let before = self.nodes();
        let nodes = after.nodes();
        assert forall|x: usize| #[trigger]
            nodes.contains_key(x) && nodes[x].era_block != NULL implies nodes[x].data.ordered_executable_epoch_blocks@.len()
            > 0 && nodes[x].data.ordered_executable_epoch_blocks@.last() == x by {
            assert(nodes.dom().contains(x));
            if x != index {
                assert(before.contains_key(x));
            }
        }
        let parent = self.new_parent(block_header);
        let referees = self.new_referees(block_header);
        let last = self.pivot_chain@.last();
        let lca = self.common_ancestor(last, parent);
        assert(before.contains_key(self.pivot_chain@[self.pivot_chain@.len() - 1]));
        assert(before.contains_key(parent));
        self.lemma_common_ancestor(last, parent);
        let k = choose|k: nat| #[trigger] ancestor(self.weight_tree.parents(), parent, k) == lca;
        self.lemma_climbs(lca, parent, k);
        lemma_seen_since(before, parent, lca);
        self.law_pastset_is_past(lca);
        let past = past_of(before, parent);
        assert(self.new_epoch_avoid(parent) == past);
        lemma_old_epoch_kept(before, nodes, index, parent);
        assert(past_or_empty(nodes, parent) == past);
        let from = referees.to_set().difference(past);
        self.lemma_referees_are_nodes(
            block_header.referee_hashes@,
            block_header.referee_hashes@.len(),
        );
        assert(from.subset_of(before.dom())) by {
            assert forall|v: usize| from.contains(v) implies before.dom().contains(v) by {
                let i = choose|i: int| 0 <= i < referees.len() && referees[i] == v;
                assert(before.contains_key(referees[i]));
            }
        }
        lemma_past_outside_kept(before, nodes, index, past, from);
        let above = past.insert(index);
        assert(referees.to_set().difference(above) =~= from) by {
            if referees.contains(index) {
                let i = choose|i: int| 0 <= i < referees.len() && referees[i] == index;
                assert(before.contains_key(referees[i]));
            }
        }
        lemma_fresh_past(nodes, index);
        assert(nodes[index].data.blockset_in_own_view_of_epoch@.to_set() =~= past_of(
            nodes,
            index,
        ).difference(past_or_empty(nodes, parent)).remove(index));
        assert(epoch_complete(nodes, index));
        assert forall|x: usize| #[trigger]
            nodes.contains_key(x) && nodes[x].era_block != NULL implies {
            &&& nodes[x].parent != NULL ==> nodes[nodes[x].parent].era_block != NULL
            &&& if nodes[x].data.blockset_cleared {
                nodes[x].data.blockset_in_own_view_of_epoch@.len() == 0
            } else {
                epoch_complete(nodes, x)
            }
        } by {
            assert(nodes.dom().contains(x));
            if x != index {
                assert(before.contains_key(x));
                assert(links_wf(before, before[x]));
                lemma_old_epoch_kept(before, nodes, index, x);
                if before[x].parent != NULL {
                    assert(before.contains_key(before[x].parent));
                }
            }
        }
        assert forall|x: usize| #[trigger]
            after.pastset_cache@.contains_key(x) implies after.pastset_cache@[x] == past_of(
            nodes,
            x,
        ) by {
            assert(self.has(x));
            assert(before.contains_key(x));
            lemma_old_epoch_kept(before, nodes, index, x);
        }
    }

    /// A list of nodes with a node more is a list of nodes.
    proof fn lemma_with_referee_nodes(&self, list: Seq<usize>, me: usize, i: int)
        requires
            all_nodes(self.nodes(), list),
            self.has(me),
        ensures
            all_nodes(self.nodes(), self.with_referee(list, me, i)),
        decreases list.len() - i,
    {
        let r = self.with_referee(list, me, i);
        if 0 <= i < list.len() && self.common_ancestor(list[i], me) != me && self.common_ancestor(
            list[i],
            me,
        ) != list[i] {
            self.lemma_with_referee_nodes(list, me, i + 1);
        } else {
            assert forall|k: int| 0 <= k < r.len() implies self.nodes().contains_key(
                #[trigger] r[k],
            ) by {
                if k < list.len() {
                    assert(self.nodes().contains_key(list[k]));
                }
            }
        }
    }

    /// The referees that come from hashes are nodes.
    pub proof fn lemma_referees_are_nodes(&self, hashes: Seq<H256>, n: nat)
        requires
            self.wf(),
        ensures
            all_nodes(self.nodes(), self.referees_from(hashes, n)),
        decreases n,
    {
        if n > 0 {
            self.lemma_referees_are_nodes(hashes, (n - 1) as nat);
            if self.hash_to_arena_indices@.contains_key(hashes[n - 1]) {
                self.lemma_with_referee_nodes(
                    self.referees_from(hashes, (n - 1) as nat),
                    self.hash_to_arena_indices@[hashes[n - 1]],
                    0,
                );
            }
        }
    }

    /// Listing the blocks of an epoch again keeps epochs complete and cached past sets right.
    pub proof fn lemma_collect_keeps_epochs(&self, pivot: usize, data: ConsensusGraphNodeData)
        requires
            self.wf(),
            self.has(pivot),
            self.node(pivot).parent != NULL,
            self.epoch_known(pivot),
            self.node(pivot).data.blockset_in_own_view_of_epoch@.len() == 0,
            epochs_complete(self.nodes()),
            epochs_end(self.nodes()),
            self.pastsets_right(),
            self.epoch_collected(pivot, data),
        ensures
            ({
                let nodes = with_data(self.nodes(), pivot, data);
                &&& epochs_complete(nodes)
                &&& epochs_end(nodes)
                &&& epoch_complete(nodes, pivot)
                &&& forall|v: usize| #[trigger] past_of(nodes, v) == past_of(self.nodes(), v)
                &&& forall|x: usize| #[trigger]
                    self.pastsets_after(pivot).contains_key(x) ==> self.has(x)
                        && self.pastsets_after(pivot)[x] == past_of(self.nodes(), x)
            }),
    {
        let before = self.nodes();
        let nodes = with_data(before, pivot, data);
        let parent = self.node(pivot).parent;
        assert(before.contains_key(pivot));
        assert forall|v: usize| #[trigger] past_of(nodes, v) == past_of(before, v) by {
            let e = past_steps_outside(before, Set::empty());
            let e1 = past_steps_outside(nodes, Set::empty());
            assert forall|a: usize, b: usize| #[trigger] is_pred(nodes, a, b) == is_pred(
                before,
                a,
                b,
            ) by {}
            assert(e =~= e1);
        }
        self.law_collected_epoch(pivot);
        let all = data.blockset_in_own_view_of_epoch@;
        assert(all.skip(0) =~= all);
        assert(epoch_complete(nodes, pivot));
        assert forall|x: usize| #[trigger]
            nodes.contains_key(x) && nodes[x].era_block != NULL implies {
            &&& nodes[x].parent != NULL ==> nodes[nodes[x].parent].era_block != NULL
            &&& if nodes[x].data.blockset_cleared {
                nodes[x].data.blockset_in_own_view_of_epoch@.len() == 0
            } else {
                epoch_complete(nodes, x)
            }
        } by {
            assert(before.contains_key(x));
            if x != pivot && !nodes[x].data.blockset_cleared {
                assert(epoch_complete(before, x));
            }
        }
        assert forall|x: usize| #[trigger]
            nodes.contains_key(x) && nodes[x].era_block != NULL implies nodes[x].data.ordered_executable_epoch_blocks@.len()
            > 0 && nodes[x].data.ordered_executable_epoch_blocks@.last() == x by {
            assert(before.contains_key(x));
        }
        self.lemma_epoch_start(pivot);
        lemma_seen_since(before, parent, self.epoch_start(pivot));
        self.law_pastset_is_past(self.epoch_start(pivot));
    }

    /// Collecting an epoch whose blocks were dropped lists them again, and keeps epochs complete
    /// and cached past sets right.
    pub proof fn law_collect_keeps_epochs(
        &self,
        pivot: usize,
        after: Self,
        data: ConsensusGraphNodeData,
    )
        requires
            self.wf(),
            self.has(pivot),
            self.node(pivot).parent != NULL,
            self.epoch_known(pivot),
            self.node(pivot).data.blockset_in_own_view_of_epoch@.len() == 0,
            epochs_complete(self.nodes()),
            epochs_end(self.nodes()),
            self.pastsets_right(),
            self.epoch_collected(pivot, data),
            after.nodes() == with_data(self.nodes(), pivot, data),
            after.pastset_cache@ == self.pastsets_after(pivot),
        ensures
            epochs_complete(after.nodes()),
            epochs_end(after.nodes()),
            after.pastsets_right(),
            epoch_complete(after.nodes(), pivot),
    {
        self.lemma_collect_keeps_epochs(pivot, data);
        assert forall|x: usize| #[trigger] after.pastset_cache@.contains_key(x) implies after.has(x)
            && after.pastset_cache@[x] == past_of(after.nodes(), x) by {
            assert(self.has(x));
        }
    }

    /// Whether each block of the pivot chain is the parent of the next one, and their epochs are
    /// listed.
    pub open spec fn pivot_chain_linked(&self) -> bool {
        &&& forall|i: int, j: int|
            0 <= i && j == i + 1 && j < self.pivot_chain@.len() ==> self.node(
                #[trigger] self.pivot_chain@[j],
            ).parent == #[trigger] self.pivot_chain@[i]
        &&& forall|i: int|
            0 <= i < self.pivot_chain@.len() ==> self.has(#[trigger] self.pivot_chain@[i])
                && !self.legacy(self.pivot_chain@[i]) && !self.node(
                self.pivot_chain@[i],
            ).data.blockset_cleared
    }

    /// Whether a block is in the epoch at a position of the pivot chain.
    pub open spec fn in_epoch_at(&self, i: int, x: usize) -> bool {
        x == self.pivot_chain@[i] || self.node(
            self.pivot_chain@[i],
        ).data.blockset_in_own_view_of_epoch@.contains(x)
    }

    /// A block of an epoch is what the epoch adds to the past of the pivot block before.
    proof fn lemma_epoch_adds(&self, i: int, x: usize)
        requires
            self.wf(),
            epochs_complete(self.nodes()),
            self.pivot_chain_linked(),
            0 < i < self.pivot_chain@.len(),
        ensures
            self.in_epoch_at(i, x) <==> past_of(self.nodes(), self.pivot_chain@[i]).contains(x)
                && !past_of(self.nodes(), self.pivot_chain@[i - 1]).contains(x),
    {
        let nodes = self.nodes();
        let y = self.pivot_chain@[i];
        let p = self.pivot_chain@[i - 1];
        assert(self.has(y) && self.has(p));
        assert(nodes.contains_key(y));
        assert(nodes[y].parent == p);
        assert(links_wf(nodes, nodes[y]));
        assert(epoch_complete(nodes, y));
        let blocks = nodes[y].data.blockset_in_own_view_of_epoch@;
        assert(blocks.to_set().contains(x) <==> blocks.contains(x));
        lemma_past_closed(nodes, y);
        lemma_not_in_past_of_parent(nodes, y);
    }

    /// The epochs of the pivot chain cut the past of its tip into parts: a block that is in the
    /// past of the pivot block at a position, and not in that of the first one, is in exactly one
    /// epoch up to that position.
    pub proof fn law_each_block_in_one_epoch(&self, n: int, x: usize)
        requires
            self.wf(),
            epochs_complete(self.nodes()),
            self.pivot_chain_linked(),
            0 <= n < self.pivot_chain@.len(),
            past_of(self.nodes(), self.pivot_chain@[n]).contains(x),
            !past_of(self.nodes(), self.pivot_chain@[0]).contains(x),
        ensures
            exists|i: int| 0 < i <= n && #[trigger] self.in_epoch_at(i, x),
            forall|i: int, j: int|
                0 < i <= n && 0 < j <= n && #[trigger] self.in_epoch_at(i, x)
                    && #[trigger] self.in_epoch_at(j, x) ==> i == j,
        decreases n,
    {
        if n > 0 {
            self.lemma_epoch_adds(n, x);
            if past_of(self.nodes(), self.pivot_chain@[n - 1]).contains(x) {
                self.law_each_block_in_one_epoch(n - 1, x);
                let i = choose|i: int| 0 < i <= n - 1 && #[trigger] self.in_epoch_at(i, x);
                assert(self.in_epoch_at(i, x));
            } else {
                assert(self.in_epoch_at(n, x));
            }
            assert forall|i: int, j: int|
                0 < i <= n && 0 < j <= n && #[trigger] self.in_epoch_at(i, x)
                    && #[trigger] self.in_epoch_at(j, x) implies i == j by {
                self.lemma_epoch_adds(i, x);
                self.lemma_epoch_adds(j, x);
                if i < j {
                    self.lemma_past_grows(i, j - 1, x);
                } else if j < i {
                    self.lemma_past_grows(j, i - 1, x);
                }
            }
        }
    }

    /// The past of a pivot block is in that of the later ones.
    proof fn lemma_past_grows(&self, i: int, j: int, x: usize)
        requires
            self.wf(),
            self.pivot_chain_linked(),
            0 <= i <= j < self.pivot_chain@.len(),
            past_of(self.nodes(), self.pivot_chain@[i]).contains(x),
        ensures
            past_of(self.nodes(), self.pivot_chain@[j]).contains(x),
        decreases j - i,
    {
        if i < j {
            self.lemma_past_grows(i, j - 1, x);
            let y = self.pivot_chain@[j];
            let p = self.pivot_chain@[j - 1];
            assert(self.node(y).parent == p);
            assert(self.has(p));
            lemma_past_of_parent(self.nodes(), y);
        }
    }

    /// Executing epochs one after the other executes no block before one that it links to: what a
    /// block of an epoch links to is in the past of the first pivot block or in an epoch that is
    /// not later.
    pub proof fn law_epochs_follow_links(&self, i: int, x: usize, y: usize)
        requires
            self.wf(),
            epochs_complete(self.nodes()),
            self.pivot_chain_linked(),
            0 < i < self.pivot_chain@.len(),
            self.in_epoch_at(i, x),
            is_pred(self.nodes(), x, y),
        ensures
            past_of(self.nodes(), self.pivot_chain@[0]).contains(y) || exists|j: int|
                0 < j <= i && #[trigger] self.in_epoch_at(j, y),
    {
        let nodes = self.nodes();
        self.lemma_epoch_adds(i, x);
        lemma_past_closed(nodes, self.pivot_chain@[i]);
        if !past_of(nodes, self.pivot_chain@[0]).contains(y) {
            self.law_each_block_in_one_epoch(i, y);
        }
    }

    /// Past sets are kept once they were put together: that of the last block that the pivot chain has in
    /// common with the parent of a block, when its epoch is collected and when it is inserted. Those of
    /// other blocks stay as they were, and without a parent nothing is put together.
    pub proof fn law_past_sets_are_kept(&self, pivot: usize, parent: usize, x: usize)
        ensures
            self.node(pivot).parent == NULL ==> self.pastsets_after(pivot) == self.pastset_cache@,
            self.pastsets_after_insert(NULL) == self.pastset_cache@,
            ({
                let start = self.common_ancestor(self.pivot_chain@.last(), parent);
                parent != NULL && self.node(pivot).parent == parent ==> {
                    &&& self.pastsets_after(pivot).contains_key(start)
                    &&& self.pastsets_after(pivot)[start] == self.pastset(start)
                    &&& self.pastsets_after_insert(parent).contains_key(start)
                    &&& self.pastsets_after_insert(parent)[start] == self.pastset(start)
                    &&& x != start ==> {
                        &&& self.pastsets_after(pivot).contains_key(x)
                            <==> self.pastset_cache@.contains_key(x)
                        &&& self.pastsets_after_insert(parent).contains_key(x)
                            <==> self.pastset_cache@.contains_key(x)
                        &&& self.pastset_cache@.contains_key(x) ==> self.pastsets_after(pivot)[x]
                            == self.pastset_cache@[x] && self.pastsets_after_insert(parent)[x]
                            == self.pastset_cache@[x]
                    }
                }
            }),
    {
    }
}

} // verus!
