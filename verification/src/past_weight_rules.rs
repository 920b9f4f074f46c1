//! What the past weight and the past count of a new block stand for.
use vstd::prelude::*;

use crate::anticone_rules::{lemma_past_is_older, lemma_past_trans};
use crate::block_data::BlockHeader;
use crate::consistency::law_era_genesis_height;
use crate::epoch::climbs_to;
use crate::graph::ConsensusGraphInner;
use crate::index_set::lemma_bounded_set;
use crate::insertion::links_added;
use crate::lineage::{
    ancestor, depth, lemma_ancestor_add, lemma_depth_exists, lemma_depth_of_ancestor,
    lemma_lca_exists, on_path, parent_of,
};
use crate::node::ConsensusGraphNode;
use crate::order::{lemma_not_in_past_of_parent, lemma_old_epoch_kept};
use crate::past::{epochs_complete, epochs_end, lemma_past_closed, lemma_past_of_parent};
use crate::reach::{is_pred, past_of};
use crate::sums::{
    lemma_set_sum_remove, lemma_set_sum_same, lemma_set_sum_single, lemma_set_sum_split, set_sum,
};
use crate::types::NULL;

verus! {

/// A set of indices is finite.
proof fn lemma_indices_finite(s: Set<usize>)
    ensures
        s.finite(),
{
    lemma_bounded_set(s, usize::MAX as nat + 1);
}

/// What a block reaches by parent links is in its past.
proof fn lemma_climbs_past(nodes: Map<usize, ConsensusGraphNode>, x: usize, top: usize)
    requires
        climbs_to(nodes, x, top),
    ensures
        past_of(nodes, x).contains(top),
    decreases nodes[x].data.sequence_number,
{
    lemma_past_closed(nodes, x);
    if x != top {
        let p = nodes[x].parent;
        lemma_climbs_past(nodes, p, top);
        assert(is_pred(nodes, x, p));
        lemma_past_trans(nodes, x, p, top);
    }
}

impl ConsensusGraphInner {
    /// Whether blocks stand in the tree at the depth of their heights above the era genesis.
    pub open spec fn tree_at_heights(&self) -> bool {
        forall|i: usize| #[trigger]
            self.weight_tree.has(i) ==> depth(self.weight_tree.parents(), i)
                + self.cur_era_genesis_height == self.node(i).height
    }

    /// Whether a block counts from a genesis on: it is not before the genesis, and, if that is not
    /// the current one, in its subtree.
    pub open spec fn counts_from(&self, genesis: usize, i: usize) -> bool {
        &&& i == genesis || !past_of(self.nodes(), genesis).contains(i)
        &&& genesis == self.cur_era_genesis_block_arena_index || on_path(
            self.weight_tree.parents(),
            genesis,
            i,
        )
    }

    /// The weight of a block if it counts from a genesis on.
    pub open spec fn weight_from(&self, genesis: usize) -> spec_fn(usize) -> int {
        |i: usize|
            if self.counts_from(genesis, i) {
                self.weight(i)
            } else {
                0
            }
    }

    /// Whether the past weight that is stored for a block is the weight of what is in its past,
    /// without the block, and counts from the genesis of its era on.
    pub open spec fn past_weight_counted(&self, x: usize) -> bool {
        self.node(x).past_era_weight == set_sum(
            past_of(self.nodes(), x).remove(x),
            self.weight_from(self.node(x).era_block),
        )
    }

    /// A block that is high enough counts for the era of a genesis exactly if the genesis is above it
    /// in the tree.
    proof fn lemma_counts_on_path(&self, g: usize, i: usize)
        requires
            self.wf(),
            self.tree_at_heights(),
            self.weight_tree.has(g),
            g != self.cur_era_genesis_block_arena_index,
            self.has(i),
            self.era_known(i, g),
        ensures
            self.counts_for_era(i, g) <==> on_path(self.weight_tree.parents(), g, i),
    {
        let tp = self.weight_tree.parents();
        let ranks = self.weight_tree.ranks();
        self.weight_tree.lemma_ranked();
        self.weight_tree.lemma_parents(g);
        self.weight_tree.lemma_parents(i);
        assert(self.nodes().contains_key(g));
        if self.nodes().contains_key(NULL) {
            assert(self.has(NULL));
        }
        if self.weight_tree.has(i) {
            lemma_depth_exists(tp, ranks, i);
        }
        if on_path(tp, g, i) {
            let k = choose|k: nat| #[trigger] ancestor(tp, i, k) == g;
            if self.weight_tree.has(i) {
                lemma_depth_of_ancestor(tp, ranks, i, k);
            } else if k > 0 {
                lemma_ancestor_add(tp, i, 1, (k - 1) as nat);
                assert(ancestor(tp, i, 0) == i);
                assert(ancestor(tp, i, 1) == NULL);
                crate::lineage::lemma_ancestor_null(tp, (k - 1) as nat);
            } else {
                assert(ancestor(tp, i, 0) == i);
            }
        }
        if self.counts_for_era(i, g) {
            let at = (self.node(g).height - self.cur_era_genesis_height) as nat;
            assert(ancestor(tp, i, (depth(tp, i) - at) as nat) == g);
        }
    }

    /// The genesis of the era of a block with this parent is above the parent, or the parent; and if
    /// it is not the parent, it is the genesis of the era of the parent.
    pub proof fn law_era_goes_on(&self, parent: usize)
        requires
            self.wf(),
            self.tree_at_heights(),
            self.heights_wf(),
            self.eras_wf(),
            self.era_genesis_found(parent, 0),
            self.has(parent),
        ensures
            ({
                let g = self.era_genesis_with_parent(parent, 0);
                &&& on_path(self.weight_tree.parents(), g, parent)
                &&& self.weight_tree.has(g)
                &&& parent != g ==> self.node(parent).era_block == g
                &&& parent == g <==> self.node(parent).height == self.era_genesis_height(
                    self.node(parent).height as int,
                    0,
                )
            }),
    {
        let tp = self.weight_tree.parents();
        let ranks = self.weight_tree.ranks();
        let count = self.inner_conf.era_epoch_count as int;
        let hp = self.node(parent).height as int;
        let h = self.era_genesis_height(hp, 0);
        let g = self.era_genesis_with_parent(parent, 0);
        self.weight_tree.lemma_ranked();
        self.weight_tree.lemma_parents(parent);
        if self.nodes().contains_key(NULL) {
            assert(self.has(NULL));
        }
        assert(self.nodes().contains_key(parent));
        assert(0 <= h <= hp) by {
            if hp > 0 {
                law_era_genesis_height(self, hp, 0);
            }
        }
        let at = (h - self.cur_era_genesis_height) as nat;
        lemma_depth_exists(tp, ranks, parent);
        let d = depth(tp, parent);
        assert(at <= d);
        let k = (d - at) as nat;
        assert(g == ancestor(tp, parent, k));
        crate::lineage::lemma_ancestor_prefix(tp, parent, k, d);
        crate::lineage::lemma_ancestor_ranked(tp, ranks, parent, k);
        self.weight_tree.lemma_parents(g);
        assert(on_path(tp, g, parent));
        assert(ancestor(tp, parent, 0) == parent);
        if k > 0 {
            crate::lineage::lemma_ancestor_distinct(tp, ranks, parent, 0, k);
            assert(hp != h);
            crate::lineage::lemma_ancestor_prefix(tp, parent, 1, d);
            let q = ancestor(tp, parent, 1);
            assert(q == parent_of(tp, parent));
            crate::lineage::lemma_ancestor_ranked(tp, ranks, parent, 1);
            self.weight_tree.lemma_parents(q);
            assert(self.nodes().contains_key(parent) && self.weight_tree.has(parent));
            assert(self.node(parent).parent == q);
            assert(self.has(parent));
            assert(self.node(q).height == hp - 1);
            lemma_depth_of_ancestor(tp, ranks, parent, 1);
            self.lemma_same_era_height(hp);
            lemma_ancestor_add(tp, parent, 1, (k - 1) as nat);
        }
    }

    /// The ancestor of a block at a height, from that of the era genesis up to that of the block, is the
    /// block above it in the tree, or itself, that has that height; and there is none higher up.
    pub proof fn law_ancestor_has_the_height(&self, x: usize, height: int)
        requires
            self.wf(),
            self.tree_at_heights(),
            self.weight_tree.has(x),
            self.cur_era_genesis_height <= height,
        ensures
            ({
                let a = self.ancestor_at_height(x, height);
                &&& height <= self.node(x).height ==> on_path(self.weight_tree.parents(), a, x)
                    && self.weight_tree.has(a) && self.node(a).height == height
                &&& height > self.node(x).height ==> a == NULL
            }),
    {
        let tp = self.weight_tree.parents();
        let ranks = self.weight_tree.ranks();
        self.weight_tree.lemma_ranked();
        self.weight_tree.lemma_parents(x);
        lemma_depth_exists(tp, ranks, x);
        let d = depth(tp, x);
        let at = (height - self.cur_era_genesis_height) as nat;
        if at <= d {
            let k = (d - at) as nat;
            crate::lineage::lemma_ancestor_prefix(tp, x, k, d);
            crate::lineage::lemma_ancestor_ranked(tp, ranks, x, k);
            lemma_depth_of_ancestor(tp, ranks, x, k);
            let a = ancestor(tp, x, k);
            self.weight_tree.lemma_parents(a);
            assert(on_path(tp, a, x));
        }
    }

    /// The common ancestor of two blocks of the era is above both of them in the tree, or one of them, and
    /// whatever else is above both is above it too; if there is none, nothing is above both. With a
    /// block from outside the era there is none.
    pub proof fn law_common_ancestor_is_lowest(&self, a: usize, b: usize, c: usize)
        requires
            self.wf(),
            self.weight_tree.has(a),
            self.weight_tree.has(b),
        ensures
            ({
                let tp = self.weight_tree.parents();
                let r = self.common_ancestor(a, b);
                if self.node(a).era_block == NULL || self.node(b).era_block == NULL {
                    r == NULL
                } else {
                    &&& r != NULL ==> on_path(tp, r, a) && on_path(tp, r, b)
                    &&& on_path(tp, c, a) && on_path(tp, c, b) ==> r != NULL && on_path(tp, c, r)
                }
            }),
    {
        let tp = self.weight_tree.parents();
        self.weight_tree.lemma_ranked();
        self.weight_tree.lemma_parents(a);
        self.weight_tree.lemma_parents(b);
        lemma_lca_exists(tp, self.weight_tree.ranks(), a, b);
    }

    /// The genesis of the era of a block with a given parent, looked up with an offset, is the block at or
    /// above the parent that is at the era genesis height for that offset.
    pub proof fn law_era_genesis_is_above(&self, parent: usize, offset: u64)
        requires
            self.wf(),
            self.tree_at_heights(),
            self.era_genesis_found(parent, offset),
            parent != NULL,
            self.has(parent),
        ensures
            ({
                let g = self.era_genesis_with_parent(parent, offset);
                &&& on_path(self.weight_tree.parents(), g, parent)
                &&& self.node(g).height == self.era_genesis_height(
                    self.node(parent).height as int,
                    offset as int,
                )
            }),
    {
        let hp = self.node(parent).height as int;
        let h = self.era_genesis_height(hp, offset as int);
        if hp > offset {
            law_era_genesis_height(self, hp, offset as int);
        }
        self.law_ancestor_has_the_height(parent, h);
    }

    /// Below a genesis height the era goes on.
    proof fn lemma_same_era_height(&self, hp: int)
        requires
            hp > 0,
            self.inner_conf.era_epoch_count > 0,
            self.era_genesis_height(hp, 0) != hp,
        ensures
            self.era_genesis_height(hp - 1, 0) == self.era_genesis_height(hp, 0),
    {
        let count = self.inner_conf.era_epoch_count as int;
        law_era_genesis_height(self, hp, 0);
        law_era_genesis_height(self, hp - 1, 0);
        let a = self.era_genesis_height(hp, 0);
        let b = self.era_genesis_height(hp - 1, 0);
        let q = hp / count;
        assert(a == q * count);
        if hp > 1 {
            let r = (hp - 1) / count;
            assert(b == r * count);
            assert(a == b) by (nonlinear_arith)
                requires
                    a == q * count,
                    b == r * count,
                    count > 0,
                    a <= hp < a + count,
                    b <= hp - 1 < b + count,
                    a != hp,
            ;
        } else {
            assert(a == 0) by (nonlinear_arith)
                requires
                    a == q * count,
                    count > 0,
                    a <= 1,
                    0 <= a,
                    a != 1,
            ;
        }
    }

    /// After an insertion the past weight of the new block is the sum of the weights of the blocks of
    /// its past that count from the genesis of its era on, if that holds of its parent; where the
    /// parent is that genesis, whatever the past weight of the parent.
    pub proof fn law_insert_counts_past_weight(
        &self,
        block_header: BlockHeader,
        after: Self,
        index: usize,
    )
        requires
            self.wf(),
            self.insertable(block_header),
            self.new_parent(block_header) != NULL,
            epochs_complete(self.nodes()),
            epochs_end(self.nodes()),
            self.pastsets_right(),
            self.tree_at_heights(),
            self.heights_wf(),
            self.eras_wf(),
            self.new_parent(block_header) != after.node(index).era_block
                ==> self.past_weight_counted(self.new_parent(block_header)),
            links_added(self.nodes(), after.nodes(), index),
            self.is_new_node(block_header, after.node(index)),
            self.has_new_epoch(block_header, after.nodes(), index),
            after.node(index).past_era_weight == self.new_past(block_header).1,
            after.pastset_cache@ == self.pastsets_after_insert(self.new_parent(block_header)),
            after.wf(),
            after.weight_tree == self.weight_tree,
            after.inner_conf == self.inner_conf,
            after.cur_era_genesis_block_arena_index == self.cur_era_genesis_block_arena_index,
        ensures
            after.past_weight_counted(index),
    {
        let before = self.nodes();
        let nodes = after.nodes();
        let tp = self.weight_tree.parents();
        let parent = self.new_parent(block_header);
        let referees = self.new_referees(block_header);
        let g = self.era_genesis_with_parent(parent, 0);
        assert(before.contains_key(parent));
        assert(self.has(parent));
        assert(nodes.dom().contains(index));
        assert(nodes.contains_key(index));
        self.law_insert_keeps_epochs(block_header, after, index);
        self.law_era_goes_on(parent);
        assert(self.weight_tree.has(g));
        assert(before.contains_key(g));
        assert(self.genesis_or_current(g) == g) by {
            if before.contains_key(NULL) {
                assert(self.has(NULL));
            }
        }
        let k = choose|k: nat| #[trigger] ancestor(tp, parent, k) == g;
        self.lemma_climbs(g, parent, k);
        lemma_climbs_past(before, parent, g);
        lemma_old_epoch_kept(before, nodes, index, parent);
        lemma_old_epoch_kept(before, nodes, index, g);
        let past = past_of(before, parent);
        let epoch = self.new_epoch(parent, referees);
        let all = past_of(nodes, index).remove(index);
        let f = after.weight_from(g);
        assert(epoch == past_of(nodes, index).difference(past).remove(index));
        lemma_not_in_past_of_parent(nodes, index);
        lemma_past_of_parent(nodes, index);
        assert(past.subset_of(all));
        assert(all.difference(past) =~= epoch);
        lemma_indices_finite(all);
        lemma_indices_finite(past);
        lemma_indices_finite(epoch);
        lemma_set_sum_split(all, past, f);
        // What is added by the epoch.
        assert forall|i: usize| #[trigger] epoch.contains(i) implies f(i) == (self.weight_in_era(
            g,
        ))(i) by {
            lemma_past_is_older(nodes, index, i);
            assert(nodes.dom().contains(i));
            assert(before.contains_key(i));
            assert(self.has(i));
            if past_of(before, g).contains(i) {
                lemma_past_trans(before, parent, g, i);
            }
            assert(after.weight(i) == self.weight(i));
            if g != self.cur_era_genesis_block_arena_index {
                self.lemma_counts_on_path(g, i);
            }
        }
        lemma_set_sum_same(epoch, f, self.weight_in_era(g));
        // What is added by the past of the parent.
        assert(after.weight(parent) == self.weight(parent));
        if parent == g {
            assert forall|i: usize| #[trigger] past.contains(i) && i != g implies f(i) == 0 by {}
            assert(ancestor(tp, g, 0) == g);
            assert(on_path(tp, g, g));
            lemma_past_closed(before, g);
            lemma_set_sum_single(past, f, g);
        } else {
            lemma_past_closed(before, parent);
            lemma_set_sum_remove(past, f, parent);
            assert(!past_of(before, g).contains(parent)) by {
                if past_of(before, g).contains(parent) {
                    lemma_past_is_older(before, g, parent);
                    lemma_past_is_older(before, parent, g);
                }
            }
            assert(f(parent) == self.weight(parent));
            let rest = past.remove(parent);
            let h = self.weight_from(g);
            assert forall|i: usize| #[trigger] rest.contains(i) implies f(i) == h(i) by {
                lemma_past_is_older(before, parent, i);
                assert(after.weight(i) == self.weight(i));
            }
            lemma_set_sum_same(rest, f, h);
        }
    }

    /// Where, of what weighs anything in the past of a new block, exactly the genesis of its era and the
    /// blocks of its era count from that genesis on, insertion makes the past weight of the block right, given that of its
    /// parent, or the parent being the genesis.
    pub proof fn law_insert_keeps_past_weight_right(
        &self,
        block_header: BlockHeader,
        after: Self,
        index: usize,
    )
        requires
            self.wf(),
            self.insertable(block_header),
            self.new_parent(block_header) != NULL,
            epochs_complete(self.nodes()),
            epochs_end(self.nodes()),
            self.pastsets_right(),
            self.tree_at_heights(),
            self.heights_wf(),
            self.eras_wf(),
            self.new_parent(block_header) != after.node(index).era_block
                ==> self.past_weight_right(self.new_parent(block_header)),
            links_added(self.nodes(), after.nodes(), index),
            self.is_new_node(block_header, after.node(index)),
            self.has_new_epoch(block_header, after.nodes(), index),
            after.node(index).past_era_weight == self.new_past(block_header).1,
            after.pastset_cache@ == self.pastsets_after_insert(self.new_parent(block_header)),
            after.wf(),
            after.weight_tree == self.weight_tree,
            after.inner_conf == self.inner_conf,
            after.cur_era_genesis_block_arena_index == self.cur_era_genesis_block_arena_index,
            forall|i: usize| #[trigger]
                past_of(after.nodes(), index).contains(i) && i != index && after.weight(i) != 0 ==> (
                after.counts_from(
                    after.node(index).era_block,
                    i,
                ) <==> after.node(i).era_block == after.node(index).era_block || i == after.node(
                    index,
                ).era_block),
        ensures
            after.past_weight_right(index),
    {
        let before = self.nodes();
        let nodes = after.nodes();
        let parent = self.new_parent(block_header);
        let g = self.era_genesis_with_parent(parent, 0);
        assert(before.contains_key(parent));
        assert(self.has(parent));
        assert(nodes.dom().contains(index));
        self.law_era_goes_on(parent);
        lemma_not_in_past_of_parent(nodes, index);
        lemma_past_of_parent(nodes, index);
        lemma_old_epoch_kept(before, nodes, index, parent);
        lemma_old_epoch_kept(before, nodes, index, g);
        if parent != g {
            let rest = past_of(before, parent).remove(parent);
            let a = self.weight_in_own_era(parent);
            let b = self.weight_from(g);
            lemma_indices_finite(rest);
            assert forall|i: usize| #[trigger] rest.contains(i) implies a(i) == b(i) by {
                lemma_past_is_older(before, parent, i);
                assert(past_of(nodes, index).contains(i));
                assert(after.weight(i) == self.weight(i));
                assert(after.counts_from(g, i) == self.counts_from(g, i));
            }
            lemma_set_sum_same(rest, a, b);
            assert(self.past_weight_counted(parent));
        }
        self.law_insert_counts_past_weight(block_header, after, index);
        let all = past_of(nodes, index).remove(index);
        lemma_indices_finite(all);
        let a = after.weight_in_own_era(index);
        let b = after.weight_from(g);
        assert forall|i: usize| #[trigger] all.contains(i) implies a(i) == b(i) by {}
        lemma_set_sum_same(all, a, b);
    }

    /// Insertion counts for the new block the blocks of its past: those of its parent, and its own
    /// epoch as it is ordered for execution, where it stands last.
    pub proof fn law_insert_counts_past_blocks(
        &self,
        block_header: BlockHeader,
        after: Self,
        index: usize,
    )
        requires
            self.wf(),
            self.insertable(block_header),
            self.new_parent(block_header) != NULL,
            self.is_new_node(block_header, after.node(index)),
            self.has_new_epoch(block_header, after.nodes(), index),
            after.node(index).past_num_blocks == self.new_past(block_header).0,
        ensures
            after.node(index).past_num_blocks == self.node(
                after.node(index).parent,
            ).past_num_blocks + after.node(index).data.ordered_executable_epoch_blocks@.len(),
    {
        let ordered = after.node(index).data.ordered_executable_epoch_blocks@;
        ordered.drop_last().unique_seq_to_set();
    }

    /// A block without a parent starts to count: nothing is in its past or its epoch.
    pub proof fn law_insert_without_parent(&self, block_header: BlockHeader, after: Self, index: usize)
        requires
            self.new_parent(block_header) == NULL,
            self.has_new_epoch(block_header, after.nodes(), index),
            after.node(index).past_num_blocks == self.new_past(block_header).0,
            after.node(index).past_era_weight == self.new_past(block_header).1,
        ensures
            after.node(index).past_num_blocks == 0,
            after.node(index).past_era_weight == 0,
            after.node(index).data.blockset_in_own_view_of_epoch@.len() == 0,
            after.node(index).data.ordered_executable_epoch_blocks@ == seq![index],
    {
        let blocks = after.node(index).data.blockset_in_own_view_of_epoch@;
        let ordered = after.node(index).data.ordered_executable_epoch_blocks@;
        if blocks.len() > 0 {
            assert(blocks.to_set().contains(blocks[0]));
        }
        let init = ordered.drop_last();
        if init.len() > 0 {
            assert(init.to_set().contains(init[0]));
        }
        assert(ordered =~= seq![index]);
    }

    /// For the era of a genesis a block adds its weight if the genesis is the current one, or none is
    /// given, or the block is in the subtree of the genesis; else it adds nothing.
    pub proof fn law_weight_in_era(&self, genesis: usize, i: usize)
        requires
            self.wf(),
            self.tree_at_heights(),
            self.has(i),
            self.era_known(i, genesis),
            genesis != NULL ==> self.weight_tree.has(genesis),
        ensures
            (self.weight_in_era(genesis))(i) == (if genesis == NULL || genesis
                == self.cur_era_genesis_block_arena_index || on_path(
                self.weight_tree.parents(),
                genesis,
                i,
            ) {
                self.weight(i)
            } else {
                0
            }),
    {
        if genesis != NULL && genesis != self.cur_era_genesis_block_arena_index {
            self.lemma_counts_on_path(genesis, i);
        }
    }
}

} // verus!
