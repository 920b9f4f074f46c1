//! The two ways to find subtree weights without barrier blocks agree: adding them up over the
//! children of blocks, and taking barrier blocks out of the trees.
use vstd::prelude::*;

use crate::graph::{links_wf, ConsensusGraphInner};
use crate::lineage::{
    ancestor, lemma_ancestor_prefix, lemma_depth_of_ancestor, lemma_on_path_same_depth,
    lemma_on_path_trans, on_path, parent_of,
};
use crate::reach::{lemma_reach_closed, lemma_reach_seed, lemma_reach_step};
use crate::sums::{lemma_set_sum_add, lemma_set_sum_single, set_sum};
use crate::timer::TimerChainTuple;
use crate::types::NULL;

verus! {

impl ConsensusGraphInner {
    /// The subtree of the era genesis without the subtree of `me`.
    pub open spec fn whole_subtree(&self, me: usize) -> Set<usize> {
        self.kept_subtree(me, Set::empty())
    }

    /// Whether the trees stand for the graph without `me`: each block below the era genesis is in
    /// them below its parent, the weight tree holds the weights of subtrees, and the adaptive tree
    /// holds the leads.
    pub open spec fn trees_hold_weights(&self, me: usize) -> bool {
        let g = self.cur_era_genesis_block_arena_index;
        let parents = self.weight_tree.parents();
        &&& me != g
        &&& forall|x: usize| #[trigger]
            self.whole_subtree(me).contains(x) ==> {
                let p = self.node(x).parent;
                &&& self.weight_tree.has(x)
                &&& parent_of(parents, x) == p
                &&& p == NULL <==> x == g
                &&& self.weight_tree.value(x) == self.subtree_weight(self.whole_subtree(me), x)
                &&& x != g ==> self.adaptive_tree.value(x) == 2 * self.weight_tree.value(x)
                    - self.weight_tree.value(p) + self.weight(p)
            }
    }

    /// Whether barrier blocks are below the era genesis, none of them below another.
    pub open spec fn barrier_apart(&self, me: usize, barrier: Set<usize>) -> bool {
        &&& barrier.finite()
        &&& forall|i: usize| #[trigger]
            barrier.contains(i) ==> self.whole_subtree(me).contains(i) && i
                != self.cur_era_genesis_block_arena_index
        &&& forall|i: usize, j: usize|
            barrier.contains(i) && barrier.contains(j) && #[trigger] on_path(
                self.weight_tree.parents(),
                i,
                j,
            ) ==> i == j
    }

    /// A block that is kept is in the whole subtree.
    proof fn lemma_kept_in_whole(&self, me: usize, barrier: Set<usize>)
        ensures
            self.kept_subtree(me, barrier).subset_of(self.whole_subtree(me)),
    {
        let g = self.cur_era_genesis_block_arena_index;
        let edge = self.kept_steps(me, barrier);
        let wide = self.kept_steps(me, Set::empty());
        lemma_reach_seed(wide, set![g], g);
        assert forall|a: usize, b: usize|
            self.whole_subtree(me).contains(a) && #[trigger] edge(a, b) implies self.whole_subtree(
            me,
        ).contains(b) by {
            assert(wide(a, b));
            lemma_reach_step(wide, set![g], a, b);
        }
        lemma_reach_closed(edge, set![g], self.whole_subtree(me));
    }

    /// A child of a block that is kept is kept unless it is left out.
    proof fn lemma_child_kept(&self, me: usize, barrier: Set<usize>, x: usize, c: usize)
        requires
            self.kept_subtree(me, barrier).contains(x),
            self.node(x).children@.contains(c),
            !barrier.contains(c),
            c != me,
        ensures
            self.kept_subtree(me, barrier).contains(c),
    {
        let edge = self.kept_steps(me, barrier);
        assert(edge(x, c));
        lemma_reach_step(edge, set![self.cur_era_genesis_block_arena_index], x, c);
    }

    /// The parent of a block that is kept, other than the era genesis, is kept and lists it as a
    /// child.
    proof fn lemma_parent_is_kept(&self, me: usize, barrier: Set<usize>, x: usize)
        requires
            self.wf(),
            self.trees_hold_weights(me),
            self.kept_subtree(me, barrier).contains(x),
            x != self.cur_era_genesis_block_arena_index,
        ensures
            self.kept_subtree(me, barrier).contains(self.node(x).parent),
            self.node(self.node(x).parent).children@.contains(x),
    {
        self.lemma_kept(me, barrier);
        self.lemma_kept_in_whole(me, barrier);
        assert(self.whole_subtree(me).contains(x));
        let u = choose|u: usize|
            self.kept_subtree(me, barrier).contains(u) && #[trigger] self.node(
                u,
            ).children@.contains(x);
        let k = choose|k: int|
            0 <= k < self.node(u).children@.len() && self.node(u).children@[k] == x;
        assert(self.has(u));
        assert(self.nodes().contains_key(u));
        assert(self.nodes()[self.nodes()[u].children@[k]].parent == u
            || self.nodes()[self.nodes()[u].children@[k]].parent == NULL);
    }

    /// What is above a block of the whole subtree is in it.
    proof fn lemma_line_in_whole(&self, me: usize, i: usize, k: nat)
        requires
            self.wf(),
            self.trees_hold_weights(me),
            self.whole_subtree(me).contains(i),
            ancestor(self.weight_tree.parents(), i, k) != NULL,
        ensures
            self.whole_subtree(me).contains(ancestor(self.weight_tree.parents(), i, k)),
        decreases k,
    {
        let parents = self.weight_tree.parents();
        if k > 0 {
            self.weight_tree.lemma_ranked();
            lemma_ancestor_prefix(parents, i, (k - 1) as nat, k);
            self.lemma_line_in_whole(me, i, (k - 1) as nat);
            let x = ancestor(parents, i, (k - 1) as nat);
            assert(self.whole_subtree(me).contains(x));
            assert(parent_of(parents, x) == self.node(x).parent);
            self.lemma_parent_is_kept(me, Set::empty(), x);
        }
    }

    /// The weight of a barrier block, if it is at or below `u`.
    pub open spec fn below(&self, u: usize) -> spec_fn(usize) -> int {
        |i: usize|
            if on_path(self.weight_tree.parents(), u, i) {
                self.weight_tree.value(i)
            } else {
                0
            }
    }

    /// Whether a block is at or below one of the first `k` children of `x`.
    pub open spec fn under_children(&self, x: usize, k: nat, i: usize) -> bool {
        exists|j: int|
            0 <= j < k && j < self.node(x).children@.len() && on_path(
                self.weight_tree.parents(),
                #[trigger] self.node(x).children@[j],
                i,
            )
    }

    /// The weight of a barrier block, if it is at or below one of the first `k` children of `x`.
    pub open spec fn below_children(&self, x: usize, k: nat) -> spec_fn(usize) -> int {
        |i: usize|
            if self.under_children(x, k, i) {
                self.weight_tree.value(i)
            } else {
                0
            }
    }

    /// The children of a block are in the whole subtree below it, but for `me`.
    proof fn lemma_child_in_whole(&self, me: usize, x: usize, k: int)
        requires
            self.wf(),
            self.trees_hold_weights(me),
            self.whole_subtree(me).contains(x),
            0 <= k < self.node(x).children@.len(),
        ensures
            ({
                let c = self.node(x).children@[k];
                &&& self.age(c) > self.age(x)
                &&& c != me ==> self.whole_subtree(me).contains(c)
                &&& self.whole_subtree(me).contains(c) ==> c
                    != self.cur_era_genesis_block_arena_index && parent_of(
                    self.weight_tree.parents(),
                    c,
                ) == x
            }),
    {
        let c = self.node(x).children@[k];
        self.lemma_kept(me, Set::empty());
        assert(self.has(x));
        assert(self.nodes().contains_key(x));
        assert(links_wf(self.nodes(), self.nodes()[x]));
        assert(self.nodes()[self.nodes()[x].children@[k]].data.sequence_number
            > self.nodes()[x].data.sequence_number);
        assert(self.node(x).children@.contains(c));
        if c != me {
            self.lemma_child_kept(me, Set::empty(), x, c);
        }
        if self.whole_subtree(me).contains(c) {
            assert(self.nodes()[self.nodes()[x].children@[k]].parent == x
                || self.nodes()[self.nodes()[x].children@[k]].parent == NULL);
        }
    }

    /// No block is below two children of one block.
    proof fn lemma_one_child_above(&self, me: usize, x: usize, j: int, k: int, i: usize)
        requires
            self.wf(),
            self.trees_hold_weights(me),
            self.whole_subtree(me).contains(x),
            self.whole_subtree(me).contains(i),
            0 <= j < self.node(x).children@.len(),
            0 <= k < self.node(x).children@.len(),
            on_path(self.weight_tree.parents(), self.node(x).children@[j], i),
            on_path(self.weight_tree.parents(), self.node(x).children@[k], i),
        ensures
            j == k,
    {
        let parents = self.weight_tree.parents();
        let ranks = self.weight_tree.ranks();
        let a = self.node(x).children@[j];
        let b = self.node(x).children@[k];
        self.weight_tree.lemma_ranked();
        self.weight_tree.lemma_parents(i);
        self.lemma_above_in_whole(me, a, i);
        self.lemma_above_in_whole(me, b, i);
        self.lemma_child_in_whole(me, x, j);
        self.lemma_child_in_whole(me, x, k);
        self.weight_tree.lemma_parents(a);
        self.weight_tree.lemma_parents(b);
        assert(ancestor(parents, a, 0) == a);
        assert(ancestor(parents, b, 0) == b);
        assert(ancestor(parents, a, 1) == x);
        assert(ancestor(parents, b, 1) == x);
        self.lemma_kept(me, Set::empty());
        lemma_depth_of_ancestor(parents, ranks, a, 1);
        lemma_depth_of_ancestor(parents, ranks, b, 1);
        lemma_on_path_same_depth(parents, ranks, a, b, i);
        assert(self.nodes().contains_key(x));
        assert(self.node(x).children@.no_duplicates());
    }

    /// A block above one of the whole subtree is in it.
    proof fn lemma_above_in_whole(&self, me: usize, a: usize, i: usize)
        requires
            self.wf(),
            self.trees_hold_weights(me),
            self.whole_subtree(me).contains(i),
            on_path(self.weight_tree.parents(), a, i),
        ensures
            self.whole_subtree(me).contains(a),
    {
        let k = choose|k: nat| #[trigger] ancestor(self.weight_tree.parents(), i, k) == a;
        self.lemma_line_in_whole(me, i, k);
    }

    /// What is below a block, and not the block, is below one of its children.
    proof fn lemma_below_is_below_child(&self, me: usize, x: usize, i: usize)
        requires
            self.wf(),
            self.trees_hold_weights(me),
            self.whole_subtree(me).contains(x),
            self.whole_subtree(me).contains(i),
            i != x,
        ensures
            on_path(self.weight_tree.parents(), x, i) <==> self.under_children(
                x,
                self.node(x).children@.len(),
                i,
            ),
    {
        let parents = self.weight_tree.parents();
        let children = self.node(x).children@;
        self.weight_tree.lemma_ranked();
        if on_path(parents, x, i) {
            let k = choose|k: nat| #[trigger] ancestor(parents, i, k) == x;
            assert(k > 0) by {
                assert(ancestor(parents, i, 0) == i);
            }
            lemma_ancestor_prefix(parents, i, (k - 1) as nat, k);
            self.lemma_line_in_whole(me, i, (k - 1) as nat);
            let c = ancestor(parents, i, (k - 1) as nat);
            assert(parent_of(parents, c) == x);
            self.lemma_parent_is_kept(me, Set::empty(), c);
            let j = choose|j: int| 0 <= j < children.len() && children[j] == c;
            assert(on_path(parents, children[j], i));
        }
        if self.under_children(x, children.len(), i) {
            let j = choose|j: int|
                0 <= j < children.len() && on_path(parents, #[trigger] children[j], i);
            let c = children[j];
            self.lemma_above_in_whole(me, c, i);
            self.lemma_child_in_whole(me, x, j);
            self.lemma_kept(me, Set::empty());
            assert(self.has(x));
            assert(ancestor(parents, c, 0) == c);
            assert(ancestor(parents, c, 1) == x);
            assert(on_path(parents, x, c));
            lemma_on_path_trans(parents, x, c, i);
        }
    }

    /// The weight that is kept below the first `k` children is their whole weight less that of the
    /// barrier blocks below them.
    proof fn lemma_children_weights_agree(
        &self,
        me: usize,
        barrier: Set<usize>,
        x: usize,
        k: nat,
    )
        requires
            self.wf(),
            self.trees_hold_weights(me),
            self.barrier_apart(me, barrier),
            self.kept_subtree(me, barrier).contains(x),
            k <= self.node(x).children@.len(),
        ensures
            self.children_weight(self.kept_subtree(me, barrier), x, k) == self.children_weight(
                self.whole_subtree(me),
                x,
                k,
            ) - set_sum(barrier, self.below_children(x, k)),
        decreases u64::MAX - self.age(x), k, 0int,
    {
        let kept = self.kept_subtree(me, barrier);
        let whole = self.whole_subtree(me);
        let parents = self.weight_tree.parents();
        self.lemma_kept_in_whole(me, barrier);
        assert(whole.contains(x));
        if k == 0 {
            lemma_set_sum_single(barrier, self.below_children(x, 0), NULL);
            assert(!self.under_children(x, 0, NULL));
        } else {
            let c = self.node(x).children@[k - 1];
            assert(self.node(x).children@.contains(c));
            self.lemma_children_weights_agree(me, barrier, x, (k - 1) as nat);
            self.lemma_child_in_whole(me, x, k - 1);
            let f = self.below_children(x, k);
            let g = self.below_children(x, (k - 1) as nat);
            let h = self.below(c);
            assert forall|i: usize| #[trigger] barrier.contains(i) implies f(i) == g(i) + h(i) by {
                assert(whole.contains(i));
                if self.under_children(x, (k - 1) as nat, i) {
                    let j = choose|j: int|
                        0 <= j < k - 1 && j < self.node(x).children@.len() && on_path(
                            parents,
                            #[trigger] self.node(x).children@[j],
                            i,
                        );
                    assert(self.under_children(x, k, i));
                    if on_path(parents, c, i) {
                        self.lemma_one_child_above(me, x, j, k - 1, i);
                    }
                }
                if on_path(parents, c, i) {
                    assert(on_path(parents, self.node(x).children@[k - 1], i));
                    assert(self.under_children(x, k, i));
                }
            }
            lemma_set_sum_add(barrier, f, g, h);
            if !whole.contains(c) {
                assert forall|i: usize| #[trigger] barrier.contains(i) implies h(i) == 0 by {
                    if on_path(parents, c, i) {
                        self.lemma_above_in_whole(me, c, i);
                    }
                }
                lemma_set_sum_single(barrier, h, c);
                if barrier.contains(c) {
                    assert(h(c) == 0);
                }
            } else if barrier.contains(c) {
                self.lemma_kept(me, barrier);
                assert(!kept.contains(c));
                assert(ancestor(parents, c, 0) == c);
                self.weight_tree.lemma_ranked();
                self.weight_tree.lemma_parents(c);
                assert(on_path(parents, c, c));
                lemma_set_sum_single(barrier, h, c);
            } else {
                self.lemma_kept(me, Set::empty());
                assert(c != me);
                self.lemma_child_kept(me, barrier, x, c);
                self.lemma_subtree_weights_agree(me, barrier, c);
            }
        }
    }

    /// The weight that is kept below a block is its whole weight less that of the barrier blocks
    /// below it.
    proof fn lemma_subtree_weights_agree(&self, me: usize, barrier: Set<usize>, x: usize)
        requires
            self.wf(),
            self.trees_hold_weights(me),
            self.barrier_apart(me, barrier),
            self.kept_subtree(me, barrier).contains(x),
        ensures
            self.subtree_weight(self.kept_subtree(me, barrier), x) == self.subtree_weight(
                self.whole_subtree(me),
                x,
            ) - set_sum(barrier, self.below(x)),
        decreases u64::MAX - self.age(x), self.node(x).children@.len(), 1int,
    {
        let n = self.node(x).children@.len();
        self.lemma_children_weights_agree(me, barrier, x, n);
        self.lemma_kept(me, barrier);
        self.lemma_kept_in_whole(me, barrier);
        assert(self.whole_subtree(me).contains(x));
        let f = self.below(x);
        let g = self.below_children(x, n);
        let h = |i: usize| 0int;
        assert forall|i: usize| #[trigger] barrier.contains(i) implies f(i) == g(i) + h(i) by {
            assert(i != x);
            self.lemma_below_is_below_child(me, x, i);
        }
        lemma_set_sum_add(barrier, f, g, h);
        lemma_set_sum_single(barrier, h, NULL);
    }

    /// Taking barrier blocks out of the weight tree leaves, for each block that is not below one
    /// of them, the weight that adding up over the children that are kept gives.
    pub proof fn law_trees_agree_with_subtrees(&self, me: usize, barrier: Set<usize>, x: usize)
        requires
            self.wf(),
            self.trees_hold_weights(me),
            self.barrier_apart(me, barrier),
            self.kept_subtree(me, barrier).contains(x),
        ensures
            self.shifted_weight(barrier, x) == self.subtree_weight(
                self.kept_subtree(me, barrier),
                x,
            ),
    {
        self.lemma_subtree_weights_agree(me, barrier, x);
        self.lemma_kept_in_whole(me, barrier);
        assert(self.whole_subtree(me).contains(x));
        let f = self.below(x);
        let g = Self::weight_shift(self.weight_tree.parents(), self.tree_weights(), x);
        let h = |i: usize| 0int;
        assert forall|i: usize| #[trigger] barrier.contains(i) implies h(i) == f(i) + g(i) by {}
        lemma_set_sum_add(barrier, h, f, g);
        lemma_set_sum_single(barrier, h, NULL);
    }

    /// What is on the line to a block that is kept is kept, down from a height.
    proof fn lemma_line_kept(
        &self,
        me: usize,
        barrier: Set<usize>,
        p: usize,
        low: int,
        h: int,
    )
        requires
            self.wf(),
            self.trees_hold_weights(me),
            self.kept_subtree(me, barrier).contains(p),
            self.line_matches(p, low),
            low <= h <= self.node(p).height,
        ensures
            self.kept_subtree(me, barrier).contains(self.ancestor_at_height(p, h)),
            h > low ==> self.ancestor_at_height(p, h) != self.cur_era_genesis_block_arena_index,
        decreases self.node(p).height - h,
    {
        let a = self.ancestor_at_height(p, h);
        self.lemma_kept_in_whole(me, barrier);
        if h < self.node(p).height {
            self.lemma_line_kept(me, barrier, p, low, h + 1);
            let below = self.ancestor_at_height(p, h + 1);
            assert(self.node(below).parent == self.ancestor_at_height(p, h + 1 - 1));
            self.lemma_parent_is_kept(me, barrier, below);
        }
        assert(self.whole_subtree(me).contains(a));
        if h > low {
            assert(self.node(a).parent == self.ancestor_at_height(p, h - 1));
            assert(self.ancestor_at_height(p, h - 1) != NULL);
        }
    }

    /// Blocks of an anticone on a line follow each other down from the uppermost.
    proof fn lemma_anticone_line(&self, me: usize, anticone: Set<usize>, j: usize, m: nat, k: nat)
        requires
            self.wf(),
            self.trees_hold_weights(me),
            self.whole_subtree(me).contains(j),
            m <= k,
            ancestor(self.weight_tree.parents(), j, k) != NULL,
            anticone.contains(ancestor(self.weight_tree.parents(), j, k)),
            forall|c: usize| #[trigger]
                self.whole_subtree(me).contains(c) && anticone.contains(self.node(c).parent)
                    ==> anticone.contains(c),
        ensures
            anticone.contains(ancestor(self.weight_tree.parents(), j, m)),
        decreases k - m,
    {
        let parents = self.weight_tree.parents();
        if m < k {
            self.lemma_anticone_line(me, anticone, j, m + 1, k);
            self.weight_tree.lemma_ranked();
            lemma_ancestor_prefix(parents, j, m, k);
            self.lemma_line_in_whole(me, j, m);
            let c = ancestor(parents, j, m);
            assert(self.whole_subtree(me).contains(c));
            assert(parent_of(parents, c) == self.node(c).parent);
        }
    }

    /// No barrier block of an anticone is below another, if with a block of the anticone its
    /// children are in the anticone too.
    pub proof fn law_barrier_blocks_are_apart(&self, me: usize, anticone: Set<usize>)
        requires
            self.wf(),
            self.trees_hold_weights(me),
            anticone.finite(),
            !anticone.contains(self.cur_era_genesis_block_arena_index),
            forall|i: usize| #[trigger]
                anticone.contains(i) && !self.legacy(i) ==> self.whole_subtree(me).contains(i),
            forall|c: usize| #[trigger]
                self.whole_subtree(me).contains(c) && anticone.contains(self.node(c).parent)
                    ==> anticone.contains(c),
        ensures
            self.barrier_apart(me, self.barrier_of(anticone)),
    {
        let parents = self.weight_tree.parents();
        let barrier = self.barrier_of(anticone);
        assert(barrier.subset_of(anticone));
        vstd::set_lib::lemma_set_subset_finite(anticone, barrier);
        assert forall|i: usize, j: usize|
            barrier.contains(i) && barrier.contains(j) && #[trigger] on_path(
                parents,
                i,
                j,
            ) implies i == j by {
            let k = choose|k: nat| #[trigger] ancestor(parents, j, k) == i;
            assert(anticone.contains(j));
            assert(self.whole_subtree(me).contains(j));
            assert(ancestor(parents, j, 0) == j);
            if k > 0 {
                self.lemma_anticone_line(me, anticone, j, 1, k);
                assert(ancestor(parents, j, 1) == self.node(j).parent);
            }
        }
    }

    /// Whether a new block has to be adaptive is answered alike in both ways: by walking with the
    /// subtree weights that were added up without the barrier blocks, and by the trees with the
    /// barrier blocks taken out. The trees hold what the graph without the new block holds, its
    /// parent is not below a barrier block, and ticks do not fall along the line to it.
    pub proof fn law_adaptive_ways_agree(
        &self,
        me: usize,
        p: usize,
        barrier: Set<usize>,
        weights: &Vec<i128>,
        tuple: Option<&TimerChainTuple>,
        difficulty: int,
    )
        requires
            self.wf(),
            self.trees_hold_weights(me),
            self.barrier_apart(me, barrier),
            self.barrier_ready(barrier),
            forall|x: usize| #[trigger] self.has(x) ==> x < weights@.len(),
            forall|i: int|
                0 <= i < weights@.len() ==> #[trigger] weights@[i] == (if self.kept_subtree(
                    me,
                    barrier,
                ).contains(i as usize) {
                    self.subtree_weight(self.kept_subtree(me, barrier), i as usize)
                } else {
                    0
                }),
            self.kept_subtree(me, barrier).contains(p),
            self.cur_era_genesis_height <= self.node(self.force_confirm(tuple)).height,
            self.follows_force_confirm(p, tuple) ==> self.line_matches(
                p,
                self.node(self.force_confirm(tuple)).height as int,
            ) && self.ticks_grow(
                p,
                tuple,
                self.node(self.force_confirm(tuple)).height + 1,
                self.node(p).height as int,
            ),
        ensures
            self.must_be_adaptive(p, barrier, Some(weights), tuple, difficulty)
                == self.must_be_adaptive(p, barrier, None, tuple, difficulty),
    {
        let kept = self.kept_subtree(me, barrier);
        let parents = self.weight_tree.parents();
        let low = self.node(self.force_confirm(tuple)).height as int;
        self.lemma_kept(me, barrier);
        self.lemma_kept_in_whole(me, barrier);
        assert(self.whole_subtree(me).contains(p));
        if self.follows_force_confirm(p, tuple) {
            assert forall|h: int| low < h <= self.node(p).height implies self.shifted_lead(
                barrier,
                #[trigger] self.ancestor_at_height(p, h),
            ) == self.lead(weights@, self.ancestor_at_height(p, h)) by {
                let u = self.ancestor_at_height(p, h);
                self.lemma_line_kept(me, barrier, p, low, h);
                let q = self.node(u).parent;
                assert(self.whole_subtree(me).contains(u));
                self.lemma_parent_is_kept(me, barrier, u);
                assert(parent_of(parents, u) == q);
                assert(!barrier.contains(q));
                assert forall|i: usize| #[trigger] barrier.contains(i) implies parent_of(parents, i)
                    == self.node(i).parent by {
                    assert(self.whole_subtree(me).contains(i));
                }
                self.law_barrier_keeps_leads(barrier, u);
                self.law_trees_agree_with_subtrees(me, barrier, u);
                self.law_trees_agree_with_subtrees(me, barrier, q);
                assert(self.has(u) && self.has(q));
                assert(weights@[u as int] == self.subtree_weight(kept, u));
                assert(weights@[q as int] == self.subtree_weight(kept, q));
            }
            self.law_trees_agree_with_walk(
                p,
                barrier,
                weights@,
                tuple,
                self.inner_conf.adaptive_weight_beta * difficulty,
            );
        }
    }
}

} // verus!
