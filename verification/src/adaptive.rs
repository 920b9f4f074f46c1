//! Whether a block has to be adaptive.
use vstd::prelude::*;

use crate::graph::{arena_wf, lemma_arena_ranked, ConsensusGraphInner};
use crate::index_set::IndexSet;
use crate::lineage::{
    ancestor, depth, lemma_ancestor_add, lemma_ancestor_ranked, lemma_depth_of_ancestor, on_path,
};
use crate::node::{arena_get, ConsensusGraphNode};
use crate::reach::{is_pred, reach_set};
use crate::sums::{
    lemma_list_sum_bound, lemma_list_sum_grows, lemma_list_sum_next, lemma_list_sum_opposite,
    lemma_set_sum_list, list_sum, set_sum,
};
use crate::timer::TimerChainTuple;
use crate::tree::{hangs_on_path, on_chopped_path};
use crate::types::NULL;

verus! {

/// Whether a number can be held by an `i128`.
pub open spec fn fits_i128(x: int) -> bool {
    i128::MIN <= x <= i128::MAX
}

/// The absolute value of a number.
pub open spec fn magnitude(x: int) -> int {
    if x < 0 {
        -x
    } else {
        x
    }
}

/// The opposites of numbers.
pub open spec fn opposite(f: spec_fn(usize) -> int) -> spec_fn(usize) -> int {
    |i: usize| -f(i)
}

impl ConsensusGraphInner {
    /// How many ticks have passed since a block.
    pub open spec fn tick_gap(&self, x: usize, tuple: Option<&TimerChainTuple>) -> int {
        self.best_timer_tick(tuple) - self.timer_tick(x, tuple)
    }

    /// Whether enough ticks have passed since a block for it to matter.
    pub open spec fn ripe(&self, x: usize, tuple: Option<&TimerChainTuple>) -> bool {
        self.tick_gap(x, tuple) >= self.inner_conf.timer_chain_beta
    }

    /// Twice the subtree weight of a block less that of its parent plus the weight of the parent.
    pub open spec fn lead(&self, subtree_weight: Seq<i128>, x: usize) -> int {
        2 * subtree_weight[x as int] - subtree_weight[self.node(x).parent as int] + self.weight(
            self.node(x).parent,
        )
    }

    /// Whether one of the blocks from `x` up to above a height is ripe and has too small a lead.
    pub open spec fn some_lead_below(
        &self,
        x: usize,
        subtree_weight: Seq<i128>,
        tuple: Option<&TimerChainTuple>,
        height: u64,
        bound: int,
    ) -> bool
        decreases self.age(x),
    {
        if self.node(x).height == height || self.node(x).parent == NULL || self.age(
            self.node(x).parent,
        ) >= self.age(x) {
            false
        } else {
            (self.ripe(x, tuple) && self.lead(subtree_weight, x) < bound) || self.some_lead_below(
                self.node(x).parent,
                subtree_weight,
                tuple,
                height,
                bound,
            )
        }
    }

    /// Whether the leads of the blocks from `x` up to above a height can be looked at, as far as
    /// is needed.
    pub open spec fn leads_known(
        &self,
        x: usize,
        subtree_weight: Seq<i128>,
        tuple: Option<&TimerChainTuple>,
        height: u64,
        bound: int,
    ) -> bool
        decreases self.age(x),
    {
        let parent = self.node(x).parent;
        self.node(x).height == height || ({
            &&& parent != NULL
            &&& self.age(parent) < self.age(x)
            &&& self.timer_tick_known(x, tuple)
            &&& self.tick_gap(x, tuple) >= 0
            &&& self.ripe(x, tuple) ==> {
                &&& x < subtree_weight.len()
                &&& parent < subtree_weight.len()
                &&& self.weight_fits(parent)
                &&& fits_i128(2 * subtree_weight[x as int])
                &&& fits_i128(2 * subtree_weight[x as int] - subtree_weight[parent as int])
                &&& fits_i128(self.lead(subtree_weight, x))
            }
            &&& (self.ripe(x, tuple) && self.lead(subtree_weight, x) < bound)
                || self.leads_known(parent, subtree_weight, tuple, height, bound)
        })
    }

    /// Walks from the parent of a new block to the force confirmed block and tells whether a
    /// block on the way that is old enough has too small a lead over its siblings.
    pub fn adaptive_weight_impl_brutal(
        &self,
        parent_0: usize,
        subtree_weight: &Vec<i128>,
        timer_chain_tuple: Option<&TimerChainTuple>,
        force_confirm: usize,
        difficulty: i128,
    ) -> (r: bool)
        requires
            self.wf(),
            self.has(parent_0),
            self.has(force_confirm),
            self.best_timer_tick(timer_chain_tuple) <= u64::MAX,
            fits_i128(self.inner_conf.adaptive_weight_beta * difficulty),
            self.leads_known(
                parent_0,
                subtree_weight@,
                timer_chain_tuple,
                self.node(force_confirm).height,
                self.inner_conf.adaptive_weight_beta * difficulty,
            ),
        ensures
            r == self.some_lead_below(
                parent_0,
                subtree_weight@,
                timer_chain_tuple,
                self.node(force_confirm).height,
                self.inner_conf.adaptive_weight_beta * difficulty,
            ),
    {
        let force_confirm_height: u64 = arena_get(&self.arena, force_confirm).height;
        let timer_me: u64 = self.get_best_timer_tick(timer_chain_tuple);
        let adjusted_beta: i128 = self.inner_conf.adaptive_weight_beta as i128 * difficulty;
        let mut parent: usize = parent_0;
        while arena_get(&self.arena, parent).height != force_confirm_height
            invariant
                self.wf(),
                self.has(parent),
                timer_me == self.best_timer_tick(timer_chain_tuple),
                adjusted_beta == self.inner_conf.adaptive_weight_beta * difficulty,
                force_confirm_height == self.node(force_confirm).height,
                self.leads_known(
                    parent,
                    subtree_weight@,
                    timer_chain_tuple,
                    force_confirm_height,
                    adjusted_beta as int,
                ),
                self.some_lead_below(
                    parent_0,
                    subtree_weight@,
                    timer_chain_tuple,
                    force_confirm_height,
                    adjusted_beta as int,
                ) == self.some_lead_below(
                    parent,
                    subtree_weight@,
                    timer_chain_tuple,
                    force_confirm_height,
                    adjusted_beta as int,
                ),
            decreases self.age(parent),
        {
            let grandparent: usize = arena_get(&self.arena, parent).parent;
            let timer_parent: u64 = self.get_timer_tick(parent, timer_chain_tuple);
            assert(self.nodes().contains_key(parent));
            if timer_me - timer_parent >= self.inner_conf.timer_chain_beta {
                let w: i128 = 2 * subtree_weight[parent] - subtree_weight[grandparent]
                    + self.block_weight(grandparent);
                if w < adjusted_beta {
                    return true;
                }
            }
            parent = grandparent;
        }
        false
    }

    /// What a barrier block takes from the subtree weight of `u`.
    pub open spec fn weight_shift(
        parents: Map<usize, usize>,
        delta: spec_fn(usize) -> int,
        u: usize,
    ) -> spec_fn(usize) -> int {
        |i: usize|
            if on_path(parents, u, i) {
                -delta(i)
            } else {
                0
            }
    }

    /// What a barrier block that hangs below `above` adds to the weight of `u` in the adaptive
    /// tree: its weight for all that hang on the line to `above`, less twice that for those on
    /// its own line.
    pub open spec fn lead_shift(
        &self,
        parents: Map<usize, usize>,
        delta: spec_fn(usize) -> int,
        u: usize,
    ) -> spec_fn(usize) -> int {
        |i: usize|
            (if hangs_on_path(parents, u, self.node(i).parent) {
                delta(i)
            } else {
                0
            }) - (if on_path(parents, u, i) {
                2 * delta(i)
            } else {
                0
            })
    }

    /// Whether the trees can be shifted step by step.
    pub open spec fn shift_fits(
        &self,
        items: Seq<usize>,
        delta: spec_fn(usize) -> int,
        u: usize,
        k: int,
    ) -> bool {
        let parents = self.weight_tree.parents();
        let d = delta(items[k]);
        let w = self.weight_tree.value(u) + list_sum(
            items.take(k),
            Self::weight_shift(parents, delta, u),
        );
        let a = self.adaptive_tree.value(u) + list_sum(
            items.take(k),
            self.lead_shift(parents, delta, u),
        );
        &&& on_path(parents, u, items[k]) ==> fits_i128(w - d)
        &&& hangs_on_path(parents, u, self.node(items[k]).parent) ==> fits_i128(a + d)
        &&& fits_i128(
            a + (self.lead_shift(parents, delta, u))(items[k]),
        )
    }

    /// Takes the subtrees of barrier blocks out of both trees; with opposite weights, puts them
    /// back.
    fn shift_trees(
        &mut self,
        items: &Vec<usize>,
        deltas: &Vec<i128>,
        Ghost(delta): Ghost<spec_fn(usize) -> int>,
    )
        requires
            old(self).wf(),
            items@.len() == deltas@.len(),
            forall|k: int|
                0 <= k < items@.len() ==> {
                    &&& old(self).weight_tree.has(#[trigger] items@[k])
                    &&& old(self).has(items@[k])
                    &&& old(self).weight_tree.has(old(self).node(items@[k]).parent)
                    &&& deltas@[k] == delta(items@[k])
                    &&& fits_i128(-delta(items@[k]))
                    &&& fits_i128(-2 * delta(items@[k]))
                },
            forall|u: usize, k: int|
                #![trigger old(self).shift_fits(items@, delta, u, k)]
                old(self).weight_tree.has(u) && 0 <= k < items@.len() ==> old(self).shift_fits(
                    items@,
                    delta,
                    u,
                    k,
                ),
        ensures
            final(self).wf(),
            final(self).weight_tree.parents() == old(self).weight_tree.parents(),
            final(self).adaptive_tree.parents() == old(self).adaptive_tree.parents(),
            *final(self) == (ConsensusGraphInner {
                weight_tree: final(self).weight_tree,
                adaptive_tree: final(self).adaptive_tree,
                ..*old(self)
            }),
            forall|u: usize| #[trigger]
                old(self).weight_tree.has(u) ==> final(self).weight_tree.value(u) == old(
                    self,
                ).weight_tree.value(u) + list_sum(
                    items@,
                    Self::weight_shift(old(self).weight_tree.parents(), delta, u),
                ) && final(self).adaptive_tree.value(u) == old(self).adaptive_tree.value(u)
                    + list_sum(
                    items@,
                    old(self).lead_shift(old(self).weight_tree.parents(), delta, u),
                ),
    {
        let ghost parents = self.weight_tree.parents();
        let mut k: usize = 0;
        assert(items@.take(0) =~= seq![]);
        while k < items.len()
            invariant
                k <= items.len(),
                items@.len() == deltas@.len(),
                old(self).wf(),
                self.wf(),
                parents == old(self).weight_tree.parents(),
                self.weight_tree.parents() == parents,
                self.adaptive_tree.parents() == parents,
                *self == (ConsensusGraphInner {
                    weight_tree: self.weight_tree,
                    adaptive_tree: self.adaptive_tree,
                    ..*old(self)
                }),
                forall|k: int|
                    0 <= k < items@.len() ==> {
                        &&& old(self).weight_tree.has(#[trigger] items@[k])
                        &&& old(self).has(items@[k])
                        &&& old(self).weight_tree.has(old(self).node(items@[k]).parent)
                        &&& deltas@[k] == delta(items@[k])
                        &&& fits_i128(-delta(items@[k]))
                        &&& fits_i128(-2 * delta(items@[k]))
                    },
                forall|u: usize, k: int|
                    #![trigger old(self).shift_fits(items@, delta, u, k)]
                    old(self).weight_tree.has(u) && 0 <= k < items@.len() ==> old(self).shift_fits(
                        items@,
                        delta,
                        u,
                        k,
                    ),
                forall|u: usize| #[trigger]
                    old(self).weight_tree.has(u) ==> self.weight_tree.value(u) == old(
                        self,
                    ).weight_tree.value(u) + list_sum(
                        items@.take(k as int),
                        Self::weight_shift(parents, delta, u),
                    ) && self.adaptive_tree.value(u) == old(self).adaptive_tree.value(u) + list_sum(
                        items@.take(k as int),
                        old(self).lead_shift(parents, delta, u),
                    ),
            decreases items.len() - k,
        {
            let ghost before = *self;
            let index: usize = items[k];
            let d: i128 = deltas[k];
            let parent: usize = arena_get(&self.arena, index).parent;
            proof {
                assert(old(self).weight_tree.has(items@[k as int]));
                old(self).lemma_trees_agree();
                old(self).lemma_wf_trees(self);
                assert forall|u: usize| #[trigger] on_path(parents, u, index) implies fits_i128(
                    before.weight_tree.value(u) - d,
                ) by {
                    before.lemma_on_path_has(u, index);
                    assert(old(self).shift_fits(items@, delta, u, k as int));
                }
                assert forall|u: usize| #[trigger]
                    before.adaptive_tree.has(u) && hangs_on_path(parents, u, parent) implies
                    fits_i128(before.adaptive_tree.value(u) + d) by {
                    assert(old(self).weight_tree.has(u));
                    assert(old(self).shift_fits(items@, delta, u, k as int));
                }
            }
            self.weight_tree.path_apply(index, -d);
            self.adaptive_tree.caterpillar_apply(parent, d);
            let ghost mid = self.adaptive_tree;
            proof {
                assert forall|u: usize| #[trigger] on_path(parents, u, index) implies fits_i128(
                    mid.value(u) - 2 * d,
                ) by {
                    before.lemma_on_path_has(u, index);
                    mid.lemma_parents(u);
                    before.adaptive_tree.lemma_parents(u);
                    assert(old(self).shift_fits(items@, delta, u, k as int));
                }
            }
            self.adaptive_tree.path_apply(index, -d * 2);
            proof {
                before.lemma_wf_trees(self);
                assert forall|u: usize| #[trigger]
                    old(self).weight_tree.has(u) implies self.weight_tree.value(u) == old(
                    self,
                ).weight_tree.value(u) + list_sum(
                    items@.take(k + 1),
                    Self::weight_shift(parents, delta, u),
                ) && self.adaptive_tree.value(u) == old(self).adaptive_tree.value(u) + list_sum(
                    items@.take(k + 1),
                    old(self).lead_shift(parents, delta, u),
                ) by {
                    lemma_list_sum_next(
                        items@,
                        Self::weight_shift(parents, delta, u),
                        k as int,
                    );
                    lemma_list_sum_next(
                        items@,
                        old(self).lead_shift(parents, delta, u),
                        k as int,
                    );
                    assert(before.weight_tree.has(u));
                    assert(before.adaptive_tree.has(u));
                    before.adaptive_tree.lemma_parents(u);
                    mid.lemma_parents(u);
                    assert(mid.has(u));
                    assert(self.weight_tree.has(u));
                    assert(self.adaptive_tree.has(u));
                }
            }
            k = k + 1;
        }
        assert(items@.take(k as int) =~= items@);
    }

    /// What is on the line to a node is a node.
    proof fn lemma_on_path_has(&self, u: usize, v: usize)
        requires
            self.wf(),
            self.weight_tree.has(v),
            on_path(self.weight_tree.parents(), u, v),
        ensures
            self.weight_tree.has(u),
            self.adaptive_tree.has(u),
    {
        let parents = self.weight_tree.parents();
        let k = choose|k: nat| #[trigger] ancestor(parents, v, k) == u;
        self.weight_tree.lemma_ranked();
        self.weight_tree.lemma_parents(v);
        self.weight_tree.lemma_parents(u);
        self.adaptive_tree.lemma_parents(u);
        lemma_ancestor_ranked(parents, self.weight_tree.ranks(), v, k);
    }

    /// The height that a bisection finds for the last ripe block on the line to `p`, between two
    /// heights; `best` if it finds none.
    pub open spec fn last_ripe_height(
        &self,
        p: usize,
        tuple: Option<&TimerChainTuple>,
        low: int,
        high: int,
        best: int,
    ) -> int
        decreases (if low > high { 0 } else { high - low + 1 }),
    {
        if low > high {
            best
        } else {
            let mid = (low + high) / 2;
            if self.ripe(self.ancestor_at_height(p, mid), tuple) {
                self.last_ripe_height(p, tuple, mid + 1, high, mid)
            } else {
                self.last_ripe_height(p, tuple, low, mid - 1, best)
            }
        }
    }

    /// Whether the blocks that the bisection looks at are there and have known ticks.
    pub open spec fn ripe_search_known(
        &self,
        p: usize,
        tuple: Option<&TimerChainTuple>,
        low: int,
        high: int,
    ) -> bool
        decreases (if low > high { 0 } else { high - low + 1 }),
    {
        low > high || {
            let mid = (low + high) / 2;
            let q = self.ancestor_at_height(p, mid);
            &&& q != NULL
            &&& self.timer_tick_known(q, tuple)
            &&& self.tick_gap(q, tuple) >= 0
            &&& if self.ripe(q, tuple) {
                self.ripe_search_known(p, tuple, mid + 1, high)
            } else {
                self.ripe_search_known(p, tuple, low, mid - 1)
            }
        }
    }

    fn find_last_ripe_height(
        &self,
        p: usize,
        timer_chain_tuple: Option<&TimerChainTuple>,
        force_confirm_height: u64,
        height: u64,
    ) -> (r: u64)
        requires
            self.wf(),
            self.weight_tree.has(p),
            self.best_timer_tick(timer_chain_tuple) <= u64::MAX,
            self.cur_era_genesis_height <= force_confirm_height <= height < u64::MAX,
            height - self.cur_era_genesis_height <= usize::MAX,
            self.ripe_search_known(
                p,
                timer_chain_tuple,
                force_confirm_height + 1,
                height as int,
            ),
        ensures
            r == self.last_ripe_height(
                p,
                timer_chain_tuple,
                force_confirm_height + 1,
                height as int,
                force_confirm_height as int,
            ),
            force_confirm_height <= r <= height,
            r != force_confirm_height ==> self.ancestor_at_height(p, r as int) != NULL,
    {
        let timer_me: u64 = self.get_best_timer_tick(timer_chain_tuple);
        let adjusted_beta: u64 = self.inner_conf.timer_chain_beta;
        let mut high: u64 = height;
        let mut low: u64 = force_confirm_height + 1;
        let mut best: u64 = force_confirm_height;
        while low <= high
            invariant
                self.wf(),
                self.weight_tree.has(p),
                timer_me == self.best_timer_tick(timer_chain_tuple),
                adjusted_beta == self.inner_conf.timer_chain_beta,
                self.cur_era_genesis_height <= force_confirm_height <= best < low,
                low <= high + 1,
                high <= height < u64::MAX,
                best <= height,
                best != force_confirm_height ==> self.ancestor_at_height(p, best as int) != NULL,
                force_confirm_height <= high,
                height - self.cur_era_genesis_height <= usize::MAX,
                self.ripe_search_known(p, timer_chain_tuple, low as int, high as int),
                self.last_ripe_height(
                    p,
                    timer_chain_tuple,
                    force_confirm_height + 1,
                    height as int,
                    force_confirm_height as int,
                ) == self.last_ripe_height(
                    p,
                    timer_chain_tuple,
                    low as int,
                    high as int,
                    best as int,
                ),
            decreases high + 1 - low,
        {
            let mid: u64 = low + (high - low) / 2;
            assert(mid == (low + high) / 2);
            let q: usize = self.ancestor_at(p, mid);
            let timer_mid: u64 = self.get_timer_tick(q, timer_chain_tuple);
            if timer_me - timer_mid >= adjusted_beta {
                best = mid;
                low = mid + 1;
            } else {
                high = mid - 1;
            }
        }
        best
    }

    /// The subtree weight that the weight tree holds for a block.
    pub open spec fn tree_weights(&self) -> spec_fn(usize) -> int {
        |i: usize| self.weight_tree.value(i)
    }

    /// The weight of a block in the adaptive tree once the subtrees of barrier blocks are out.
    pub open spec fn shifted_lead(&self, barrier: Set<usize>, u: usize) -> int {
        self.adaptive_tree.value(u) + set_sum(
            barrier,
            self.lead_shift(self.weight_tree.parents(), self.tree_weights(), u),
        )
    }

    /// Whether the barrier blocks are in the trees, below their parents.
    pub open spec fn barrier_ready(&self, barrier: Set<usize>) -> bool {
        forall|i: usize| #[trigger]
            barrier.contains(i) ==> {
                &&& self.has(i)
                &&& !self.legacy(i)
                &&& self.weight_tree.has(i)
                &&& self.node(i).parent != NULL
                &&& self.weight_tree.has(self.node(i).parent)
            }
    }

    /// A multiple of the magnitude of the weight of each barrier block.
    pub open spec fn tree_magnitudes(&self, factor: int) -> spec_fn(usize) -> int {
        |i: usize| factor * magnitude(self.weight_tree.value(i))
    }

    /// Whether the weights in the trees leave room for taking out the barrier blocks.
    pub open spec fn barrier_fits(&self, barrier: Set<usize>) -> bool {
        forall|u: usize| #[trigger]
            self.weight_tree.has(u) ==> magnitude(self.adaptive_tree.value(u)) + set_sum(
                barrier,
                self.tree_magnitudes(3),
            ) <= i128::MAX && magnitude(self.weight_tree.value(u)) + set_sum(
                barrier,
                self.tree_magnitudes(1),
            ) <= i128::MAX
    }

    /// Whether a new block with this parent has to be adaptive, as the trees tell it: some block
    /// between the last ripe one and the force confirmed one has too small a lead.
    pub open spec fn tree_adaptive(
        &self,
        parent: usize,
        barrier: Set<usize>,
        tuple: Option<&TimerChainTuple>,
        bound: int,
    ) -> bool {
        let fc = self.force_confirm(tuple);
        let fc_height = self.node(fc).height as int;
        let best = self.last_ripe_height(
            parent,
            tuple,
            fc_height + 1,
            self.node(parent).height as int,
            fc_height,
        );
        best != fc_height && exists|u: usize| #[trigger]
            on_chopped_path(
                self.weight_tree.parents(),
                u,
                self.ancestor_at_height(parent, best),
                fc,
            ) && self.shifted_lead(barrier, u) < bound
    }

    /// Whether the force confirmed block is at or above a block.
    pub open spec fn follows_force_confirm(
        &self,
        parent: usize,
        tuple: Option<&TimerChainTuple>,
    ) -> bool {
        let fc = self.force_confirm(tuple);
        &&& self.node(parent).height >= self.node(fc).height
        &&& self.ancestor_at_height(parent, self.node(fc).height as int) == fc
    }

    /// Taking out the barrier blocks one by one stays in range, and so does putting them back.
    proof fn lemma_shift_bounds(&self, items: Seq<usize>, u: usize, k: int)
        requires
            0 <= k < items.len(),
            magnitude(self.adaptive_tree.value(u)) + list_sum(items, self.tree_magnitudes(3))
                <= i128::MAX,
            magnitude(self.weight_tree.value(u)) + list_sum(items, self.tree_magnitudes(1))
                <= i128::MAX,
        ensures
            self.shift_fits(items, self.tree_weights(), u, k),
            ({
                let parents = self.weight_tree.parents();
                let d = self.weight_tree.value(items[k]);
                let w = self.weight_tree.value(u) + list_sum(
                    items,
                    Self::weight_shift(parents, self.tree_weights(), u),
                ) - list_sum(
                    items.take(k),
                    Self::weight_shift(parents, self.tree_weights(), u),
                );
                let lead = self.lead_shift(parents, self.tree_weights(), u);
                let a = self.adaptive_tree.value(u) + list_sum(items, lead) - list_sum(
                    items.take(k),
                    lead,
                );
                &&& on_path(parents, u, items[k]) ==> fits_i128(w + d)
                &&& hangs_on_path(parents, u, self.node(items[k]).parent) ==> fits_i128(a - d)
                &&& fits_i128(a - lead(items[k]))
            }),
            3 * magnitude(self.weight_tree.value(items[k])) <= i128::MAX,
    {
        let parents = self.weight_tree.parents();
        let f1 = Self::weight_shift(parents, self.tree_weights(), u);
        let f3 = self.lead_shift(parents, self.tree_weights(), u);
        let b1 = self.tree_magnitudes(1);
        let b3 = self.tree_magnitudes(3);
        assert(items.take(k).take(0) =~= seq![]);
        assert(items.take(0) =~= seq![]);
        lemma_list_sum_bound(items.take(k), f1, b1, 0);
        lemma_list_sum_bound(items.take(k), f3, b3, 0);
        lemma_list_sum_bound(items, f1, b1, k + 1);
        lemma_list_sum_bound(items, f3, b3, k + 1);
        lemma_list_sum_next(items, f1, k);
        lemma_list_sum_next(items, f3, k);
        lemma_list_sum_next(items, b1, k);
        lemma_list_sum_next(items, b3, k);
        lemma_list_sum_grows(items, b1, k + 1);
        lemma_list_sum_grows(items, b3, k + 1);
        lemma_list_sum_grows(items, b1, k);
        lemma_list_sum_grows(items, b3, k);
    }

    /// Whether, with the subtrees of barrier blocks out, some block from `v` up to below `top`
    /// has a lead below a bound. The trees are left as they were.
    fn some_shifted_lead_below(
        &mut self,
        anticone_barrier: &IndexSet,
        v: usize,
        top: usize,
        bound: i128,
    ) -> (r: bool)
        requires
            old(self).wf(),
            old(self).barrier_ready(anticone_barrier@),
            old(self).barrier_fits(anticone_barrier@),
            old(self).weight_tree.has(v),
            v != top,
            on_path(old(self).weight_tree.parents(), top, v),
        ensures
            final(self).wf(),
            final(self).weight_tree.view() == old(self).weight_tree.view(),
            final(self).adaptive_tree.view() == old(self).adaptive_tree.view(),
            *final(self) == (ConsensusGraphInner {
                weight_tree: final(self).weight_tree,
                adaptive_tree: final(self).adaptive_tree,
                ..*old(self)
            }),
            r <==> exists|u: usize| #[trigger]
                on_chopped_path(old(self).weight_tree.parents(), u, v, top) && old(
                    self,
                ).shifted_lead(anticone_barrier@, u) < bound,
    {
        let ghost start = *self;
        let ghost parents = self.weight_tree.parents();
        let ghost delta = self.tree_weights();
        let items: Vec<usize> = anticone_barrier.to_vec();
        let ghost barrier = anticone_barrier@;
        proof {
            self.lemma_trees_agree();
            assert(items@.to_set() =~= barrier);
            lemma_set_sum_list(items@, self.tree_magnitudes(3));
            lemma_set_sum_list(items@, self.tree_magnitudes(1));
            assert forall|k: int| 0 <= k < items@.len() implies barrier.contains(
                #[trigger] items@[k],
            ) by {
                assert(items@.to_set().contains(items@[k]));
            }
        }
        let mut deltas: Vec<i128> = Vec::new();
        let mut opposites: Vec<i128> = Vec::new();
        let mut i: usize = 0;
        while i < items.len()
            invariant
                i <= items.len(),
                deltas@.len() == i,
                opposites@.len() == i,
                *self == start,
                start.wf(),
                delta == start.tree_weights(),
                start.barrier_ready(barrier),
                start.barrier_fits(barrier),
                set_sum(barrier, start.tree_magnitudes(3)) == list_sum(
                    items@,
                    start.tree_magnitudes(3),
                ),
                set_sum(barrier, start.tree_magnitudes(1)) == list_sum(
                    items@,
                    start.tree_magnitudes(1),
                ),
                forall|k: int| 0 <= k < items@.len() ==> barrier.contains(#[trigger] items@[k]),
                forall|k: int| 0 <= k < i ==> #[trigger] deltas@[k] == delta(items@[k]),
                forall|k: int| 0 <= k < i ==> #[trigger] opposites@[k] == -delta(items@[k]),
            decreases items.len() - i,
        {
            assert(barrier.contains(items@[i as int]));
            assert(start.weight_tree.has(items@[i as int]));
            proof {
                start.lemma_shift_bounds(items@, items@[i as int], i as int);
            }
            let d: i128 = self.weight_tree.get(items[i]);
            deltas.push(d);
            opposites.push(-d);
            i = i + 1;
        }
        proof {
            assert forall|u: usize, k: int|
                #![trigger start.shift_fits(items@, delta, u, k)]
                start.weight_tree.has(u) && 0 <= k < items@.len() implies start.shift_fits(
                items@,
                delta,
                u,
                k,
            ) by {
                start.lemma_shift_bounds(items@, u, k);
            }
            assert forall|k: int| 0 <= k < items@.len() implies {
                &&& start.weight_tree.has(#[trigger] items@[k])
                &&& start.has(items@[k])
                &&& start.weight_tree.has(start.node(items@[k]).parent)
                &&& deltas@[k] == delta(items@[k])
                &&& fits_i128(-delta(items@[k]))
                &&& fits_i128(-2 * delta(items@[k]))
            } by {
                assert(barrier.contains(items@[k]));
                start.lemma_shift_bounds(items@, items@[k], k);
                assert(deltas@[k] == delta(items@[k]));
            }
        }
        self.shift_trees(&items, &deltas, Ghost(delta));
        let ghost shifted = *self;
        proof {
            start.lemma_wf_trees(self);
            self.adaptive_tree.lemma_parents(v);
        }
        let a: i128 = self.adaptive_tree.path_aggregate_chop(v, top);
        proof {
            assert forall|u: usize| #[trigger]
                on_chopped_path(parents, u, v, top) implies shifted.adaptive_tree.value(u)
                == start.shifted_lead(barrier, u) by {
                start.lemma_on_path_has(u, v);
                lemma_set_sum_list(items@, start.lead_shift(parents, delta, u));
            }
        }
        let ghost back = opposite(delta);
        proof {
            shifted.lemma_put_back(&start, items@);
            assert forall|k: int| 0 <= k < items@.len() implies {
                &&& shifted.weight_tree.has(#[trigger] items@[k])
                &&& shifted.has(items@[k])
                &&& shifted.weight_tree.has(shifted.node(items@[k]).parent)
                &&& opposites@[k] == back(items@[k])
                &&& fits_i128(-back(items@[k]))
                &&& fits_i128(-2 * back(items@[k]))
            } by {
                assert(start.weight_tree.has(items@[k]));
                start.lemma_shift_bounds(items@, items@[k], k);
                assert(opposites@[k] == -delta(items@[k]));
            }
        }
        self.shift_trees(&items, &opposites, Ghost(back));
        proof {
            shifted.lemma_wf_trees(self);
            assert forall|u: usize| #[trigger] start.weight_tree.has(u) implies
                self.weight_tree.value(u) == start.weight_tree.value(u)
                && self.adaptive_tree.value(u) == start.adaptive_tree.value(u) by {
                assert(shifted.weight_tree.has(u));
                lemma_list_sum_opposite(
                    items@,
                    Self::weight_shift(parents, back, u),
                    Self::weight_shift(parents, delta, u),
                );
                lemma_list_sum_opposite(
                    items@,
                    shifted.lead_shift(parents, back, u),
                    start.lead_shift(parents, delta, u),
                );
            }
            start.lemma_same_trees(self);
        }
        a < bound
    }

    /// Trees with the same links and weights are the same.
    proof fn lemma_same_trees(&self, other: &ConsensusGraphInner)
        requires
            self.wf(),
            other.wf(),
            other.weight_tree.parents() == self.weight_tree.parents(),
            other.adaptive_tree.parents() == self.adaptive_tree.parents(),
            forall|u: usize| #[trigger]
                self.weight_tree.has(u) ==> other.weight_tree.value(u) == self.weight_tree.value(u)
                    && other.adaptive_tree.value(u) == self.adaptive_tree.value(u),
        ensures
            other.weight_tree.view() == self.weight_tree.view(),
            other.adaptive_tree.view() == self.adaptive_tree.view(),
    {
        self.lemma_trees_agree();
        self.weight_tree.lemma_same(&other.weight_tree);
        assert forall|u: usize| #[trigger]
            self.adaptive_tree.has(u) implies other.adaptive_tree.value(u)
            == self.adaptive_tree.value(u) by {
            assert(self.weight_tree.has(u));
        }
        self.adaptive_tree.lemma_same(&other.adaptive_tree);
    }

    /// What was taken out can be put back step by step.
    proof fn lemma_put_back(&self, start: &ConsensusGraphInner, items: Seq<usize>)
        requires
            start.wf(),
            self.weight_tree.parents() == start.weight_tree.parents(),
            self.nodes() == start.nodes(),
            forall|u: usize| #[trigger]
                start.weight_tree.has(u) ==> self.weight_tree.value(u) == start.weight_tree.value(u)
                    + list_sum(
                    items,
                    Self::weight_shift(start.weight_tree.parents(), start.tree_weights(), u),
                ) && self.adaptive_tree.value(u) == start.adaptive_tree.value(u) + list_sum(
                    items,
                    start.lead_shift(start.weight_tree.parents(), start.tree_weights(), u),
                ),
            forall|u: usize| #[trigger]
                start.weight_tree.has(u) ==> magnitude(start.adaptive_tree.value(u)) + list_sum(
                    items,
                    start.tree_magnitudes(3),
                ) <= i128::MAX && magnitude(start.weight_tree.value(u)) + list_sum(
                    items,
                    start.tree_magnitudes(1),
                ) <= i128::MAX,
        ensures
            forall|u: usize, k: int|
                #![trigger self.shift_fits(items, opposite(start.tree_weights()), u, k)]
                self.weight_tree.has(u) && 0 <= k < items.len() ==> self.shift_fits(
                    items,
                    opposite(start.tree_weights()),
                    u,
                    k,
                ),
    {
        let parents = start.weight_tree.parents();
        let delta = start.tree_weights();
        let back = opposite(start.tree_weights());
        assert forall|u: usize, k: int|
            #![trigger self.shift_fits(items, opposite(start.tree_weights()), u, k)]
            self.weight_tree.has(u) && 0 <= k < items.len() implies self.shift_fits(
            items,
            opposite(start.tree_weights()),
            u,
            k,
        ) by {
            self.weight_tree.lemma_parents(u);
            start.weight_tree.lemma_parents(u);
            assert(start.weight_tree.has(u));
            start.lemma_shift_bounds(items, u, k);
            lemma_list_sum_opposite(
                items.take(k),
                Self::weight_shift(parents, back, u),
                Self::weight_shift(parents, delta, u),
            );
            lemma_list_sum_opposite(
                items.take(k),
                self.lead_shift(parents, back, u),
                start.lead_shift(parents, delta, u),
            );
        }
    }

    /// On one line the block at the smaller height is above the one at the greater height.
    pub proof fn lemma_ancestors_in_line(&self, p: usize, low: int, high: int)
        requires
            self.wf(),
            self.weight_tree.has(p),
            self.cur_era_genesis_height <= low < high,
            self.ancestor_at_height(p, low) != NULL,
            self.ancestor_at_height(p, high) != NULL,
        ensures
            on_path(
                self.weight_tree.parents(),
                self.ancestor_at_height(p, low),
                self.ancestor_at_height(p, high),
            ),
            self.ancestor_at_height(p, low) != self.ancestor_at_height(p, high),
            self.weight_tree.has(self.ancestor_at_height(p, high)),
            self.weight_tree.has(self.ancestor_at_height(p, low)),
    {
        let parents = self.weight_tree.parents();
        let ranks = self.weight_tree.ranks();
        let d = depth(parents, p);
        let a = (low - self.cur_era_genesis_height) as nat;
        let b = (high - self.cur_era_genesis_height) as nat;
        self.weight_tree.lemma_ranked();
        self.weight_tree.lemma_parents(p);
        lemma_depth_of_ancestor(parents, ranks, p, (d - a) as nat);
        lemma_depth_of_ancestor(parents, ranks, p, (d - b) as nat);
        lemma_ancestor_add(parents, p, (d - b) as nat, (b - a) as nat);
        assert(ancestor(parents, self.ancestor_at_height(p, high), (b - a) as nat)
            == self.ancestor_at_height(p, low));
        lemma_ancestor_ranked(parents, ranks, p, (d - a) as nat);
        lemma_ancestor_ranked(parents, ranks, p, (d - b) as nat);
        self.weight_tree.lemma_parents(self.ancestor_at_height(p, high));
        self.weight_tree.lemma_parents(self.ancestor_at_height(p, low));
    }

    /// Whether a new block with this parent has to be adaptive: the parent follows the force
    /// confirmed block, and between the two there is a block that is old enough and has too
    /// small a lead. Leads come from given subtree weights, or else from the trees with the
    /// barrier blocks taken out.
    pub open spec fn must_be_adaptive(
        &self,
        parent: usize,
        barrier: Set<usize>,
        weight_tuple: Option<&Vec<i128>>,
        tuple: Option<&TimerChainTuple>,
        difficulty: int,
    ) -> bool {
        let bound = self.inner_conf.adaptive_weight_beta * difficulty;
        self.follows_force_confirm(parent, tuple) && match weight_tuple {
            Some(w) => self.some_lead_below(
                parent,
                w@,
                tuple,
                self.node(self.force_confirm(tuple)).height,
                bound,
            ),
            None => self.tree_adaptive(parent, barrier, tuple, bound),
        }
    }

    /// Whether it can be told if a new block with this parent has to be adaptive.
    pub open spec fn adaptive_known(
        &self,
        parent: usize,
        barrier: Set<usize>,
        weight_tuple: Option<&Vec<i128>>,
        tuple: Option<&TimerChainTuple>,
        difficulty: int,
    ) -> bool {
        let bound = self.inner_conf.adaptive_weight_beta * difficulty;
        let fc_height = self.node(self.force_confirm(tuple)).height;
        &&& self.force_confirm_known(tuple)
        &&& self.weight_tree.has(parent)
        &&& self.cur_era_genesis_height <= fc_height
        &&& self.node(parent).height >= fc_height ==> fc_height - self.cur_era_genesis_height
            <= usize::MAX
        &&& self.follows_force_confirm(parent, tuple) ==> {
            &&& self.best_timer_tick(tuple) <= u64::MAX
            &&& fits_i128(bound)
            &&& match weight_tuple {
                Some(w) => self.leads_known(parent, w@, tuple, fc_height, bound),
                None => {
                    &&& self.node(parent).height < u64::MAX
                    &&& self.node(parent).height - self.cur_era_genesis_height <= usize::MAX
                    &&& self.ripe_search_known(
                        parent,
                        tuple,
                        fc_height + 1,
                        self.node(parent).height as int,
                    )
                    &&& self.barrier_ready(barrier)
                    &&& self.barrier_fits(barrier)
                },
            }
        }
    }

    /// Tells whether a new block with this parent has to be adaptive.
    pub fn adaptive_weight_impl(
        &mut self,
        parent_0: usize,
        anticone_barrier: &IndexSet,
        weight_tuple: Option<&Vec<i128>>,
        timer_chain_tuple: Option<&TimerChainTuple>,
        difficulty: i128,
    ) -> (r: bool)
        requires
            old(self).wf(),
            old(self).has(parent_0),
            old(self).adaptive_known(
                parent_0,
                anticone_barrier@,
                weight_tuple,
                timer_chain_tuple,
                difficulty as int,
            ),
        ensures
            r == old(self).must_be_adaptive(
                parent_0,
                anticone_barrier@,
                weight_tuple,
                timer_chain_tuple,
                difficulty as int,
            ),
            final(self).wf(),
            final(self).weight_tree.view() == old(self).weight_tree.view(),
            final(self).adaptive_tree.view() == old(self).adaptive_tree.view(),
            *final(self) == (ConsensusGraphInner {
                weight_tree: final(self).weight_tree,
                adaptive_tree: final(self).adaptive_tree,
                ..*old(self)
            }),
    {
        let force_confirm: usize = self.compute_force_confirm(timer_chain_tuple);
        let force_confirm_height: u64 = arena_get(&self.arena, force_confirm).height;
        let parent_height: u64 = arena_get(&self.arena, parent_0).height;
        if parent_height < force_confirm_height || self.ancestor_at(parent_0, force_confirm_height)
            != force_confirm {
            return false;
        }
        assert(self.follows_force_confirm(parent_0, timer_chain_tuple));
        match weight_tuple {
            Some(subtree_weight) => {
                self.adaptive_weight_impl_brutal(
                    parent_0,
                    subtree_weight,
                    timer_chain_tuple,
                    force_confirm,
                    difficulty,
                )
            },
            None => {
                let best: u64 = self.find_last_ripe_height(
                    parent_0,
                    timer_chain_tuple,
                    force_confirm_height,
                    parent_height,
                );
                if best != force_confirm_height {
                    let b: i128 = self.inner_conf.adaptive_weight_beta as i128 * difficulty;
                    let parent: usize = self.ancestor_at(parent_0, best);
                    proof {
                        lemma_nodes_not_null(self.nodes());
                        self.lemma_ancestors_in_line(
                            parent_0,
                            force_confirm_height as int,
                            best as int,
                        );
                    }
                    self.some_shifted_lead_below(anticone_barrier, parent, force_confirm, b)
                } else {
                    false
                }
            },
        }
    }

    /// Tells whether a block has to be adaptive.
    pub fn adaptive_weight(
        &mut self,
        me: usize,
        anticone_barrier: &IndexSet,
        weight_tuple: Option<&Vec<i128>>,
        timer_chain_tuple: &TimerChainTuple,
    ) -> (r: bool)
        requires
            old(self).wf(),
            old(self).has(me),
            old(self).node(me).parent != NULL,
            old(self).node(me).difficulty.low <= i128::MAX,
            old(self).adaptive_known(
                old(self).node(me).parent,
                anticone_barrier@,
                weight_tuple,
                Some(timer_chain_tuple),
                old(self).node(me).difficulty.low as int,
            ),
        ensures
            r == old(self).must_be_adaptive(
                old(self).node(me).parent,
                anticone_barrier@,
                weight_tuple,
                Some(timer_chain_tuple),
                old(self).node(me).difficulty.low as int,
            ),
            final(self).wf(),
            final(self).weight_tree.view() == old(self).weight_tree.view(),
            final(self).adaptive_tree.view() == old(self).adaptive_tree.view(),
            *final(self) == (ConsensusGraphInner {
                weight_tree: final(self).weight_tree,
                adaptive_tree: final(self).adaptive_tree,
                ..*old(self)
            }),
    {
        let node: &ConsensusGraphNode = arena_get(&self.arena, me);
        let parent: usize = node.parent;
        let difficulty: i128 = node.difficulty.low_u128() as i128;
        assert(self.nodes().contains_key(me));
        self.adaptive_weight_impl(
            parent,
            anticone_barrier,
            weight_tuple,
            Some(timer_chain_tuple),
            difficulty,
        )
    }

    /// The anticone of a new block as far as its parent tells it: what is not in the past of the
    /// parent.
    pub open spec fn around_parent(&self, parent: usize, parent_anticone: Set<usize>) -> Set<
        usize,
    > {
        self.activated_future(parent).union(parent_anticone)
    }

    /// The steps to parents and referees in a set.
    pub open spec fn past_steps_inside(&self, inside: Set<usize>) -> spec_fn(
        usize,
        usize,
    ) -> bool {
        |u: usize, v: usize| is_pred(self.nodes(), u, v) && inside.contains(v)
    }

    /// The anticone of a new block: what is not in the past of its parent, without what its
    /// referees lead to.
    pub open spec fn mining_anticone(
        &self,
        parent: usize,
        referees: Seq<usize>,
        parent_anticone: Set<usize>,
    ) -> Set<usize> {
        let around = self.around_parent(parent, parent_anticone);
        around.difference(reach_set(self.past_steps_inside(around), referees.to_set()))
    }

    /// The blocks of the era in a set whose parents are not in it.
    pub open spec fn barrier_of(&self, anticone: Set<usize>) -> Set<usize> {
        Set::new(
            |i: usize|
                anticone.contains(i) && !self.legacy(i) && !anticone.contains(self.node(i).parent),
        )
    }

    /// The anticone of a block, from the cache or else as given.
    pub open spec fn cached_anticone(&self, me: usize, otherwise: Set<usize>) -> Set<usize> {
        if self.anticone_cache@.contains_key(me) {
            self.anticone_cache@[me].to_set()
        } else {
            otherwise
        }
    }
}

/// No node has the index `NULL`.
proof fn lemma_nodes_not_null(nodes: Map<usize, ConsensusGraphNode>)
    requires
        arena_wf(nodes),
    ensures
        !nodes.contains_key(NULL),
{
    lemma_arena_ranked(nodes);
}

} // verus!
