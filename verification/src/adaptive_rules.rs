//! What holds of the rule that tells whether a block has to be adaptive.
use vstd::prelude::*;

use crate::graph::ConsensusGraphInner;
use crate::timer::TimerChainTuple;
use crate::tree::on_chopped_path;

verus! {

impl ConsensusGraphInner {
    /// Whether another state of the graph differs at most in how its trees are laid out.
    pub open spec fn same_but_layout(&self, other: &ConsensusGraphInner) -> bool {
        &&& *other == (ConsensusGraphInner {
            weight_tree: other.weight_tree,
            adaptive_tree: other.adaptive_tree,
            ..*self
        })
        &&& other.weight_tree.view() == self.weight_tree.view()
        &&& other.adaptive_tree.view() == self.adaptive_tree.view()
    }

    /// A walk does not depend on the layout of the trees.
    proof fn lemma_walk_same(
        &self,
        other: &ConsensusGraphInner,
        x: usize,
        subtree_weight: Seq<i128>,
        tuple: Option<&TimerChainTuple>,
        height: u64,
        bound: int,
    )
        requires
            self.same_but_layout(other),
        ensures
            other.some_lead_below(x, subtree_weight, tuple, height, bound)
                == self.some_lead_below(x, subtree_weight, tuple, height, bound),
            other.leads_known(x, subtree_weight, tuple, height, bound) == self.leads_known(
                x,
                subtree_weight,
                tuple,
                height,
                bound,
            ),
        decreases self.age(x),
    {
        let parent = self.node(x).parent;
        if self.age(parent) < self.age(x) {
            self.lemma_walk_same(other, parent, subtree_weight, tuple, height, bound);
        }
    }

    /// A bisection does not depend on the layout of the trees.
    proof fn lemma_bisection_same(
        &self,
        other: &ConsensusGraphInner,
        p: usize,
        tuple: Option<&TimerChainTuple>,
        low: int,
        high: int,
        best: int,
    )
        requires
            self.same_but_layout(other),
        ensures
            other.last_ripe_height(p, tuple, low, high, best) == self.last_ripe_height(
                p,
                tuple,
                low,
                high,
                best,
            ),
            other.ripe_search_known(p, tuple, low, high) == self.ripe_search_known(
                p,
                tuple,
                low,
                high,
            ),
        decreases (if low > high { 0 } else { high - low + 1 }),
    {
        if low <= high {
            let mid = (low + high) / 2;
            self.lemma_bisection_same(other, p, tuple, mid + 1, high, mid);
            self.lemma_bisection_same(other, p, tuple, low, mid - 1, best);
        }
    }

    /// Whether a new block has to be adaptive can be asked again: the first answer leaves the
    /// graph as it was but for the layout of the trees, and the second is the same.
    pub proof fn law_adaptive_answer_repeats(
        &self,
        after: Self,
        parent: usize,
        barrier: Set<usize>,
        weight_tuple: Option<&Vec<i128>>,
        tuple: Option<&TimerChainTuple>,
        difficulty: int,
    )
        requires
            self.same_but_layout(&after),
        ensures
            after.adaptive_known(parent, barrier, weight_tuple, tuple, difficulty)
                == self.adaptive_known(parent, barrier, weight_tuple, tuple, difficulty),
            after.must_be_adaptive(parent, barrier, weight_tuple, tuple, difficulty)
                == self.must_be_adaptive(parent, barrier, weight_tuple, tuple, difficulty),
    {
        let bound = self.inner_conf.adaptive_weight_beta * difficulty;
        let low = self.node(self.force_confirm(tuple)).height;
        let high = self.node(parent).height as int;
        if let Some(w) = weight_tuple {
            self.lemma_walk_same(&after, parent, w@, tuple, low, bound);
        }
        self.lemma_bisection_same(&after, parent, tuple, low + 1, high, low as int);
        assert(after.tree_weights() =~= self.tree_weights());
        assert(after.tree_magnitudes(1) =~= self.tree_magnitudes(1));
        assert(after.tree_magnitudes(3) =~= self.tree_magnitudes(3));
        assert(after.barrier_fits(barrier) == self.barrier_fits(barrier)) by {
            if self.barrier_fits(barrier) {
                assert forall|u: usize| #[trigger]
                    after.weight_tree.has(u) implies self.weight_tree.has(u) by {}
            }
            if after.barrier_fits(barrier) {
                assert forall|u: usize| #[trigger]
                    self.weight_tree.has(u) implies after.weight_tree.has(u) by {}
            }
        }
        let parents = self.weight_tree.parents();
        assert(after.weight_tree.parents() == parents);
        assert forall|u: usize|
            #![trigger self.shifted_lead(barrier, u)]
            #![trigger after.shifted_lead(barrier, u)]
            after.shifted_lead(barrier, u) == self.shifted_lead(barrier, u) by {
            assert(after.lead_shift(parents, after.tree_weights(), u) =~= self.lead_shift(
                parents,
                self.tree_weights(),
                u,
            ));
        }
        let fc = self.force_confirm(tuple);
        assert(after.force_confirm(tuple) == fc);
        let best = self.last_ripe_height(parent, tuple, low + 1, high, low as int);
        let a = self.ancestor_at_height(parent, best);
        assert(after.ancestor_at_height(parent, best) == a);
        if self.tree_adaptive(parent, barrier, tuple, bound) {
            let u = choose|u: usize| #[trigger]
                on_chopped_path(parents, u, a, fc) && self.shifted_lead(barrier, u) < bound;
            assert(on_chopped_path(parents, u, a, fc) && after.shifted_lead(barrier, u) < bound);
        }
        if after.tree_adaptive(parent, barrier, tuple, bound) {
            let u = choose|u: usize| #[trigger]
                on_chopped_path(parents, u, a, fc) && after.shifted_lead(barrier, u) < bound;
            assert(on_chopped_path(parents, u, a, fc) && self.shifted_lead(barrier, u) < bound);
        }
    }

    /// A walk that finds a lead below a bound finds one below a greater bound.
    proof fn lemma_walk_grows(
        &self,
        x: usize,
        subtree_weight: Seq<i128>,
        tuple: Option<&TimerChainTuple>,
        height: u64,
        bound: int,
        greater: int,
    )
        requires
            bound <= greater,
            self.some_lead_below(x, subtree_weight, tuple, height, bound),
        ensures
            self.some_lead_below(x, subtree_weight, tuple, height, greater),
        decreases self.age(x),
    {
        if !(self.ripe(x, tuple) && self.lead(subtree_weight, x) < bound) {
            self.lemma_walk_grows(
                self.node(x).parent,
                subtree_weight,
                tuple,
                height,
                bound,
                greater,
            );
        }
    }

    /// A block that has to be adaptive has to be so at any greater difficulty too.
    pub proof fn law_adaptive_grows_with_difficulty(
        &self,
        parent: usize,
        barrier: Set<usize>,
        weight_tuple: Option<&Vec<i128>>,
        tuple: Option<&TimerChainTuple>,
        difficulty: int,
        greater: int,
    )
        requires
            difficulty <= greater,
            self.must_be_adaptive(parent, barrier, weight_tuple, tuple, difficulty),
        ensures
            self.must_be_adaptive(parent, barrier, weight_tuple, tuple, greater),
    {
        let beta = self.inner_conf.adaptive_weight_beta as int;
        let low = self.node(self.force_confirm(tuple)).height;
        assert(beta * difficulty <= beta * greater) by (nonlinear_arith)
            requires
                0 <= beta,
                difficulty <= greater,
        ;
        match weight_tuple {
            Some(w) => {
                self.lemma_walk_grows(
                    parent,
                    w@,
                    tuple,
                    low,
                    beta * difficulty,
                    beta * greater,
                );
            },
            None => {
                let best = self.last_ripe_height(
                    parent,
                    tuple,
                    low + 1,
                    self.node(parent).height as int,
                    low as int,
                );
                let parents = self.weight_tree.parents();
                let a = self.ancestor_at_height(parent, best);
                let fc = self.force_confirm(tuple);
                let u = choose|u: usize| #[trigger]
                    on_chopped_path(parents, u, a, fc) && self.shifted_lead(barrier, u) < beta
                        * difficulty;
                assert(on_chopped_path(parents, u, a, fc) && self.shifted_lead(barrier, u) < beta
                    * greater);
            },
        }
    }

    /// Whether a block that is about to be mined has to be adaptive does not depend on the order
    /// of its referees, nor on how often each of them is named.
    pub proof fn law_referee_order_does_not_matter(
        &self,
        parent: usize,
        referees: Seq<usize>,
        others: Seq<usize>,
        cached: Set<usize>,
        difficulty: int,
    )
        requires
            forall|v: usize| #[trigger] referees.contains(v) <==> others.contains(v),
        ensures
            self.barrier_of(self.mining_anticone(parent, referees, cached)) == self.barrier_of(
                self.mining_anticone(parent, others, cached),
            ),
            self.must_be_adaptive(
                parent,
                self.barrier_of(self.mining_anticone(parent, referees, cached)),
                None,
                None,
                difficulty,
            ) == self.must_be_adaptive(
                parent,
                self.barrier_of(self.mining_anticone(parent, others, cached)),
                None,
                None,
                difficulty,
            ),
    {
        assert(referees.to_set() =~= others.to_set());
    }
}

} // verus!
