//! Whether a block that is about to be mined has to be adaptive, and what being adaptive means.
use vstd::prelude::*;

use crate::graph::{all_nodes, ConsensusGraphInner};
use crate::index_set::IndexSet;
use crate::lineage::{
    ancestor, depth, lemma_ancestor_add, lemma_ancestor_ranked, lemma_depth_of_ancestor, on_path,
};
use crate::node::{arena_get, ConsensusGraphNode};
use crate::reach::{steps, Direction, Filter};
use crate::timer::TimerChainTuple;
use crate::tree::on_chopped_path;
use crate::types::{NULL, U256};

verus! {

impl ConsensusGraphInner {
    fn compute_mining_barrier(
        &self,
        parent_arena_index: usize,
        referee_indices: &Vec<usize>,
        anticone_bruteforce: &IndexSet,
    ) -> (r: IndexSet)
        requires
            self.wf(),
            self.has(parent_arena_index),
            all_nodes(self.nodes(), referee_indices@),
            self.cached_anticone(parent_arena_index, anticone_bruteforce@).subset_of(
                self.nodes().dom(),
            ),
        ensures
            r@ == self.barrier_of(
                self.mining_anticone(
                    parent_arena_index,
                    referee_indices@,
                    self.cached_anticone(parent_arena_index, anticone_bruteforce@),
                ),
            ),
    {
        let ghost cached = self.cached_anticone(parent_arena_index, anticone_bruteforce@);
        let ghost around = self.around_parent(parent_arena_index, cached);
        let mut anticone: IndexSet = self.compute_future_bitset(parent_arena_index);
        match self.anticone_cache.get(parent_arena_index) {
            Some(list) => {
                let ghost future = anticone@;
                let mut i: usize = 0;
                while i < list.len()
                    invariant
                        i <= list.len(),
                        self.wf(),
                        list@.to_set().subset_of(self.nodes().dom()),
                        forall|v: usize| #[trigger]
                            anticone@.contains(v) <==> future.contains(v) || list@.take(
                                i as int,
                            ).contains(v),
                    decreases list.len() - i,
                {
                    assert(list@.to_set().contains(list@[i as int]));
                    assert(self.nodes().contains_key(list@[i as int]));
                    anticone.add(list[i]);
                    proof {
                        assert(list@.take(i + 1) =~= list@.take(i as int).push(list@[i as int]));
                        crate::reach::lemma_push_contains(list@.take(i as int), list@[i as int]);
                    }
                    i = i + 1;
                }
                assert(list@.take(i as int) =~= list@);
                assert(anticone@ =~= around);
            },
            None => {
                anticone.union_with(anticone_bruteforce);
                assert(anticone@ =~= around);
            },
        }
        let (my_past, met) = self.traverse(
            Direction::Past,
            Filter::Inside(&anticone),
            referee_indices,
        );
        assert(steps(self.nodes(), Direction::Past, Filter::Inside(&anticone))
            =~= self.past_steps_inside(around));
        let mut i: usize = 0;
        while i < met.len()
            invariant
                i <= met.len(),
                forall|v: usize| #[trigger]
                    anticone@.contains(v) <==> around.contains(v) && !met@.take(i as int).contains(
                        v,
                    ),
            decreases met.len() - i,
        {
            anticone.remove(met[i]);
            proof {
                assert(met@.take(i + 1) =~= met@.take(i as int).push(met@[i as int]));
                crate::reach::lemma_push_contains(met@.take(i as int), met@[i as int]);
            }
            i = i + 1;
        }
        proof {
            assert(met@.take(i as int) =~= met@);
            assert(anticone@ =~= self.mining_anticone(
                parent_arena_index,
                referee_indices@,
                cached,
            )) by {
                assert forall|v: usize| #[trigger] anticone@.contains(v)
                    <==> self.mining_anticone(
                    parent_arena_index,
                    referee_indices@,
                    cached,
                ).contains(v) by {
                    assert(met@.contains(v) <==> met@.to_set().contains(v));
                }
            }
            self.lemma_future_nodes(parent_arena_index);
        }
        self.compute_barrier(&anticone)
    }

    /// The future of a node is made of nodes.
    pub proof fn lemma_future_nodes(&self, me: usize)
        requires
            self.wf(),
            self.has(me),
        ensures
            self.activated_future(me).subset_of(self.nodes().dom()),
    {
        crate::reach::lemma_reach_nodes(
            self.nodes(),
            Direction::Future,
            Filter::Activated,
            set![me],
        );
    }

    fn compute_barrier(&self, anticone: &IndexSet) -> (r: IndexSet)
        requires
            self.wf(),
            anticone@.subset_of(self.nodes().dom()),
        ensures
            r@ == self.barrier_of(anticone@),
    {
        let items: Vec<usize> = anticone.to_vec();
        let mut anticone_barrier: IndexSet = IndexSet::new();
        let mut i: usize = 0;
        while i < items.len()
            invariant
                i <= items.len(),
                self.wf(),
                anticone@.subset_of(self.nodes().dom()),
                items@.to_set() == anticone@,
                forall|v: usize| #[trigger]
                    anticone_barrier@.contains(v) <==> items@.take(i as int).contains(v)
                        && self.barrier_of(anticone@).contains(v),
            decreases items.len() - i,
        {
            let index: usize = items[i];
            assert(items@.to_set().contains(items@[i as int]));
            assert(self.nodes().contains_key(index));
            let node: &ConsensusGraphNode = arena_get(&self.arena, index);
            if node.era_block != NULL && !anticone.contains(node.parent) {
                anticone_barrier.add(index);
            }
            proof {
                assert(items@.take(i + 1) =~= items@.take(i as int).push(items@[i as int]));
                crate::reach::lemma_push_contains(items@.take(i as int), items@[i as int]);
            }
            i = i + 1;
        }
        proof {
            assert(items@.take(i as int) =~= items@);
            assert(anticone_barrier@ =~= self.barrier_of(anticone@)) by {
                assert forall|v: usize| anticone@.contains(v) implies items@.contains(v) by {
                    assert(items@.to_set().contains(v));
                }
            }
        }
        anticone_barrier
    }

    /// Tells whether a block that is about to be mined on a parent, with referees and a
    /// difficulty, has to be adaptive. The anticone of the parent is taken from the cache; if it
    /// is not there, `anticone_bruteforce` is taken for it.
    pub fn check_mining_adaptive_block(
        &mut self,
        parent_arena_index: usize,
        referee_indices: Vec<usize>,
        difficulty: U256,
        anticone_bruteforce: &IndexSet,
    ) -> (r: bool)
        requires
            old(self).wf(),
            old(self).has(parent_arena_index),
            all_nodes(old(self).nodes(), referee_indices@),
            old(self).cached_anticone(parent_arena_index, anticone_bruteforce@).subset_of(
                old(self).nodes().dom(),
            ),
            difficulty.low <= i128::MAX,
            old(self).adaptive_known(
                parent_arena_index,
                old(self).barrier_of(
                    old(self).mining_anticone(
                        parent_arena_index,
                        referee_indices@,
                        old(self).cached_anticone(parent_arena_index, anticone_bruteforce@),
                    ),
                ),
                None,
                None,
                difficulty.low as int,
            ),
        ensures
            r == old(self).must_be_adaptive(
                parent_arena_index,
                old(self).barrier_of(
                    old(self).mining_anticone(
                        parent_arena_index,
                        referee_indices@,
                        old(self).cached_anticone(parent_arena_index, anticone_bruteforce@),
                    ),
                ),
                None,
                None,
                difficulty.low as int,
            ),
            final(self).wf(),
            final(self).weight_tree.view() == old(self).weight_tree.view(),
            final(self).adaptive_tree.view() == old(self).adaptive_tree.view(),
            *final(self) == (ConsensusGraphInner {
                weight_tree: final(self).weight_tree,
                adaptive_tree: final(self).adaptive_tree,
                ..*old(self)
            }),
    {
        let barrier: IndexSet = self.compute_mining_barrier(
            parent_arena_index,
            &referee_indices,
            anticone_bruteforce,
        );
        self.adaptive_weight_impl(
            parent_arena_index,
            &barrier,
            None,
            None,
            difficulty.low_u128() as i128,
        )
    }

    /// Whether ticks do not fall from one height to a greater one on the line to `p`.
    pub open spec fn ticks_grow(
        &self,
        p: usize,
        tuple: Option<&TimerChainTuple>,
        low: int,
        high: int,
    ) -> bool {
        forall|a: int, b: int|
            low <= a <= b <= high ==> self.timer_tick(
                #[trigger] self.ancestor_at_height(p, a),
                tuple,
            ) <= self.timer_tick(#[trigger] self.ancestor_at_height(p, b), tuple)
    }

    /// Where ticks do not fall along the line to a block, the bisection finds the greatest height
    /// at which enough ticks have passed.
    pub proof fn law_bisection_finds_last_ripe(
        &self,
        p: usize,
        tuple: Option<&TimerChainTuple>,
        low: int,
        high: int,
        best: int,
    )
        requires
            self.ticks_grow(p, tuple, low, high),
        ensures
            ({
                let r = self.last_ripe_height(p, tuple, low, high, best);
                let none_above = |x: int|
                    forall|h: int|
                        x < h <= high ==> !self.ripe(
                            #[trigger] self.ancestor_at_height(p, h),
                            tuple,
                        );
                ||| r == best && none_above(low - 1)
                ||| low <= r <= high && self.ripe(self.ancestor_at_height(p, r), tuple)
                    && none_above(r)
            }),
        decreases (if low > high { 0 } else { high - low + 1 }),
    {
        if low <= high {
            let mid = (low + high) / 2;
            let q = self.ancestor_at_height(p, mid);
            if self.ripe(q, tuple) {
                self.law_bisection_finds_last_ripe(p, tuple, mid + 1, high, mid);
            } else {
                self.law_bisection_finds_last_ripe(p, tuple, low, mid - 1, best);
                assert forall|h: int| mid <= h <= high implies !self.ripe(
                    #[trigger] self.ancestor_at_height(p, h),
                    tuple,
                ) by {
                    assert(self.timer_tick(self.ancestor_at_height(p, mid), tuple)
                        <= self.timer_tick(self.ancestor_at_height(p, h), tuple));
                }
            }
        }
    }

    /// Whether the line from `p` up to a height is the same in the tree and in the arena, with
    /// heights that go down by one.
    pub open spec fn line_matches(&self, p: usize, low: int) -> bool {
        &&& self.ancestor_at_height(p, self.node(p).height as int) == p
        &&& forall|h: int|
            low <= h <= self.node(p).height ==> {
                let a = #[trigger] self.ancestor_at_height(p, h);
                &&& a != NULL
                &&& self.has(a)
                &&& self.node(a).height == h
                &&& h > low ==> self.node(a).parent == self.ancestor_at_height(p, h - 1)
            }
    }

    /// Whether a height is one of a block that is old enough and has too small a lead.
    pub open spec fn lead_too_small_at(
        &self,
        p: usize,
        subtree_weight: Seq<i128>,
        tuple: Option<&TimerChainTuple>,
        bound: int,
        h: int,
    ) -> bool {
        self.ripe(self.ancestor_at_height(p, h), tuple) && self.lead(
            subtree_weight,
            self.ancestor_at_height(p, h),
        ) < bound
    }

    /// A walk over the line to a block tells whether there is, above a height, a block that is
    /// old enough and has too small a lead.
    pub proof fn law_walk_finds_small_lead(
        &self,
        p: usize,
        subtree_weight: Seq<i128>,
        tuple: Option<&TimerChainTuple>,
        low: u64,
        bound: int,
        top: int,
    )
        requires
            self.wf(),
            self.line_matches(p, low as int),
            low <= top <= self.node(p).height,
        ensures
            self.some_lead_below(
                self.ancestor_at_height(p, top),
                subtree_weight,
                tuple,
                low,
                bound,
            ) <==> exists|h: int|
                low < h <= top && #[trigger] self.lead_too_small_at(
                    p,
                    subtree_weight,
                    tuple,
                    bound,
                    h,
                ),
        decreases top - low,
    {
        let x = self.ancestor_at_height(p, top);
        assert(self.node(x).height == top);
        if top > low {
            assert(self.node(x).parent == self.ancestor_at_height(p, top - 1));
            assert(self.ancestor_at_height(p, top - 1) != NULL);
            assert(self.nodes().contains_key(x));
            assert(self.age(self.node(x).parent) < self.age(x));
            self.law_walk_finds_small_lead(p, subtree_weight, tuple, low, bound, top - 1);
            let here = self.lead_too_small_at(p, subtree_weight, tuple, bound, top);
            if here {
                assert(self.lead_too_small_at(p, subtree_weight, tuple, bound, top));
            }
            assert(self.some_lead_below(x, subtree_weight, tuple, low, bound) <==> here
                || self.some_lead_below(
                self.node(x).parent,
                subtree_weight,
                tuple,
                low,
                bound,
            ));
        }
    }

    /// What is between two blocks of a line is at the heights between theirs.
    proof fn lemma_chopped_line(&self, p: usize, low: int, top: int, u: usize)
        requires
            self.wf(),
            self.weight_tree.has(p),
            self.cur_era_genesis_height <= low < top,
            self.ancestor_at_height(p, top) != NULL,
            self.ancestor_at_height(p, low) != NULL,
        ensures
            on_chopped_path(
                self.weight_tree.parents(),
                u,
                self.ancestor_at_height(p, top),
                self.ancestor_at_height(p, low),
            ) <==> exists|h: int|
                low < h <= top && u != NULL && #[trigger] self.ancestor_at_height(p, h) == u,
    {
        let parents = self.weight_tree.parents();
        let ranks = self.weight_tree.ranks();
        let g = self.cur_era_genesis_height as int;
        let d = depth(parents, p);
        let v = self.ancestor_at_height(p, top);
        let w = self.ancestor_at_height(p, low);
        self.weight_tree.lemma_ranked();
        self.weight_tree.lemma_parents(p);
        lemma_depth_of_ancestor(parents, ranks, p, (d - (top - g)) as nat);
        lemma_depth_of_ancestor(parents, ranks, p, (d - (low - g)) as nat);
        lemma_ancestor_ranked(parents, ranks, p, (d - (top - g)) as nat);
        lemma_ancestor_ranked(parents, ranks, p, (d - (low - g)) as nat);
        if on_chopped_path(parents, u, v, w) {
            let k = choose|k: nat| #[trigger] ancestor(parents, v, k) == u;
            let h = top - k;
            lemma_depth_of_ancestor(parents, ranks, v, k);
            lemma_ancestor_add(parents, p, (d - (top - g)) as nat, k);
            assert(h - g >= 0);
            assert(self.ancestor_at_height(p, h) == u);
            if h <= low {
                lemma_ancestor_add(parents, p, (d - (low - g)) as nat, (low - h) as nat);
                assert(ancestor(parents, w, (low - h) as nat) == u);
                assert(on_path(parents, u, w));
            }
        }
        if exists|h: int|
            low < h <= top && u != NULL && #[trigger] self.ancestor_at_height(p, h) == u {
            let h = choose|h: int|
                low < h <= top && u != NULL && #[trigger] self.ancestor_at_height(p, h) == u;
            lemma_ancestor_add(parents, p, (d - (top - g)) as nat, (top - h) as nat);
            assert(ancestor(parents, v, (top - h) as nat) == u);
            assert(on_path(parents, u, v));
            lemma_depth_of_ancestor(parents, ranks, p, (d - (h - g)) as nat);
            if on_path(parents, u, w) {
                let k = choose|k: nat| #[trigger] ancestor(parents, w, k) == u;
                lemma_depth_of_ancestor(parents, ranks, w, k);
            }
        }
    }

    /// The trees give the same answer as a walk over the line with subtree weights, if the trees
    /// without the barrier blocks hold the leads, ticks do not fall along the line, and the line
    /// is the same in the trees and in the arena.
    pub proof fn law_trees_agree_with_walk(
        &self,
        p: usize,
        barrier: Set<usize>,
        subtree_weight: Seq<i128>,
        tuple: Option<&TimerChainTuple>,
        bound: int,
    )
        requires
            self.wf(),
            self.has(p),
            self.weight_tree.has(p),
            self.follows_force_confirm(p, tuple),
            self.cur_era_genesis_height <= self.node(self.force_confirm(tuple)).height,
            self.line_matches(p, self.node(self.force_confirm(tuple)).height as int),
            self.ticks_grow(
                p,
                tuple,
                self.node(self.force_confirm(tuple)).height + 1,
                self.node(p).height as int,
            ),
            forall|h: int|
                self.node(self.force_confirm(tuple)).height < h <= self.node(p).height
                    ==> self.shifted_lead(barrier, #[trigger] self.ancestor_at_height(p, h))
                    == self.lead(subtree_weight, self.ancestor_at_height(p, h)),
        ensures
            self.tree_adaptive(p, barrier, tuple, bound) <==> self.some_lead_below(
                p,
                subtree_weight,
                tuple,
                self.node(self.force_confirm(tuple)).height,
                bound,
            ),
    {
        let fc = self.force_confirm(tuple);
        let low = self.node(fc).height as int;
        let high = self.node(p).height as int;
        let best = self.last_ripe_height(p, tuple, low + 1, high, low);
        self.law_bisection_finds_last_ripe(p, tuple, low + 1, high, low);
        self.law_walk_finds_small_lead(p, subtree_weight, tuple, low as u64, bound, high);
        if self.tree_adaptive(p, barrier, tuple, bound) {
            let u = choose|u: usize| #[trigger]
                on_chopped_path(
                    self.weight_tree.parents(),
                    u,
                    self.ancestor_at_height(p, best),
                    fc,
                ) && self.shifted_lead(barrier, u) < bound;
            self.lemma_chopped_line(p, low, best, u);
            let h = choose|h: int|
                low < h <= best && u != NULL && #[trigger] self.ancestor_at_height(p, h) == u;
            assert(self.timer_tick(self.ancestor_at_height(p, h), tuple) <= self.timer_tick(
                self.ancestor_at_height(p, best),
                tuple,
            ));
            assert(self.lead_too_small_at(p, subtree_weight, tuple, bound, h));
        }
        if exists|h: int|
            low < h <= high && #[trigger] self.lead_too_small_at(
                p,
                subtree_weight,
                tuple,
                bound,
                h,
            ) {
            let h = choose|h: int|
                low < h <= high && #[trigger] self.lead_too_small_at(
                    p,
                    subtree_weight,
                    tuple,
                    bound,
                    h,
                );
            let u = self.ancestor_at_height(p, h);
            assert(self.ripe(self.ancestor_at_height(p, h), tuple));
            assert(h <= best);
            self.lemma_chopped_line(p, low, best, u);
            assert(on_chopped_path(
                self.weight_tree.parents(),
                u,
                self.ancestor_at_height(p, best),
                fc,
            ));
        }
    }
}

} // verus!
