//! What decides whether a block has to be adaptive.
use vstd::prelude::*;

use crate::anticone_rules::lemma_past_is_older;
use crate::graph::{links_wf, ConsensusGraphInner};
use crate::lineage::{ancestor, depth, lemma_depth_exists, lemma_depth_of_ancestor, on_path};
use crate::past::{lemma_past_closed, lemma_past_least, past_closed};
use crate::reach::{
    is_pred, is_succ, lemma_reach_closed, lemma_reach_seed, lemma_reach_step, past_of,
    past_steps_outside, reach_set, reaches, reaches_in, steps, Direction, Filter,
};
use crate::timer::TimerChainTuple;
use crate::topo::lemma_is_pred_older;
use crate::types::NULL;

verus! {

impl ConsensusGraphInner {
    /// Whether with each active block its parent and its referees are active.
    pub open spec fn active_with_past(&self) -> bool {
        forall|u: usize, v: usize|
            self.has(u) && self.node(u).data.activated && #[trigger] is_pred(self.nodes(), u, v)
                ==> self.node(v).data.activated
    }

    /// The past of an active block is active.
    proof fn lemma_active_past(&self, v: usize, w: usize)
        requires
            self.wf(),
            self.active_with_past(),
            self.has(v),
            self.node(v).data.activated,
            past_of(self.nodes(), v).contains(w),
        ensures
            self.has(w),
            self.node(w).data.activated,
    {
        let nodes = self.nodes();
        let s = Set::new(|x: usize| self.has(x) && self.node(x).data.activated);
        assert(past_closed(nodes, s)) by {
            assert forall|a: usize, b: usize|
                s.contains(a) && #[trigger] is_pred(nodes, a, b) implies s.contains(b) by {
                assert(nodes.contains_key(a));
                lemma_is_pred_older(nodes, a, b);
            }
        }
        lemma_past_least(nodes, s, v);
    }

    /// What is met on the way into the past is on the way from there into the future.
    proof fn lemma_future_of_past(&self, v: usize, w: usize, n: nat)
        requires
            self.wf(),
            self.links_match(self.nodes().dom()),
            self.active_with_past(),
            self.has(v),
            self.node(v).data.activated,
            reaches_in(past_steps_outside(self.nodes(), Set::empty()), set![v], w, n),
        ensures
            reach_set(steps(self.nodes(), Direction::Future, Filter::Activated), set![w]).contains(
                v,
            ),
        decreases n,
    {
        let nodes = self.nodes();
        let back = past_steps_outside(nodes, Set::empty());
        let edge = steps(nodes, Direction::Future, Filter::Activated);
        lemma_reach_seed(edge, set![w], w);
        if n > 0 {
            let u = choose|u: usize| #[trigger]
                back(u, w) && reaches_in(back, set![v], u, (n - 1) as nat);
            self.lemma_future_of_past(v, u, (n - 1) as nat);
            assert(reaches(back, set![v], u));
            assert(past_of(nodes, v).contains(u));
            self.lemma_active_past(v, u);
            assert(is_pred(nodes, u, w));
            assert(nodes.contains_key(u));
            lemma_is_pred_older(nodes, u, w);
            assert(self.has(w));
            assert(nodes.dom().contains(u));
            assert(is_succ(nodes, w, u));
            assert(edge(w, u));
            lemma_reach_step(edge, set![w], w, u);
            let s = reach_set(edge, set![w]);
            assert forall|a: usize, b: usize| s.contains(a) && #[trigger] edge(a, b) implies s.contains(
                b,
            ) by {
                lemma_reach_step(edge, set![w], a, b);
            }
            lemma_reach_closed(edge, set![u], s);
        }
    }

    /// What is on the way into the future has where that began in its past.
    proof fn lemma_past_of_future(&self, v: usize, w: usize)
        requires
            self.wf(),
            self.links_match(self.nodes().dom()),
            self.has(w),
            reach_set(steps(self.nodes(), Direction::Future, Filter::Activated), set![w]).contains(
                v,
            ),
        ensures
            self.has(v),
            past_of(self.nodes(), v).contains(w),
            v == w || self.node(v).data.activated,
    {
        let nodes = self.nodes();
        let edge = steps(nodes, Direction::Future, Filter::Activated);
        let s = Set::new(
            |x: usize|
                self.has(x) && past_of(nodes, x).contains(w) && (x == w
                    || self.node(x).data.activated),
        );
        lemma_past_closed(nodes, w);
        assert(s.contains(w));
        assert forall|a: usize, b: usize| s.contains(a) && #[trigger] edge(a, b) implies s.contains(
            b,
        ) by {
            assert(is_succ(nodes, a, b));
            self.lemma_succ_is_node(a, b);
            assert(nodes.dom().contains(b));
            assert(is_pred(nodes, b, a));
            lemma_past_closed(nodes, b);
            crate::anticone_rules::lemma_past_trans(nodes, b, a, w);
        }
        lemma_reach_closed(edge, set![w], s);
    }

    /// The active future of a block is the active blocks that have it in their pasts.
    pub proof fn law_active_future(&self, me: usize, v: usize)
        requires
            self.wf(),
            self.links_match(self.nodes().dom()),
            self.active_with_past(),
            self.has(me),
        ensures
            self.activated_future(me).contains(v) <==> v != me && self.has(v) && self.node(
                v,
            ).data.activated && past_of(self.nodes(), v).contains(me),
    {
        let nodes = self.nodes();
        let edge = steps(nodes, Direction::Future, Filter::Activated);
        if reach_set(edge, set![me]).contains(v) {
            self.lemma_past_of_future(v, me);
        }
        if self.has(v) && self.node(v).data.activated && past_of(nodes, v).contains(me) {
            let back = past_steps_outside(nodes, Set::empty());
            let n = choose|n: nat| reaches_in(back, set![v], me, n);
            self.lemma_future_of_past(v, me, n);
        }
    }

    /// The anticone of a block that is about to be mined, given the anticone of its parent: the active
    /// blocks that are neither in the past of the parent nor in that of any referee.
    pub proof fn law_mining_anticone(
        &self,
        parent: usize,
        referees: Seq<usize>,
        parent_anticone: Set<usize>,
        v: usize,
    )
        requires
            self.wf(),
            self.links_match(self.nodes().dom()),
            self.active_with_past(),
            self.has(parent),
            self.node(parent).data.activated,
            forall|k: int|
                0 <= k < referees.len() ==> self.has(#[trigger] referees[k]) && self.node(
                    referees[k],
                ).data.activated,
            forall|x: usize| #[trigger]
                parent_anticone.contains(x) <==> self.has(x) && self.node(x).data.activated
                    && !past_of(self.nodes(), parent).contains(x) && !past_of(
                    self.nodes(),
                    x,
                ).contains(parent),
        ensures
            self.mining_anticone(parent, referees, parent_anticone).contains(v) <==> {
                &&& self.has(v)
                &&& self.node(v).data.activated
                &&& !past_of(self.nodes(), parent).contains(v)
                &&& forall|k: int|
                    0 <= k < referees.len() ==> !past_of(
                        self.nodes(),
                        #[trigger] referees[k],
                    ).contains(v)
            },
    {
        let nodes = self.nodes();
        let around = self.around_parent(parent, parent_anticone);
        let edge = self.past_steps_inside(around);
        let back = past_steps_outside(nodes, Set::empty());
        let met = reach_set(edge, referees.to_set());
        assert(nodes.contains_key(parent));
        assert forall|x: usize| #[trigger] around.contains(x) <==> self.has(x) && self.node(
            x,
        ).data.activated && !past_of(nodes, parent).contains(x) by {
            self.law_active_future(parent, x);
            lemma_past_closed(nodes, parent);
            if self.has(x) && past_of(nodes, x).contains(parent) && past_of(
                nodes,
                parent,
            ).contains(x) && x != parent {
                assert(nodes.contains_key(x));
                lemma_past_is_older(nodes, x, parent);
                lemma_past_is_older(nodes, parent, x);
            }
        }
        // What is met is in the past of a referee.
        if met.contains(v) {
            let s = Set::new(
                |x: usize|
                    exists|k: int|
                        0 <= k < referees.len() && past_of(nodes, #[trigger] referees[k]).contains(
                            x,
                        ),
            );
            assert(referees.to_set().subset_of(s)) by {
                assert forall|x: usize| referees.to_set().contains(x) implies s.contains(x) by {
                    let k = choose|k: int| 0 <= k < referees.len() && referees[k] == x;
                    lemma_past_closed(nodes, x);
                    assert(past_of(nodes, referees[k]).contains(x));
                }
            }
            assert forall|a: usize, b: usize| s.contains(a) && #[trigger] edge(a, b) implies s.contains(
                b,
            ) by {
                let k = choose|k: int|
                    0 <= k < referees.len() && past_of(nodes, #[trigger] referees[k]).contains(a);
                lemma_past_closed(nodes, referees[k]);
                assert(is_pred(nodes, a, b));
                assert(past_of(nodes, referees[k]).contains(b));
            }
            lemma_reach_closed(edge, referees.to_set(), s);
        }
        // What is in the past of a referee and around the parent is met.
        if around.contains(v) && exists|k: int|
            0 <= k < referees.len() && past_of(nodes, #[trigger] referees[k]).contains(v) {
            let k = choose|k: int|
                0 <= k < referees.len() && past_of(nodes, #[trigger] referees[k]).contains(v);
            let r = referees[k];
            let n = choose|n: nat| reaches_in(back, set![r], v, n);
            assert(referees.to_set().contains(r));
            self.lemma_met_around(parent, around, referees, r, v, n);
        }
    }

    /// Outside the past of a block one comes there only by blocks that are outside it too.
    proof fn lemma_met_around(
        &self,
        parent: usize,
        around: Set<usize>,
        referees: Seq<usize>,
        r: usize,
        v: usize,
        n: nat,
    )
        requires
            self.wf(),
            self.active_with_past(),
            self.has(r),
            self.node(r).data.activated,
            referees.to_set().contains(r),
            around.contains(v),
            forall|x: usize| #[trigger]
                around.contains(x) <==> self.has(x) && self.node(x).data.activated && !past_of(
                    self.nodes(),
                    parent,
                ).contains(x),
            reaches_in(past_steps_outside(self.nodes(), Set::empty()), set![r], v, n),
        ensures
            reach_set(self.past_steps_inside(around), referees.to_set()).contains(v),
        decreases n,
    {
        let nodes = self.nodes();
        let edge = self.past_steps_inside(around);
        let back = past_steps_outside(nodes, Set::empty());
        if n == 0 {
            lemma_reach_seed(edge, referees.to_set(), v);
        } else {
            let u = choose|u: usize| #[trigger]
                back(u, v) && reaches_in(back, set![r], u, (n - 1) as nat);
            assert(reaches(back, set![r], u));
            assert(past_of(nodes, r).contains(u));
            self.lemma_active_past(r, u);
            lemma_past_closed(nodes, parent);
            assert(is_pred(nodes, u, v));
            assert(around.contains(u));
            self.lemma_met_around(parent, around, referees, r, u, (n - 1) as nat);
            assert(edge(u, v));
            lemma_reach_step(edge, referees.to_set(), u, v);
        }
    }

    /// Barrier blocks are the topmost blocks of the era in an anticone: each is in it and its parent is
    /// not, and each block of the anticone, on a line of which all blocks that are in the anticone are
    /// in the era, is a barrier block or below one, with nothing but the anticone between.
    pub proof fn law_barrier_is_topmost(&self, anticone: Set<usize>, x: usize)
        requires
            self.wf(),
            anticone.subset_of(self.nodes().dom()),
        ensures
            self.barrier_of(anticone).contains(x) ==> anticone.contains(x) && self.node(x).era_block
                != NULL && !anticone.contains(self.node(x).parent),
            anticone.contains(x) && (forall|k: nat|
                anticone.contains(#[trigger] self.back(x, k)) ==> self.node(
                    self.back(x, k),
                ).era_block != NULL) ==> exists|k: nat|
                self.barrier_of(anticone).contains(#[trigger] self.back(x, k)) && forall|j: nat|
                    j <= k ==> anticone.contains(#[trigger] self.back(x, j)),
        decreases self.age(x),
    {
        assert(self.back(x, 0) == x);
        if anticone.contains(x) && (forall|k: nat|
            anticone.contains(#[trigger] self.back(x, k)) ==> self.node(
                self.back(x, k),
            ).era_block != NULL) {
            assert(self.nodes().dom().contains(x));
            let p = self.node(x).parent;
            assert(self.nodes().contains_key(x));
            assert(links_wf(self.nodes(), self.node(x)));
            assert(self.node(self.back(x, 0)).era_block != NULL);
            if anticone.contains(p) {
                assert(self.nodes().dom().contains(p));
                if p == NULL {
                    assert(self.has(NULL));
                }
                assert forall|k: nat| anticone.contains(#[trigger] self.back(p, k)) implies self.node(
                    self.back(p, k),
                ).era_block != NULL by {
                    self.lemma_back_from_parent(x, k);
                    assert(anticone.contains(self.back(x, k + 1)));
                }
                self.law_barrier_is_topmost(anticone, p);
                let k = choose|k: nat|
                    self.barrier_of(anticone).contains(#[trigger] self.back(p, k)) && forall|j: nat|
                        j <= k ==> anticone.contains(#[trigger] self.back(p, j));
                self.lemma_back_from_parent(x, k);
                assert(self.barrier_of(anticone).contains(self.back(x, k + 1)));
                assert forall|j: nat| j <= k + 1 implies anticone.contains(
                    #[trigger] self.back(x, j),
                ) by {
                    if j > 0 {
                        self.lemma_back_from_parent(x, (j - 1) as nat);
                        assert(anticone.contains(self.back(p, (j - 1) as nat)));
                    }
                }
            } else {
                assert(self.barrier_of(anticone).contains(self.back(x, 0)));
                assert forall|j: nat| j <= 0 implies anticone.contains(
                    #[trigger] self.back(x, j),
                ) by {}
            }
        }
    }

    /// Whether a block is old enough and leads by too little, going by subtree weights.
    pub open spec fn leads_too_little(
        &self,
        x: usize,
        w: Seq<i128>,
        tuple: Option<&TimerChainTuple>,
        bound: int,
    ) -> bool {
        let p = self.node(x).parent;
        &&& self.best_timer_tick(tuple) - self.timer_tick(x, tuple)
            >= self.inner_conf.timer_chain_beta
        &&& 2 * w[x as int] - w[p as int] + self.weight(p) < bound
    }

    /// Going by subtree weights, a new block has to be adaptive exactly if the force confirmed block is
    /// its parent or above it, and between the two, the parent counted and the force confirmed block
    /// not, some block is at least `timer_chain_beta` ticks old and twice its subtree weight, less
    /// that of its parent, more the weight of its parent, is below `adaptive_weight_beta` times the
    /// difficulty.
    pub proof fn law_adaptive_by_walk(
        &self,
        p: usize,
        barrier: Set<usize>,
        w: &Vec<i128>,
        tuple: Option<&TimerChainTuple>,
        difficulty: int,
    )
        requires
            self.wf(),
            self.has(p),
            self.weight_tree.has(p),
            self.tree_at_heights(),
            self.weight_tree.has(self.force_confirm(tuple)),
            self.line_matches(p, self.node(self.force_confirm(tuple)).height as int),
        ensures
            self.must_be_adaptive(p, barrier, Some(w), tuple, difficulty) <==> {
                let fc = self.force_confirm(tuple);
                &&& on_path(self.weight_tree.parents(), fc, p)
                &&& exists|x: usize| #[trigger]
                    on_path(self.weight_tree.parents(), x, p) && self.node(x).height > self.node(
                        fc,
                    ).height && self.leads_too_little(
                        x,
                        w@,
                        tuple,
                        self.inner_conf.adaptive_weight_beta * difficulty,
                    )
            },
    {
        let tp = self.weight_tree.parents();
        let ranks = self.weight_tree.ranks();
        let fc = self.force_confirm(tuple);
        let low = self.node(fc).height;
        let high = self.node(p).height;
        let bound = self.inner_conf.adaptive_weight_beta * difficulty;
        self.weight_tree.lemma_ranked();
        self.weight_tree.lemma_parents(p);
        self.weight_tree.lemma_parents(fc);
        lemma_depth_exists(tp, ranks, p);
        assert forall|x: usize|
            self.weight_tree.has(x) && self.node(x).height <= high implies (#[trigger] on_path(
            tp,
            x,
            p,
        ) <==> self.ancestor_at_height(p, self.node(x).height as int) == x) by {
            self.weight_tree.lemma_parents(x);
            assert(depth(tp, x) + self.cur_era_genesis_height == self.node(x).height);
            if on_path(tp, x, p) {
                let k = choose|k: nat| #[trigger] ancestor(tp, p, k) == x;
                lemma_depth_of_ancestor(tp, ranks, p, k);
            }
            if self.ancestor_at_height(p, self.node(x).height as int) == x {
                let at = (self.node(x).height - self.cur_era_genesis_height) as nat;
                assert(ancestor(tp, p, (depth(tp, p) - at) as nat) == x);
            }
        }
        assert forall|x: usize| #[trigger] on_path(tp, x, p) implies self.weight_tree.has(x)
            && self.node(x).height <= high by {
            let k = choose|k: nat| #[trigger] ancestor(tp, p, k) == x;
            crate::lineage::lemma_ancestor_ranked(tp, ranks, p, k);
            self.weight_tree.lemma_parents(x);
            lemma_depth_of_ancestor(tp, ranks, p, k);
        }
        if on_path(tp, fc, p) {
            assert(self.follows_force_confirm(p, tuple));
            self.law_walk_finds_small_lead(p, w@, tuple, low, bound, high as int);
            assert(self.ancestor_at_height(p, high as int) == p);
            if self.must_be_adaptive(p, barrier, Some(w), tuple, difficulty) {
                let h = choose|h: int|
                    low < h <= high && #[trigger] self.lead_too_small_at(p, w@, tuple, bound, h);
                let x = self.ancestor_at_height(p, h);
                assert(self.node(x).height == h);
                let at = (h - self.cur_era_genesis_height) as nat;
                assert(ancestor(tp, p, (depth(tp, p) - at) as nat) == x);
                assert(on_path(tp, x, p));
                assert(self.leads_too_little(x, w@, tuple, bound));
            }
            if exists|x: usize| #[trigger]
                on_path(tp, x, p) && self.node(x).height > low && self.leads_too_little(
                    x,
                    w@,
                    tuple,
                    bound,
                ) {
                let x = choose|x: usize| #[trigger]
                    on_path(tp, x, p) && self.node(x).height > low && self.leads_too_little(
                        x,
                        w@,
                        tuple,
                        bound,
                    );
                let h = self.node(x).height as int;
                assert(self.ancestor_at_height(p, h) == x);
                assert(self.lead_too_small_at(p, w@, tuple, bound, h));
            }
        }
    }

    /// Where an anticone is cached for a block, it is the blocks that are listed for it; where none is,
    /// the given one stands for it.
    pub proof fn law_cached_anticone(&self, me: usize, otherwise: Set<usize>, v: usize)
        ensures
            self.anticone_cache@.contains_key(me) ==> (self.cached_anticone(
                me,
                otherwise,
            ).contains(v) <==> self.anticone_cache@[me].contains(v)),
            !self.anticone_cache@.contains_key(me) ==> (self.cached_anticone(
                me,
                otherwise,
            ).contains(v) <==> otherwise.contains(v)),
    {
    }
}

} // verus!
