//! What the weights of blocks and subtrees are made of.
use vstd::prelude::*;

use crate::graph::{links_wf, ConsensusGraphInner};
use crate::reach::{lemma_reach_seed, lemma_reach_step, reaches, reaches_in};
use crate::sums::list_sum;

verus! {

impl ConsensusGraphInner {
    /// A block weighs its difficulty if it is active, not partial invalid and not adaptive. An
    /// adaptive one weighs that many times its difficulty as makes a block heavy, if it is heavy,
    /// and otherwise nothing. One that is not active, or partial invalid, weighs nothing.
    pub proof fn law_weight_of_a_block(&self, x: usize)
        ensures
            ({
                let n = self.node(x);
                let counts = n.data.activated && !n.data.partial_invalid;
                let ratio = self.inner_conf.heavy_block_difficulty_ratio;
                &&& !counts ==> self.weight(x) == 0
                &&& counts && !n.adaptive ==> self.weight(x) == n.difficulty.low
                &&& counts && n.adaptive && n.is_heavy ==> self.weight(x) == ratio
                    * n.difficulty.low
                &&& counts && n.adaptive && !n.is_heavy ==> self.weight(x) == 0
            }),
    {
    }

    /// A block adds its difficulty to a timer chain if it is a timer block and not partial invalid, and
    /// else nothing; unlike its weight, this does not depend on whether it is active or adaptive.
    pub proof fn law_timer_difficulty(&self, x: usize)
        ensures
            self.node(x).is_timer && !self.node(x).data.partial_invalid ==> self.timer_difficulty(x)
                == self.node(x).difficulty.low,
            !self.node(x).is_timer || self.node(x).data.partial_invalid ==> self.timer_difficulty(x)
                == 0,
    {
    }

    proof fn lemma_children_weight(&self, kept: Set<usize>, x: usize, k: nat)
        requires
            self.wf(),
            self.has(x),
            k <= self.node(x).children@.len(),
        ensures
            self.children_weight(kept, x, k) == list_sum(
                self.node(x).children@.take(k as int),
                |c: usize|
                    if kept.contains(c) {
                        self.subtree_weight(kept, c)
                    } else {
                        0
                    },
            ),
        decreases k,
    {
        let children = self.node(x).children@;
        if k > 0 {
            self.lemma_children_weight(kept, x, (k - 1) as nat);
            assert(self.nodes().contains_key(x));
            assert(links_wf(self.nodes(), self.node(x)));
            let c = children[k - 1];
            assert(self.age(c) > self.age(x));
            assert(children.take(k as int).drop_last() =~= children.take(k - 1));
            assert(children.take(k as int).last() == c);
        }
    }

    /// The subtree weight of a block is its own weight and the subtree weights of its children that are
    /// kept.
    pub proof fn law_subtree_weights_add_up(&self, kept: Set<usize>, x: usize)
        requires
            self.wf(),
            self.has(x),
        ensures
            self.subtree_weight(kept, x) == self.weight(x) + list_sum(
                self.node(x).children@,
                |c: usize|
                    if kept.contains(c) {
                        self.subtree_weight(kept, c)
                    } else {
                        0
                    },
            ),
    {
        let children = self.node(x).children@;
        self.lemma_children_weight(kept, x, children.len());
        assert(children.take(children.len() as int) =~= children);
    }

    /// The blocks that are kept are the era genesis, and with each of them its children, other than
    /// barrier blocks and the block that is left out, and no others.
    pub proof fn law_kept_subtree(&self, me: usize, barrier: Set<usize>)
        ensures
            ({
                let kept = self.kept_subtree(me, barrier);
                let g = self.cur_era_genesis_block_arena_index;
                &&& kept.contains(g)
                &&& forall|u: usize, k: int|
                    kept.contains(u) && 0 <= k < self.node(u).children@.len() && !barrier.contains(
                        #[trigger] self.node(u).children@[k],
                    ) && self.node(u).children@[k] != me ==> kept.contains(
                        self.node(u).children@[k],
                    )
                &&& forall|v: usize| #[trigger]
                    kept.contains(v) && v != g ==> !barrier.contains(v) && v != me && exists|
                        u: usize,
                    |
                        kept.contains(u) && #[trigger] self.node(u).children@.contains(v)
            }),
    {
        let kept = self.kept_subtree(me, barrier);
        let g = self.cur_era_genesis_block_arena_index;
        let edge = self.kept_steps(me, barrier);
        lemma_reach_seed(edge, set![g], g);
        assert forall|u: usize, k: int|
            kept.contains(u) && 0 <= k < self.node(u).children@.len() && !barrier.contains(
                #[trigger] self.node(u).children@[k],
            ) && self.node(u).children@[k] != me implies kept.contains(
            self.node(u).children@[k],
        ) by {
            let v = self.node(u).children@[k];
            assert(self.node(u).children@.contains(v));
            assert(edge(u, v));
            lemma_reach_step(edge, set![g], u, v);
        }
        assert forall|v: usize| #[trigger] kept.contains(v) && v != g implies !barrier.contains(v)
            && v != me && exists|u: usize|
            kept.contains(u) && #[trigger] self.node(u).children@.contains(v) by {
            let n = choose|n: nat| reaches_in(edge, set![g], v, n);
            let u = choose|u: usize| #[trigger]
                edge(u, v) && reaches_in(edge, set![g], u, (n - 1) as nat);
            assert(reaches(edge, set![g], u));
            assert(kept.contains(u) && self.node(u).children@.contains(v));
        }
    }
}

} // verus!
