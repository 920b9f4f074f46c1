//! What the last pivot blocks that are kept for blocks stand for.
use vstd::prelude::*;

use crate::graph::{arena_wf, ConsensusGraphInner};
use crate::metadata::with_last_pivots;
use crate::node::ConsensusGraphNode;
use crate::reach::is_pred;
use crate::timer::{lemma_pred_older, preds_of};
use crate::types::NULL;

verus! {

impl ConsensusGraphInner {
    /// The first `k` predecessors give the greatest of their heights.
    proof fn lemma_last_pivot_from(&self, start_at: int, updated: Set<usize>, x: usize, k: nat)
        requires
            arena_wf(self.nodes()),
            self.has(x),
            k <= preds_of(self.nodes(), x).len(),
        ensures
            ({
                let preds = preds_of(self.nodes(), x);
                let given = |p: usize|
                    if updated.contains(p) {
                        self.last_pivot_from(
                            start_at,
                            updated,
                            p,
                            preds_of(self.nodes(), p).len(),
                        )
                    } else {
                        self.base_last_pivot(start_at, self.pivot_height(), p)
                    };
                let r = self.last_pivot_from(start_at, updated, x, k);
                &&& forall|i: int| 0 <= i < k ==> given(#[trigger] preds[i]) <= r
                &&& k == 0 ==> r == 0
                &&& k > 0 ==> exists|i: int| 0 <= i < k && given(#[trigger] preds[i]) == r
            }),
        decreases k,
    {
        let preds = preds_of(self.nodes(), x);
        let given = |p: usize|
            if updated.contains(p) {
                self.last_pivot_from(start_at, updated, p, preds_of(self.nodes(), p).len())
            } else {
                self.base_last_pivot(start_at, self.pivot_height(), p)
            };
        if k > 0 {
            self.lemma_last_pivot_from(start_at, updated, x, (k - 1) as nat);
            lemma_pred_older(self.nodes(), x, k - 1);
            let r = self.last_pivot_from(start_at, updated, x, k);
            let before = self.last_pivot_from(start_at, updated, x, (k - 1) as nat);
            if r == before && k > 1 {
                let i = choose|i: int| 0 <= i < k - 1 && given(#[trigger] preds[i]) == before;
                assert(given(preds[i]) == r);
            } else {
                assert(given(preds[k - 1]) == r);
            }
        }
    }

    /// Recomputing the last pivot blocks from a height on, for the given blocks: a pivot block from
    /// that height on is its own. Another one of the given blocks, if it is in the era and not its
    /// genesis, gets the last of those of its parent and all its referees: none of them has a later
    /// one, and one of them has the same. All others, and all else, stay as they were.
    pub proof fn law_last_pivots_follow_links(
        &self,
        after: Self,
        start_at: int,
        to_update: Set<usize>,
        x: usize,
    )
        requires
            self.wf(),
            self.metadata_ready(start_at, to_update),
            self.has(x),
            after.nodes() == with_last_pivots(
                self.nodes(),
                Map::new(
                    |y: usize| self.has(y),
                    |y: usize| self.new_last_pivot(start_at, to_update, y),
                ),
            ),
        ensures
            after.nodes().dom() == self.nodes().dom(),
            after.node(x) == (ConsensusGraphNode {
                last_pivot_in_past: after.node(x).last_pivot_in_past,
                ..self.node(x)
            }),
            forall|i: int|
                0 <= i < self.pivot_chain@.len() && #[trigger] self.pivot_chain@[i] == x && start_at
                    <= self.cur_era_genesis_height + i ==> after.node(x).last_pivot_in_past
                    == self.cur_era_genesis_height + i,
            (forall|i: int|
                0 <= i < self.pivot_chain@.len() && start_at <= self.cur_era_genesis_height + i
                    ==> #[trigger] self.pivot_chain@[i] != x) ==> if to_update.contains(x)
                && self.node(x).era_block != NULL && x != self.cur_era_genesis_block_arena_index {
                &&& forall|p: usize| #[trigger]
                    is_pred(self.nodes(), x, p) ==> after.node(p).last_pivot_in_past <= after.node(
                        x,
                    ).last_pivot_in_past
                &&& (exists|p: usize| #[trigger]
                    is_pred(self.nodes(), x, p) && after.node(p).last_pivot_in_past == after.node(
                        x,
                    ).last_pivot_in_past) || (after.node(x).last_pivot_in_past == 0
                    && forall|p: usize| !#[trigger] is_pred(self.nodes(), x, p))
            } else {
                after.node(x) == self.node(x)
            },
    {
        let nodes = self.nodes();
        assert(nodes.contains_key(x));
        assert(after.nodes().contains_key(x));
        assert(after.nodes().dom() =~= nodes.dom());
        assert forall|i: int|
            0 <= i < self.pivot_chain@.len() && #[trigger] self.pivot_chain@[i] == x && start_at
                <= self.cur_era_genesis_height + i implies after.node(x).last_pivot_in_past
            == self.cur_era_genesis_height + i by {
            assert(self.pivot_chain@.contains(x));
            assert(self.pivot_chain@.index_of(x) == i);
        }
        if forall|i: int|
            0 <= i < self.pivot_chain@.len() && start_at <= self.cur_era_genesis_height + i
                ==> #[trigger] self.pivot_chain@[i] != x {
            assert(!self.pivot_between(x, start_at, self.pivot_height())) by {
                if self.pivot_chain@.contains(x) {
                    let i = self.pivot_chain@.index_of(x);
                    assert(self.pivot_chain@[i] == x);
                }
            }
            let updated = self.follows_preds(start_at, to_update);
            if updated.contains(x) {
                let preds = preds_of(nodes, x);
                self.lemma_last_pivot_from(start_at, updated, x, preds.len());
                assert forall|p: usize| #[trigger] is_pred(nodes, x, p) <==> preds.contains(p) by {
                    self.lemma_preds(x, p);
                }
                assert forall|p: usize| #[trigger] is_pred(nodes, x, p) implies after.node(
                    p,
                ).last_pivot_in_past <= after.node(x).last_pivot_in_past by {
                    let i = choose|i: int| 0 <= i < preds.len() && preds[i] == p;
                    lemma_pred_older(nodes, x, i);
                    assert(self.has(preds[i]));
                    assert(nodes.contains_key(p));
                    assert(after.nodes().contains_key(p));
                }
                if preds.len() > 0 {
                    let given = |p: usize|
                        if updated.contains(p) {
                            self.last_pivot_from(start_at, updated, p, preds_of(nodes, p).len())
                        } else {
                            self.base_last_pivot(start_at, self.pivot_height(), p)
                        };
                    let i = choose|i: int|
                        0 <= i < preds.len() && given(#[trigger] preds[i]) == self.last_pivot_from(
                            start_at,
                            updated,
                            x,
                            preds.len(),
                        );
                    let p = preds[i];
                    lemma_pred_older(nodes, x, i);
                    assert(preds.contains(p));
                    assert(self.has(p));
                    assert(nodes.contains_key(p));
                    assert(after.nodes().contains_key(p));
                    assert(is_pred(nodes, x, p) && after.node(p).last_pivot_in_past == after.node(
                        x,
                    ).last_pivot_in_past);
                }
            }
        }
    }
}

} // verus!
