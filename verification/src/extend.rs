//! A new block changes nothing in the past of the blocks before it.
use vstd::prelude::*;

use crate::epoch::seen_since;
use crate::graph::{arena_wf, links_wf, ConsensusGraphInner};
use crate::insertion::links_added;
use crate::node::ConsensusGraphNode;
use crate::reach::{
    is_pred, lemma_reach_closed, lemma_reach_same, past_outside, past_steps_outside, reaches,
};
use crate::topo::lemma_is_pred_older;
use crate::types::NULL;

verus! {

/// What is reached in the past of old blocks stays the same, whether or not the new block is to be
/// avoided.
pub proof fn lemma_past_outside_kept(
    before: Map<usize, ConsensusGraphNode>,
    after: Map<usize, ConsensusGraphNode>,
    index: usize,
    avoid: Set<usize>,
    from: Set<usize>,
)
    requires
        arena_wf(before),
        links_added(before, after, index),
        from.subset_of(before.dom()),
    ensures
        past_outside(after, avoid, from) == past_outside(before, avoid, from),
        past_outside(after, avoid.insert(index), from) == past_outside(before, avoid, from),
        past_outside(before, avoid, from).subset_of(before.dom()),
{
    let e = past_steps_outside(before, avoid);
    let e1 = past_steps_outside(after, avoid);
    let e2 = past_steps_outside(after, avoid.insert(index));
    assert forall|a: usize, b: usize| before.dom().contains(a) && #[trigger] e(
        a,
        b,
    ) implies before.dom().contains(b) by {
        lemma_is_pred_older(before, a, b);
    }
    lemma_reach_closed(e, from, before.dom());
    assert forall|a: usize, b: usize| reaches(e, from, a) implies #[trigger] e(a, b)
        == #[trigger] e1(a, b) by {
        assert(past_outside(before, avoid, from).contains(a));
        assert(before.contains_key(a));
        assert(is_pred(before, a, b) == is_pred(after, a, b));
    }
    lemma_reach_same(e, e1, from);
    assert forall|a: usize, b: usize| reaches(e, from, a) implies #[trigger] e(a, b)
        == #[trigger] e2(a, b) by {
        assert(past_outside(before, avoid, from).contains(a));
        assert(before.contains_key(a));
        assert(is_pred(before, a, b) == is_pred(after, a, b));
        if is_pred(before, a, b) {
            lemma_is_pred_older(before, a, b);
        }
    }
    lemma_reach_same(e, e2, from);
}

/// What was seen since an old block stays the same.
pub proof fn lemma_seen_since_kept(
    before: Map<usize, ConsensusGraphNode>,
    after: Map<usize, ConsensusGraphNode>,
    index: usize,
    x: usize,
    lca: usize,
    past: Set<usize>,
)
    requires
        arena_wf(before),
        links_added(before, after, index),
        before.contains_key(x),
    ensures
        seen_since(after, x, lca, past) == seen_since(before, x, lca, past),
    decreases before[x].data.sequence_number,
{
    if x != lca {
        assert(links_wf(before, before[x]));
        let p = before[x].parent;
        if p != NULL {
            assert(before.contains_key(p));
            lemma_seen_since_kept(before, after, index, p, lca, past);
        }
        let above = if p != NULL {
            seen_since(before, p, lca, past).insert(x)
        } else {
            set![x]
        };
        let avoid = past.union(above);
        let from = before[x].referees@.to_set().difference(avoid);
        assert(from.subset_of(before.dom())) by {
            assert forall|v: usize| from.contains(v) implies before.dom().contains(v) by {
                let k = choose|k: int|
                    0 <= k < before[x].referees@.len() && before[x].referees@[k] == v;
                assert(before.contains_key(before[x].referees@[k]));
            }
        }
        lemma_past_outside_kept(before, after, index, avoid, from);
    }
}

impl ConsensusGraphInner {
    /// What a new block with this parent has to avoid when its epoch is collected: the past of its
    /// parent.
    pub open spec fn new_epoch_avoid(&self, parent: usize) -> Set<usize> {
        let lca = self.common_ancestor(self.pivot_chain@.last(), parent);
        self.pastset(lca).union(seen_since(self.nodes(), parent, lca, self.pastset(lca)))
    }

    /// The epoch of a new block with this parent and these referees, without the block itself.
    pub open spec fn new_epoch(&self, parent: usize, referees: Seq<usize>) -> Set<usize> {
        if parent == NULL {
            Set::empty()
        } else {
            past_outside(
                self.nodes(),
                self.new_epoch_avoid(parent),
                referees.to_set().difference(self.new_epoch_avoid(parent)),
            )
        }
    }

    /// The past set that is put together for an old block stays the same.
    pub proof fn lemma_pastset_kept(&self, after: &ConsensusGraphInner, index: usize, x: usize)
        requires
            self.base_wf(),
            links_added(self.nodes(), after.nodes(), index),
            after.pastset_cache == self.pastset_cache,
            x == NULL || self.has(x),
        ensures
            after.pastset(x) == self.pastset(x),
            x != NULL && !self.pastset_cache@.contains_key(x) ==> self.pastset(x).contains(x),
        decreases (if x == NULL { 0 } else { self.age(x) as int + 1 }),
    {
        let nodes = self.nodes();
        if x != NULL && !self.pastset_cache@.contains_key(x) {
            assert(nodes.contains_key(x));
            assert(links_wf(nodes, nodes[x]));
            let p = nodes[x].parent;
            self.lemma_pastset_kept(after, index, p);
            if p != NULL {
                assert(nodes.contains_key(p));
            }
            let above = self.pastset(p).insert(x);
            assert(set![x].subset_of(nodes.dom()));
            lemma_past_outside_kept(nodes, after.nodes(), index, above, set![x]);
        }
    }

    /// The epoch that is collected for a new block is what could be told before it was added.
    pub proof fn lemma_new_epoch(&self, after: &ConsensusGraphInner, index: usize)
        requires
            self.wf(),
            links_added(self.nodes(), after.nodes(), index),
            after.node(index).parent != NULL ==> self.has(after.node(index).parent),
            crate::graph::all_nodes(self.nodes(), after.node(index).referees@),
            after.node(index).parent != NULL ==> self.common_ancestor(
                self.pivot_chain@.last(),
                after.node(index).parent,
            ) != NULL && self.has(
                self.common_ancestor(self.pivot_chain@.last(), after.node(index).parent),
            ),
            after.pastset_cache == self.pastset_cache,
            after.pivot_chain == self.pivot_chain,
            after.weight_tree == self.weight_tree,
        ensures
            after.collected_blocks(index) == self.new_epoch(
                after.node(index).parent,
                after.node(index).referees@,
            ),
            self.new_epoch(
                after.node(index).parent,
                after.node(index).referees@,
            ).subset_of(self.nodes().dom()),
            after.node(index).parent != NULL ==> after.epoch_start(index) == self.common_ancestor(
                self.pivot_chain@.last(),
                after.node(index).parent,
            ),
    {
        let parent = after.node(index).parent;
        let referees = after.node(index).referees@;
        if parent != NULL {
            let last = self.pivot_chain@.last();
            assert(self.nodes().contains_key(self.pivot_chain@[self.pivot_chain@.len() - 1]));
            assert(self.nodes().contains_key(parent));
            let lca = self.common_ancestor(last, parent);
            assert(after.common_ancestor(last, parent) == lca);
            self.lemma_pastset_kept(after, index, lca);
            let past = self.pastset(lca);
            lemma_seen_since_kept(self.nodes(), after.nodes(), index, parent, lca, past);
            let avoid = self.new_epoch_avoid(parent);
            assert(past.union(seen_since(after.nodes(), parent, lca, past).insert(index))
                =~= avoid.insert(index));
            let from = referees.to_set().difference(avoid);
            assert(from.subset_of(self.nodes().dom())) by {
                assert forall|v: usize| from.contains(v) implies self.nodes().dom().contains(v) by {
                    let k = choose|k: int| 0 <= k < referees.len() && referees[k] == v;
                    assert(self.nodes().contains_key(referees[k]));
                }
            }
            assert(referees.to_set().difference(avoid.insert(index)) =~= from) by {
                assert(!referees.contains(index)) by {
                    if referees.contains(index) {
                        let k = choose|k: int| 0 <= k < referees.len() && referees[k] == index;
                        assert(self.nodes().contains_key(referees[k]));
                    }
                }
            }
            lemma_past_outside_kept(self.nodes(), after.nodes(), index, avoid, from);
        }
    }
}

} // verus!
