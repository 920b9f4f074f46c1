//! What the epochs are: the past of a pivot block without that of its parent.
use vstd::prelude::*;

use crate::epoch::{climbs_to, epoch_blocks, fresh_past, seen_since};
use crate::graph::{arena_wf, links_wf, ConsensusGraphInner};
use crate::node::ConsensusGraphNode;
use crate::reach::{
    is_pred, is_succ, lemma_reach_closed, lemma_reach_seed, lemma_reach_step, past_of, past_outside,
    past_steps_outside,
};
use crate::types::NULL;

verus! {

/// Whether a set holds the parent and the referees of all it holds.
pub open spec fn past_closed(nodes: Map<usize, ConsensusGraphNode>, s: Set<usize>) -> bool {
    forall|a: usize, b: usize| s.contains(a) && #[trigger] is_pred(nodes, a, b) ==> s.contains(b)
}

/// The past of a block, empty for `NULL`.
pub open spec fn past_or_empty(nodes: Map<usize, ConsensusGraphNode>, v: usize) -> Set<usize> {
    if v == NULL {
        Set::empty()
    } else {
        past_of(nodes, v)
    }
}

/// Whether the blocks listed for the epoch of a block are its past without the past of its parent
/// and without the block itself.
pub open spec fn epoch_complete(nodes: Map<usize, ConsensusGraphNode>, x: usize) -> bool {
    nodes[x].data.blockset_in_own_view_of_epoch@.to_set() == past_of(nodes, x).difference(
        past_or_empty(nodes, nodes[x].parent),
    ).remove(x)
}

/// Whether the epochs of the blocks of the era are complete wherever their blocks are listed, none
/// are listed where they were cleared, and the parents of these blocks are in the era too.
pub open spec fn epochs_complete(nodes: Map<usize, ConsensusGraphNode>) -> bool {
    forall|x: usize| #[trigger]
        nodes.contains_key(x) && nodes[x].era_block != NULL ==> {
            &&& nodes[x].parent != NULL ==> nodes[nodes[x].parent].era_block != NULL
            &&& if nodes[x].data.blockset_cleared {
                nodes[x].data.blockset_in_own_view_of_epoch@.len() == 0
            } else {
                epoch_complete(nodes, x)
            }
        }
}

/// Whether the ordered epochs of the blocks of the era end in these blocks.
pub open spec fn epochs_end(nodes: Map<usize, ConsensusGraphNode>) -> bool {
    forall|x: usize| #[trigger]
        nodes.contains_key(x) && nodes[x].era_block != NULL
            ==> nodes[x].data.ordered_executable_epoch_blocks@.len() > 0
            && nodes[x].data.ordered_executable_epoch_blocks@.last() == x
}

/// The past of a block holds the block and is closed.
pub proof fn lemma_past_closed(nodes: Map<usize, ConsensusGraphNode>, v: usize)
    ensures
        past_closed(nodes, past_of(nodes, v)),
        past_of(nodes, v).contains(v),
{
    let edge = past_steps_outside(nodes, Set::empty());
    lemma_reach_seed(edge, set![v], v);
    assert forall|a: usize, b: usize|
        past_of(nodes, v).contains(a) && #[trigger] is_pred(nodes, a, b) implies past_of(
        nodes,
        v,
    ).contains(b) by {
        assert(edge(a, b));
        lemma_reach_step(edge, set![v], a, b);
    }
}

/// A closed set that holds a block holds its past.
pub proof fn lemma_past_least(
    nodes: Map<usize, ConsensusGraphNode>,
    s: Set<usize>,
    v: usize,
)
    requires
        past_closed(nodes, s),
        s.contains(v),
    ensures
        past_of(nodes, v).subset_of(s),
{
    let edge = past_steps_outside(nodes, Set::empty());
    assert forall|a: usize, b: usize| s.contains(a) && #[trigger] edge(a, b) implies s.contains(
        b,
    ) by {
        assert(is_pred(nodes, a, b));
    }
    lemma_reach_closed(edge, set![v], s);
}

/// The past of the parent is in the past of a block.
pub proof fn lemma_past_of_parent(nodes: Map<usize, ConsensusGraphNode>, x: usize)
    ensures
        past_or_empty(nodes, nodes[x].parent).subset_of(past_of(nodes, x)),
        past_closed(nodes, past_or_empty(nodes, nodes[x].parent)),
        nodes[x].parent != NULL ==> past_or_empty(nodes, nodes[x].parent).contains(
            nodes[x].parent,
        ),
{
    let p = nodes[x].parent;
    lemma_past_closed(nodes, x);
    if p != NULL {
        lemma_past_closed(nodes, p);
        assert(is_pred(nodes, x, p));
        lemma_past_least(nodes, past_of(nodes, x), p);
    }
}

/// What is reached outside a set is in the past, if what one starts from is.
proof fn lemma_outside_in_past(
    nodes: Map<usize, ConsensusGraphNode>,
    avoid: Set<usize>,
    from: Set<usize>,
    s: Set<usize>,
)
    requires
        past_closed(nodes, s),
        from.subset_of(s),
    ensures
        past_outside(nodes, avoid, from).subset_of(s),
{
    let edge = past_steps_outside(nodes, avoid);
    assert forall|a: usize, b: usize| s.contains(a) && #[trigger] edge(a, b) implies s.contains(
        b,
    ) by {
        assert(is_pred(nodes, a, b));
    }
    lemma_reach_closed(edge, from, s);
}

/// What the referees of a block lead to outside the past of the parent and the block is the rest
/// of its past.
pub proof fn lemma_fresh_past(nodes: Map<usize, ConsensusGraphNode>, x: usize)
    ensures
        ({
            let above = past_or_empty(nodes, nodes[x].parent).insert(x);
            &&& fresh_past(nodes, x, above) == past_of(nodes, x).difference(above)
        }),
{
    let below = past_or_empty(nodes, nodes[x].parent);
    let above = below.insert(x);
    let from = nodes[x].referees@.to_set().difference(above);
    let edge = past_steps_outside(nodes, above);
    let fresh = fresh_past(nodes, x, above);
    let past = past_of(nodes, x);
    lemma_past_closed(nodes, x);
    lemma_past_of_parent(nodes, x);
    assert forall|v: usize| from.contains(v) implies past.contains(v) by {
        assert(is_pred(nodes, x, v));
    }
    lemma_outside_in_past(nodes, above, from, past);
    let free = past.difference(above);
    assert forall|a: usize, b: usize| free.contains(a) && #[trigger] edge(a, b) implies free.contains(
        b,
    ) by {
        assert(is_pred(nodes, a, b));
    }
    lemma_reach_closed(edge, from, free);
    let all = above.union(fresh);
    assert forall|a: usize, b: usize| all.contains(a) && #[trigger] is_pred(
        nodes,
        a,
        b,
    ) implies all.contains(b) by {
        if !above.contains(b) {
            if a == x {
                assert(nodes[x].referees@.contains(b));
                lemma_reach_seed(edge, from, b);
            } else if !below.contains(a) {
                assert(edge(a, b));
                lemma_reach_step(edge, from, a, b);
            }
        }
    }
    lemma_past_least(nodes, all, x);
    assert(fresh =~= free);
}

/// What is reached from a block outside the past of its parent completes its past.
proof fn lemma_outside_parent(nodes: Map<usize, ConsensusGraphNode>, x: usize)
    ensures
        ({
            let above = past_or_empty(nodes, nodes[x].parent).insert(x);
            above.union(past_outside(nodes, above, set![x])) == past_of(nodes, x)
        }),
{
    let below = past_or_empty(nodes, nodes[x].parent);
    let above = below.insert(x);
    let edge = past_steps_outside(nodes, above);
    let met = past_outside(nodes, above, set![x]);
    lemma_past_closed(nodes, x);
    lemma_past_of_parent(nodes, x);
    lemma_outside_in_past(nodes, above, set![x], past_of(nodes, x));
    lemma_reach_seed(edge, set![x], x);
    let all = above.union(met);
    assert forall|a: usize, b: usize| all.contains(a) && #[trigger] is_pred(
        nodes,
        a,
        b,
    ) implies all.contains(b) by {
        if !above.contains(b) && !below.contains(a) {
            assert(met.contains(a));
            assert(edge(a, b));
            lemma_reach_step(edge, set![x], a, b);
        }
    }
    lemma_past_least(nodes, all, x);
    assert(all =~= past_of(nodes, x));
}

/// What was seen since a block together with the past of that block is the past.
pub proof fn lemma_seen_since(
    nodes: Map<usize, ConsensusGraphNode>,
    x: usize,
    lca: usize,
)
    requires
        arena_wf(nodes),
        epochs_complete(nodes),
        nodes.contains_key(x),
        nodes[x].era_block != NULL,
        climbs_to(nodes, x, lca),
    ensures
        nodes[lca].era_block != NULL,
        past_of(nodes, lca).union(seen_since(nodes, x, lca, past_of(nodes, lca))) == past_of(
            nodes,
            x,
        ),
    decreases nodes[x].data.sequence_number,
{
    let past = past_of(nodes, lca);
    if x == lca {
        assert(past.union(seen_since(nodes, x, lca, past)) =~= past);
    } else {
        let p = nodes[x].parent;
        assert(links_wf(nodes, nodes[x]));
        lemma_seen_since(nodes, p, lca);
        let above = seen_since(nodes, p, lca, past).insert(x);
        assert(past.union(above) =~= past_or_empty(nodes, p).insert(x));
        lemma_past_of_parent(nodes, x);
        lemma_past_closed(nodes, x);
        if nodes[x].data.blockset_cleared {
            lemma_fresh_past(nodes, x);
            assert(past.union(above.union(fresh_past(nodes, x, past.union(above)))) =~= past_of(
                nodes,
                x,
            ));
        } else {
            assert(epoch_complete(nodes, x));
            assert(past.union(
                above.union(nodes[x].data.blockset_in_own_view_of_epoch@.to_set()),
            ) =~= past_of(nodes, x));
        }
    }
}

/// Where the epochs of the era are complete, the blocks collected for the epoch of a block are the
/// past of the block without the past of its parent and without the block itself.
pub proof fn law_epoch_is_past_difference(
    nodes: Map<usize, ConsensusGraphNode>,
    pivot: usize,
    lca: usize,
)
    requires
        arena_wf(nodes),
        epochs_complete(nodes),
        nodes.contains_key(pivot),
        nodes[pivot].parent != NULL,
        nodes[nodes[pivot].parent].era_block != NULL,
        climbs_to(nodes, nodes[pivot].parent, lca),
    ensures
        epoch_blocks(nodes, pivot, lca, past_of(nodes, lca)) == past_of(nodes, pivot).difference(
            past_of(nodes, nodes[pivot].parent),
        ).remove(pivot),
{
    let p = nodes[pivot].parent;
    let past = past_of(nodes, lca);
    assert(links_wf(nodes, nodes[pivot]));
    lemma_seen_since(nodes, p, lca);
    let seen = seen_since(nodes, p, lca, past).insert(pivot);
    assert(past.union(seen) =~= past_or_empty(nodes, p).insert(pivot));
    lemma_fresh_past(nodes, pivot);
    assert(epoch_blocks(nodes, pivot, lca, past) =~= past_of(nodes, pivot).difference(
        past_of(nodes, p),
    ).remove(pivot));
}

impl ConsensusGraphInner {
    /// Whether the cached past sets are those of blocks, and are right.
    pub open spec fn pastsets_right(&self) -> bool {
        forall|x: usize| #[trigger]
            self.pastset_cache@.contains_key(x) ==> self.has(x) && self.pastset_cache@[x]
                == past_of(self.nodes(), x)
    }

    /// Where cached past sets are right and epochs are complete, the past set that is put together
    /// for a block is its past.
    pub proof fn law_pastset_is_past(&self, x: usize)
        requires
            self.wf(),
            self.has(x),
            !self.legacy(x),
            self.pastsets_right(),
            epochs_complete(self.nodes()),
        ensures
            self.pastset(x) == past_of(self.nodes(), x),
        decreases self.age(x),
    {
        let nodes = self.nodes();
        crate::graph::lemma_arena_ranked(nodes);
        if !self.pastset_cache@.contains_key(x) {
            assert(links_wf(nodes, nodes[x])) by {
                assert(nodes.contains_key(x));
            }
            let p = nodes[x].parent;
            if p != NULL {
                self.law_pastset_is_past(p);
            }
            assert(self.pastset(p) == past_or_empty(nodes, p));
            lemma_past_of_parent(nodes, x);
            lemma_past_closed(nodes, x);
            if nodes[x].data.blockset_cleared {
                lemma_outside_parent(nodes, x);
            } else {
                assert(nodes.contains_key(x));
                assert(epoch_complete(nodes, x));
            }
        }
    }

    /// Collecting the epoch of a block collects its past without the past of its parent, without
    /// the block itself, where cached past sets are right and epochs are complete.
    pub proof fn law_collected_epoch(&self, pivot: usize)
        requires
            self.wf(),
            self.has(pivot),
            self.pastsets_right(),
            epochs_complete(self.nodes()),
            self.node(pivot).parent != NULL,
            self.epoch_known(pivot),
        ensures
            self.collected_blocks(pivot) == past_of(self.nodes(), pivot).difference(
                past_of(self.nodes(), self.node(pivot).parent),
            ).remove(pivot),
    {
        self.lemma_epoch_start(pivot);
        let parent = self.node(pivot).parent;
        assert(links_wf(self.nodes(), self.node(pivot))) by {
            assert(self.nodes().contains_key(pivot));
        }
        lemma_seen_since(self.nodes(), parent, self.epoch_start(pivot));
        self.law_pastset_is_past(self.epoch_start(pivot));
        law_epoch_is_past_difference(self.nodes(), pivot, self.epoch_start(pivot));
    }
}

/// Links into the past lead to the parent, if there is one, and to each referee; links into the future
/// to each child and each referrer; and there are no others.
pub proof fn law_links(nodes: Map<usize, ConsensusGraphNode>, u: usize, v: usize)
    ensures
        is_pred(nodes, u, v) <==> (nodes[u].parent == v && v != usize::MAX) || exists|k: int|
            0 <= k < nodes[u].referees@.len() && #[trigger] nodes[u].referees@[k] == v,
        is_succ(nodes, u, v) <==> (exists|k: int|
            0 <= k < nodes[u].children@.len() && #[trigger] nodes[u].children@[k] == v) || (exists|
            k: int,
        |
            0 <= k < nodes[u].referrers@.len() && #[trigger] nodes[u].referrers@[k] == v),
{
}

/// The past of a block is the least set that holds the block, and with each block its parent, if there
/// is one, and all its referees.
pub proof fn law_past_is_least(nodes: Map<usize, ConsensusGraphNode>, v: usize, s: Set<usize>)
    requires
        s.contains(v),
        forall|u: usize| #[trigger]
            s.contains(u) ==> (nodes[u].parent != usize::MAX ==> s.contains(nodes[u].parent))
                && forall|k: int|
                0 <= k < nodes[u].referees@.len() ==> s.contains(#[trigger] nodes[u].referees@[k]),
    ensures
        past_of(nodes, v).contains(v),
        forall|u: usize| #[trigger]
            past_of(nodes, v).contains(u) ==> (nodes[u].parent != usize::MAX ==> past_of(
                nodes,
                v,
            ).contains(nodes[u].parent)) && forall|k: int|
                0 <= k < nodes[u].referees@.len() ==> past_of(nodes, v).contains(
                    #[trigger] nodes[u].referees@[k],
                ),
        past_of(nodes, v).subset_of(s),
{
    lemma_past_closed(nodes, v);
    assert forall|u: usize| #[trigger] past_of(nodes, v).contains(u) implies (nodes[u].parent
        != usize::MAX ==> past_of(nodes, v).contains(nodes[u].parent)) && forall|k: int|
        0 <= k < nodes[u].referees@.len() ==> past_of(nodes, v).contains(
            #[trigger] nodes[u].referees@[k],
        ) by {
        if nodes[u].parent != usize::MAX {
            assert(is_pred(nodes, u, nodes[u].parent));
        }
        assert forall|k: int| 0 <= k < nodes[u].referees@.len() implies past_of(nodes, v).contains(
            #[trigger] nodes[u].referees@[k],
        ) by {
            assert(is_pred(nodes, u, nodes[u].referees@[k]));
        }
    }
    assert(past_closed(nodes, s)) by {
        assert forall|a: usize, b: usize| s.contains(a) && #[trigger] is_pred(nodes, a, b) implies s.contains(
            b,
        ) by {
            if nodes[a].referees@.contains(b) {
                let k = choose|k: int| 0 <= k < nodes[a].referees@.len() && nodes[a].referees@[k]
                    == b;
                assert(s.contains(nodes[a].referees@[k]));
            }
        }
    }
    lemma_past_least(nodes, s, v);
}

} // verus!
