//! What holds once the pivot chain was set to a stable block.
use vstd::prelude::*;

use crate::graph::{all_nodes, arena_wf, links_wf, ConsensusGraphInner};
use crate::metadata::{pivot_sets, with_last_pivots};
use crate::node::{ConsensusGraphNode, ConsensusGraphNodeData};
use crate::order::lemma_not_in_past_of_parent;
use crate::past::{
    epoch_complete, epochs_complete, epochs_end, lemma_past_closed, lemma_past_least,
    lemma_past_of_parent, past_closed,
};
use crate::reach::{is_pred, past_of};
use crate::stable::{with_data, with_epoch_number};
use crate::topo::lemma_is_pred_older;
use crate::types::NULL;

verus! {

/// Whether two arenas have the same blocks with the same parents and referees.
pub open spec fn same_preds(
    nodes: Map<usize, ConsensusGraphNode>,
    other: Map<usize, ConsensusGraphNode>,
) -> bool {
    &&& other.dom() == nodes.dom()
    &&& forall|y: usize| #[trigger]
        nodes.contains_key(y) ==> other[y].parent == nodes[y].parent && other[y].referees
            == nodes[y].referees && other[y].era_block == nodes[y].era_block && other[y].height
            == nodes[y].height
}

/// What is in the past of a block in one arena is so in another with the same links.
proof fn lemma_past_in_other(
    nodes: Map<usize, ConsensusGraphNode>,
    other: Map<usize, ConsensusGraphNode>,
    v: usize,
)
    requires
        arena_wf(nodes),
        same_preds(nodes, other),
        nodes.contains_key(v),
    ensures
        past_of(nodes, v).subset_of(past_of(other, v)),
{
    let s = past_of(other, v).intersect(nodes.dom());
    lemma_past_closed(other, v);
    assert(past_closed(nodes, s)) by {
        assert forall|a: usize, b: usize|
            s.contains(a) && #[trigger] is_pred(nodes, a, b) implies s.contains(b) by {
            assert(nodes.contains_key(a));
            lemma_is_pred_older(nodes, a, b);
            assert(is_pred(other, a, b));
        }
    }
    lemma_past_least(nodes, s, v);
}

/// The past of a block depends on parents and referees alone.
pub proof fn lemma_same_past(
    nodes: Map<usize, ConsensusGraphNode>,
    other: Map<usize, ConsensusGraphNode>,
    v: usize,
)
    requires
        arena_wf(nodes),
        arena_wf(other),
        same_preds(nodes, other),
        nodes.contains_key(v),
    ensures
        past_of(other, v) == past_of(nodes, v),
{
    assert(other.dom().contains(v));
    assert(same_preds(other, nodes)) by {
        assert forall|y: usize| #[trigger] other.contains_key(y) implies other[y].parent
            == nodes[y].parent && other[y].referees == nodes[y].referees && other[y].era_block
            == nodes[y].era_block && other[y].height == nodes[y].height by {
            assert(other.dom().contains(y));
            assert(nodes.contains_key(y));
        }
    }
    lemma_past_in_other(nodes, other, v);
    lemma_past_in_other(other, nodes, v);
    assert(past_of(other, v) =~= past_of(nodes, v));
}

/// Whether two arenas list the same blocks for every epoch.
pub open spec fn same_epoch_lists(
    nodes: Map<usize, ConsensusGraphNode>,
    other: Map<usize, ConsensusGraphNode>,
) -> bool {
    forall|y: usize| #[trigger]
        nodes.contains_key(y) ==> {
            &&& other[y].data.blockset_cleared == nodes[y].data.blockset_cleared
            &&& other[y].data.blockset_in_own_view_of_epoch
                == nodes[y].data.blockset_in_own_view_of_epoch
            &&& other[y].data.ordered_executable_epoch_blocks
                == nodes[y].data.ordered_executable_epoch_blocks
        }
}

/// Epochs stay complete where links and lists stay.
proof fn lemma_same_epochs(
    nodes: Map<usize, ConsensusGraphNode>,
    other: Map<usize, ConsensusGraphNode>,
)
    requires
        arena_wf(nodes),
        arena_wf(other),
        same_preds(nodes, other),
        same_epoch_lists(nodes, other),
        epochs_complete(nodes),
        epochs_end(nodes),
    ensures
        epochs_complete(other),
        epochs_end(other),
{
    assert forall|x: usize| #[trigger]
        other.contains_key(x) && other[x].era_block != NULL implies {
        &&& other[x].parent != NULL ==> other[other[x].parent].era_block != NULL
        &&& if other[x].data.blockset_cleared {
                other[x].data.blockset_in_own_view_of_epoch@.len() == 0
            } else {
                epoch_complete(other, x)
            }
        &&& other[x].data.ordered_executable_epoch_blocks@.len() > 0
        &&& other[x].data.ordered_executable_epoch_blocks@.last() == x
    } by {
        assert(other.dom().contains(x));
        assert(nodes.contains_key(x));
        assert(links_wf(nodes, nodes[x]));
        lemma_same_past(nodes, other, x);
        if nodes[x].parent != NULL {
            assert(nodes.contains_key(nodes[x].parent));
            lemma_same_past(nodes, other, nodes[x].parent);
        }
    }
}

/// The past of a block of a line is in that of the later ones.
pub proof fn lemma_line_past(
    nodes: Map<usize, ConsensusGraphNode>,
    chain: Seq<usize>,
    i: int,
    j: int,
    x: usize,
)
    requires
        0 <= i <= j < chain.len(),
        forall|k: int| 0 <= k < chain.len() ==> #[trigger] chain[k] != NULL,
        forall|a: int, b: int|
            0 <= a && b == a + 1 && b < chain.len() ==> nodes[#[trigger] chain[b]].parent
                == #[trigger] chain[a],
        past_of(nodes, chain[i]).contains(x),
    ensures
        past_of(nodes, chain[j]).contains(x),
    decreases j - i,
{
    if i < j {
        lemma_line_past(nodes, chain, i, j - 1, x);
        assert(nodes[chain[j]].parent == chain[j - 1]);
        lemma_past_of_parent(nodes, chain[j]);
    }
}

/// Whether a block is one of the epoch of another.
pub open spec fn in_epoch_of(
    nodes: Map<usize, ConsensusGraphNode>,
    pivot: usize,
    x: usize,
) -> bool {
    x == pivot || nodes[pivot].data.blockset_in_own_view_of_epoch@.contains(x)
}

impl ConsensusGraphInner {
    /// Whether the blocks of a line are in the era and the first one has its epoch listed.
    pub open spec fn line_in_era(&self, chain: Seq<usize>) -> bool {
        &&& !self.node(chain[0]).data.blockset_cleared
        &&& forall|i: int|
            0 <= i < chain.len() ==> !self.legacy(#[trigger] chain[i])
    }

    /// Whether a state on the way along a line is right: epochs are complete, past sets are right,
    /// the epochs of the first `n` blocks are listed and numbered.
    spec fn numbered_up_to(&self, now: Self, chain: Seq<usize>, n: int) -> bool {
        &&& same_preds(self.nodes(), now.nodes())
        &&& epochs_complete(now.nodes())
        &&& epochs_end(now.nodes())
        &&& now.pastsets_right()
        &&& forall|i: int| 0 <= i < n ==> !now.node(#[trigger] chain[i]).data.blockset_cleared
        &&& forall|i: int, y: usize|
            0 <= i < n && #[trigger] in_epoch_of(now.nodes(), chain[i], y) ==> now.node(
                y,
            ).data.epoch_number == self.node(chain[i]).height
        &&& n == 0 ==> !now.node(chain[0]).data.blockset_cleared
    }

    /// A step along a line lists and numbers one more epoch.
    proof fn lemma_numbering_step(
        &self,
        now: Self,
        next: Self,
        chain: Seq<usize>,
        n: int,
        data: ConsensusGraphNodeData,
    )
        requires
            self.wf(),
            now.wf(),
            next.wf(),
            0 <= n < chain.len(),
            all_nodes(self.nodes(), chain),
            chain.no_duplicates(),
            self.node(chain[0]).parent == NULL,
            forall|a: int, b: int|
                0 <= a && b == a + 1 && b < chain.len() ==> self.node(#[trigger] chain[b]).parent
                    == #[trigger] chain[a],
            self.line_in_era(chain),
            self.numbered_up_to(now, chain, n),
            next.nodes() == with_epoch_number(
                with_data(now.nodes(), chain[n], data),
                chain[n],
                now.node(chain[n]).height,
            ),
            if now.node(chain[n]).data.blockset_cleared {
                &&& now.epoch_known(chain[n])
                &&& now.epoch_collected(chain[n], data)
                &&& next.pastset_cache@ == now.pastsets_after(chain[n])
            } else {
                data == now.node(chain[n]).data && next.pastset_cache@ == now.pastset_cache@
            },
        ensures
            self.numbered_up_to(next, chain, n + 1),
    {
        let index = chain[n];
        let nodes = now.nodes();
        let mid = with_data(nodes, index, data);
        let after = next.nodes();
        assert(self.nodes().contains_key(chain[n]));
        assert(nodes.dom().contains(index));
        assert(nodes.contains_key(index));
        assert(!self.legacy(chain[n]));
        if n > 0 {
            assert(self.node(chain[n]).parent == chain[n - 1]);
            assert(self.nodes().contains_key(chain[n - 1]));
        }
        if nodes[index].data.blockset_cleared {
            assert(n > 0);
            assert(nodes[index].parent != NULL);
            now.lemma_collect_keeps_epochs(index, data);
        } else {
            assert(mid =~= nodes);
        }
        assert(after.dom() =~= nodes.dom());
        assert(same_preds(nodes, after));
        assert(mid.dom() =~= nodes.dom());
        assert(same_preds(self.nodes(), after)) by {
            assert forall|y: usize| #[trigger] self.nodes().contains_key(y) implies after[y].parent
                == self.nodes()[y].parent && after[y].referees == self.nodes()[y].referees
                && after[y].era_block == self.nodes()[y].era_block && after[y].height
                == self.nodes()[y].height by {
                assert(nodes.dom().contains(y));
                assert(nodes.contains_key(y));
            }
        }
        // Epochs are complete.
        assert(epochs_complete(after) && epochs_end(after)) by {
            assert forall|x: usize| #[trigger]
                after.contains_key(x) && after[x].era_block != NULL implies {
                &&& after[x].parent != NULL ==> after[after[x].parent].era_block != NULL
                &&& if after[x].data.blockset_cleared {
                after[x].data.blockset_in_own_view_of_epoch@.len() == 0
            } else {
                epoch_complete(after, x)
            }
                &&& after[x].data.ordered_executable_epoch_blocks@.len() > 0
                &&& after[x].data.ordered_executable_epoch_blocks@.last() == x
            } by {
                assert(nodes.contains_key(x));
                assert(mid.contains_key(x));
                assert(links_wf(nodes, nodes[x]));
                lemma_same_past(nodes, after, x);
                if nodes[x].parent != NULL {
                    assert(nodes.contains_key(nodes[x].parent));
                    lemma_same_past(nodes, after, nodes[x].parent);
                }
                assert(past_of(mid, x) == past_of(nodes, x));
                assert(past_of(mid, nodes[x].parent) == past_of(nodes, nodes[x].parent));
            }
        }
        assert(next.pastsets_right()) by {
            assert forall|x: usize| #[trigger]
                next.pastset_cache@.contains_key(x) implies next.has(x)
                && next.pastset_cache@[x] == past_of(after, x) by {
                if nodes[index].data.blockset_cleared {
                    now.lemma_epoch_start(index);
                }
                assert(now.has(x));
                assert(nodes.contains_key(x));
                assert(after.dom().contains(x));
                lemma_same_past(nodes, after, x);
            }
        }
        assert forall|i: int| 0 <= i < n + 1 implies !next.node(
            #[trigger] chain[i],
        ).data.blockset_cleared by {
            assert(self.nodes().contains_key(chain[i]));
            assert(nodes.dom().contains(chain[i]));
        }
        assert forall|i: int, y: usize|
            0 <= i < n + 1 && #[trigger] in_epoch_of(after, chain[i], y) implies next.node(
            y,
        ).data.epoch_number == self.node(chain[i]).height by {
            assert(self.nodes().contains_key(chain[i]));
            assert(nodes.dom().contains(chain[i]));
            assert(nodes.contains_key(chain[i]));
            assert(after.contains_key(chain[i]));
            assert(links_wf(after, after[chain[i]]));
            if y != chain[i] {
                let list = after[chain[i]].data.blockset_in_own_view_of_epoch@;
                let k = choose|k: int| 0 <= k < list.len() && list[k] == y;
                assert(after.contains_key(list[k]));
            }
            assert(after.contains_key(y));
            if i < n {
                assert(in_epoch_of(nodes, chain[i], y));
                if in_epoch_of(mid, index, y) {
                    Self::lemma_epochs_apart(after, chain, i, n, y);
                }
            }
        }
    }

    /// A block of an epoch on a line is not in a later epoch.
    proof fn lemma_epochs_apart(
        after: Map<usize, ConsensusGraphNode>,
        chain: Seq<usize>,
        i: int,
        n: int,
        y: usize,
    )
        requires
            arena_wf(after),
            0 <= i < n < chain.len(),
            forall|k: int|
                0 <= k < chain.len() ==> #[trigger] chain[k] != NULL && after.contains_key(
                    chain[k],
                ) && after[chain[k]].era_block != NULL,
            forall|a: int, b: int|
                0 <= a && b == a + 1 && b < chain.len() ==> after[#[trigger] chain[b]].parent
                    == #[trigger] chain[a],
            epochs_complete(after),
            !after[chain[i]].data.blockset_cleared,
            !after[chain[n]].data.blockset_cleared,
            in_epoch_of(after, chain[i], y),
        ensures
            !in_epoch_of(after, chain[n], y),
    {
        assert(epoch_complete(after, chain[i]));
        assert(epoch_complete(after, chain[n]));
        lemma_past_closed(after, chain[i]);
        let first = after[chain[i]].data.blockset_in_own_view_of_epoch@;
        let second = after[chain[n]].data.blockset_in_own_view_of_epoch@;
        assert(first.to_set().contains(y) <==> first.contains(y));
        assert(second.to_set().contains(y) <==> second.contains(y));
        assert(past_of(after, chain[i]).contains(y));
        lemma_line_past(after, chain, i, n - 1, y);
        assert(after[chain[n]].parent == chain[n - 1]);
        lemma_not_in_past_of_parent(after, chain[n]);
    }

    /// Along a trace epochs are listed and numbered one after the other.
    proof fn lemma_trace_numbers(&self, x: usize, trace: Seq<Self>, n: int)
        requires
            self.wf(),
            self.has(x),
            self.follows_chain(self.line_to(x), trace),
            self.line_in_era(self.line_to(x)),
            epochs_complete(self.nodes()),
            epochs_end(self.nodes()),
            self.pastsets_right(),
            0 <= n < trace.len(),
        ensures
            self.numbered_up_to(trace[n], self.line_to(x), n),
        decreases n,
    {
        let chain = self.line_to(x);
        self.lemma_line(x);
        if n > 0 {
            self.lemma_trace_numbers(x, trace, n - 1);
            let now = trace[n - 1];
            let next = trace[n];
            assert(Self::epoch_numbered(now, next, chain[n - 1]));
            let index = chain[n - 1];
            let data = choose|data: ConsensusGraphNodeData|
                {
                    &&& next.nodes() == with_epoch_number(
                        #[trigger] with_data(now.nodes(), index, data),
                        index,
                        now.node(index).height,
                    )
                    &&& if now.node(index).data.blockset_cleared {
                        &&& now.epoch_known(index)
                        &&& now.epoch_collected(index, data)
                        &&& next.pastset_cache@ == now.pastsets_after(index)
                    } else {
                        data == now.node(index).data && next.pastset_cache@ == now.pastset_cache@
                    }
                };
            assert(now.wf() && next.wf());
            self.lemma_numbering_step(now, next, chain, n - 1, data);
        } else {
            assert(trace[0].nodes() == self.nodes());
            assert forall|y: usize| #[trigger]
                trace[0].pastset_cache@.contains_key(y) implies trace[0].has(y)
                && trace[0].pastset_cache@[y] == past_of(trace[0].nodes(), y) by {
                assert(self.pastset_cache@.contains_key(y));
                assert(self.has(y));
            }
        }
    }

    /// After the pivot chain was set to a stable block, each pivot block and every block of its
    /// epoch has the height of that pivot block as its epoch number. The epochs of all pivot
    /// blocks are listed and complete, and cached past sets are right.
    pub proof fn law_stable_epoch_numbers(&self, x: usize, after: Self)
        requires
            self.wf(),
            self.has(x),
            self.line_in_era(self.line_to(x)),
            epochs_complete(self.nodes()),
            epochs_end(self.nodes()),
            self.pastsets_right(),
            after.wf(),
            self.pivot_set_to(x, after),
        ensures
            forall|i: int, y: usize|
                0 <= i < after.pivot_chain@.len() && #[trigger] after.in_epoch_at(i, y)
                    ==> after.node(y).data.epoch_number == after.node(
                    after.pivot_chain@[i],
                ).height,
            after.pivot_chain_linked(),
            epochs_complete(after.nodes()),
            epochs_end(after.nodes()),
            after.pastsets_right(),
    {
        let chain = self.line_to(x);
        self.lemma_line(x);
        let trace = choose|trace: Seq<ConsensusGraphInner>|
            #[trigger] self.follows_chain(chain, trace) && after.nodes() == with_last_pivots(
                trace.last().nodes(),
                Map::new(
                    |y: usize| self.has(y),
                    |y: usize|
                        if chain.contains(y) {
                            (self.cur_era_genesis_height + chain.index_of(y)) as u64
                        } else {
                            trace.last().node(y).last_pivot_in_past
                        },
                ),
            ) && after.pastset_cache == trace.last().pastset_cache;
        let n = chain.len() as int;
        self.lemma_trace_numbers(x, trace, n);
        let end = trace[n];
        assert(end.wf());
        assert(after.nodes().dom() =~= end.nodes().dom());
        assert(same_preds(end.nodes(), after.nodes()));
        assert(same_epoch_lists(end.nodes(), after.nodes()));
        lemma_same_epochs(end.nodes(), after.nodes());
        assert forall|i: int| 0 <= i < chain.len() implies after.has(#[trigger] chain[i])
            && end.has(chain[i]) && after.node(chain[i]).height == self.node(chain[i]).height
            && after.node(chain[i]).parent == self.node(chain[i]).parent && !after.legacy(chain[i])
            && !after.node(chain[i]).data.blockset_cleared by {
            assert(self.nodes().contains_key(chain[i]));
            assert(end.nodes().dom().contains(chain[i]));
            assert(end.nodes().contains_key(chain[i]));
            assert(!self.legacy(chain[i]));
        }
        assert forall|i: int, y: usize|
            0 <= i < chain.len() && #[trigger] after.in_epoch_at(i, y) implies after.node(
            y,
        ).data.epoch_number == after.node(chain[i]).height by {
            assert(after.has(chain[i]));
            assert(after.nodes().contains_key(chain[i]));
            assert(links_wf(after.nodes(), after.node(chain[i])));
            if y != chain[i] {
                let list = after.node(chain[i]).data.blockset_in_own_view_of_epoch@;
                let k = choose|k: int| 0 <= k < list.len() && list[k] == y;
                assert(after.nodes().contains_key(list[k]));
            }
            assert(after.nodes().contains_key(y));
            assert(end.nodes().contains_key(chain[i]));
            assert(in_epoch_of(end.nodes(), chain[i], y));
        }
        assert forall|y: usize| #[trigger] after.pastset_cache@.contains_key(y) implies after.has(y)
            && after.pastset_cache@[y] == past_of(after.nodes(), y) by {
            assert(end.has(y));
            assert(end.nodes().contains_key(y));
            assert(after.nodes().contains_key(y));
            lemma_same_past(end.nodes(), after.nodes(), y);
        }
    }

    /// Setting the pivot chain to a stable block makes each pivot block its own last pivot block, with
    /// it alone at its position, and leaves the last pivot blocks of all others as they were. No
    /// anticone is cached after it. A block that is in no epoch of the pivot chain stays as it was.
    pub proof fn law_stable_metadata(&self, x: usize, after: Self, y: usize)
        requires
            self.wf(),
            self.has(x),
            self.has(y),
            self.pivot_set_to(x, after),
            self.cur_era_genesis_height + self.line_to(x).len() <= u64::MAX,
        ensures
            after.nodes().dom() == self.nodes().dom(),
            forall|i: int|
                0 <= i < after.pivot_chain@.len() ==> after.node(
                    #[trigger] after.pivot_chain@[i],
                ).last_pivot_in_past == self.cur_era_genesis_height + i,
            after.pivot_chain_metadata@.len() == after.pivot_chain@.len(),
            forall|i: int, z: usize|
                0 <= i < after.pivot_chain@.len() ==> (
                #[trigger] after.pivot_chain_metadata@[i].last_pivot_in_past_blocks@.contains(z)
                    <==> z == after.pivot_chain@[i]),
            !after.pivot_chain@.contains(y) ==> after.node(y).last_pivot_in_past == self.node(
                y,
            ).last_pivot_in_past,
            after.anticone_cache@.dom().is_empty(),
            (forall|i: int|
                0 <= i < after.pivot_chain@.len() ==> !#[trigger] after.in_epoch_at(i, y))
                ==> after.node(y) == self.node(y),
    {
        let chain = self.line_to(x);
        self.lemma_line(x);
        let trace = choose|trace: Seq<ConsensusGraphInner>|
            {
                &&& #[trigger] self.follows_chain(chain, trace)
                &&& after.nodes() == with_last_pivots(
                    trace.last().nodes(),
                    Map::new(
                        |z: usize| self.has(z),
                        |z: usize|
                            if chain.contains(z) {
                                (self.cur_era_genesis_height + chain.index_of(z)) as u64
                            } else {
                                trace.last().node(z).last_pivot_in_past
                            },
                    ),
                )
                &&& after.pivot_chain@ == chain
                &&& pivot_sets(after.pivot_chain_metadata@) == Seq::new(
                    chain.len(),
                    |j: int| set![chain[j]],
                )
                &&& after.anticone_cache@ == Map::<usize, Seq<usize>>::empty()
            };
        let n = chain.len() as int;
        let end = trace[n];
        assert(trace.last() == end);
        self.lemma_trace_links(chain, trace, n);
        assert(after.nodes().dom() =~= self.nodes().dom());
        assert forall|i: int| 0 <= i < chain.len() implies after.node(
            #[trigger] chain[i],
        ).last_pivot_in_past == self.cur_era_genesis_height + i by {
            assert(self.nodes().contains_key(chain[i]));
            assert(self.has(chain[i]));
            assert(end.nodes().dom().contains(chain[i]));
            assert(chain.contains(chain[i]));
            assert(chain.index_of(chain[i]) == i);
        }
        let sets = pivot_sets(after.pivot_chain_metadata@);
        assert(sets.len() == chain.len());
        assert forall|i: int, z: usize| 0 <= i < chain.len() implies (
        #[trigger] after.pivot_chain_metadata@[i].last_pivot_in_past_blocks@.contains(z) <==> z
            == chain[i]) by {
            assert(sets[i] == set![chain[i]]);
        }
        assert(self.nodes().contains_key(y));
        assert(end.nodes().dom().contains(y));
        assert(after.nodes().contains_key(y));
        assert(after.anticone_cache@.dom() =~= Set::empty());
        if forall|i: int| 0 <= i < chain.len() ==> !#[trigger] after.in_epoch_at(i, y) {
            assert forall|i: int| 0 <= i < n implies !in_epoch_of(
                trace[i + 1].nodes(),
                #[trigger] chain[i],
                y,
            ) by {
                self.lemma_trace_epoch_kept(chain, trace, i, n);
                assert(!after.in_epoch_at(i, y));
                assert(self.nodes().contains_key(chain[i]));
                assert(end.nodes().dom().contains(chain[i]));
                assert(after.nodes().contains_key(chain[i]));
            }
            self.lemma_trace_rest(chain, trace, n, y);
            assert(!chain.contains(y)) by {
                if chain.contains(y) {
                    let i = choose|i: int| 0 <= i < chain.len() && chain[i] == y;
                    assert(!after.in_epoch_at(i, y));
                }
            }
        }
    }

    /// Numbering later epochs leaves the list of an epoch alone.
    proof fn lemma_trace_epoch_kept(&self, chain: Seq<usize>, trace: Seq<Self>, i: int, n: int)
        requires
            self.follows_chain(chain, trace),
            all_nodes(self.nodes(), chain),
            chain.no_duplicates(),
            0 <= i < n < trace.len(),
        ensures
            trace[n].node(chain[i]).data.blockset_in_own_view_of_epoch == trace[i + 1].node(
                chain[i],
            ).data.blockset_in_own_view_of_epoch,
        decreases n - i,
    {
        if n > i + 1 {
            self.lemma_trace_epoch_kept(chain, trace, i, n - 1);
            self.lemma_trace_links(chain, trace, n - 1);
            assert(Self::epoch_numbered(trace[n - 1], trace[n], chain[n - 1]));
            assert(self.nodes().contains_key(chain[n - 1]));
            assert(self.nodes().contains_key(chain[i]));
            assert(trace[n - 1].nodes().dom().contains(chain[i]));
            assert(trace[n - 1].nodes().dom().contains(chain[n - 1]));
            assert(chain[i] != chain[n - 1]);
        }
    }

    /// A block that is in none of the epochs stays as it was.
    proof fn lemma_trace_rest(&self, chain: Seq<usize>, trace: Seq<Self>, n: int, y: usize)
        requires
            self.follows_chain(chain, trace),
            all_nodes(self.nodes(), chain),
            self.has(y),
            0 <= n < trace.len(),
            forall|i: int|
                0 <= i < n ==> !in_epoch_of(trace[i + 1].nodes(), #[trigger] chain[i], y),
        ensures
            trace[n].node(y) == self.node(y),
        decreases n,
    {
        if n > 0 {
            self.lemma_trace_rest(chain, trace, n - 1, y);
            self.lemma_trace_links(chain, trace, n - 1);
            let before = trace[n - 1];
            let index = chain[n - 1];
            assert(Self::epoch_numbered(before, trace[n], index));
            let data = choose|data: ConsensusGraphNodeData|
                trace[n].nodes() == with_epoch_number(
                    #[trigger] with_data(before.nodes(), index, data),
                    index,
                    before.node(index).height,
                );
            assert(self.nodes().contains_key(chain[n - 1]));
            assert(before.nodes().dom().contains(index));
            assert(before.nodes().dom().contains(y));
            let mid = with_data(before.nodes(), index, data);
            assert(mid.contains_key(y) && mid.contains_key(index));
            assert(trace[(n - 1) + 1] == trace[n]);
            assert(!in_epoch_of(trace[(n - 1) + 1].nodes(), chain[n - 1], y));
            assert(trace[n].nodes()[index].data.blockset_in_own_view_of_epoch
                == mid[index].data.blockset_in_own_view_of_epoch);
        }
    }
}

/// Giving an epoch a number gives it to the pivot block and to the blocks that are listed for its
/// epoch, and changes nothing else.
pub proof fn law_epoch_number_is_given(
    nodes: Map<usize, ConsensusGraphNode>,
    pivot: usize,
    epoch_number: u64,
    x: usize,
)
    requires
        nodes.contains_key(x),
    ensures
        ({
            let after = with_epoch_number(nodes, pivot, epoch_number);
            let listed = nodes[pivot].data.blockset_in_own_view_of_epoch@.contains(x);
            &&& after.dom() == nodes.dom()
            &&& x == pivot || listed ==> after[x].data.epoch_number == epoch_number
            &&& x != pivot && !listed ==> after[x] == nodes[x]
            &&& after[x] == (ConsensusGraphNode {
                data: ConsensusGraphNodeData {
                    epoch_number: after[x].data.epoch_number,
                    ..nodes[x].data
                },
                ..nodes[x]
            })
        }),
{
    assert(with_epoch_number(nodes, pivot, epoch_number).dom() =~= nodes.dom());
}

} // verus!
