//! Epoch numbers, and following the pivot chain of an earlier run.
use std::collections::HashSet;

use vstd::prelude::*;

use crate::caches::AnticoneCache;
use crate::graph::{all_nodes, links_wf, same_graph, same_links, ConsensusGraphInner};
use crate::index_set::index_limit;
use crate::lists::reversed;
use crate::metadata::{pivot_sets, with_last_pivots};
use crate::node::{arena_get, arena_get_mut, ConsensusGraphNode, ConsensusGraphNodeData};
use crate::reach::{lemma_nodes_count, lemma_push_contains};
use crate::types::{H256, NULL, NULLU64};

verus! {

broadcast use vstd::std_specs::hash::group_hash_axioms;

/// The nodes after the blocks of the epoch of a block, and the block, were given an epoch number.
pub open spec fn with_epoch_number(
    nodes: Map<usize, ConsensusGraphNode>,
    pivot: usize,
    epoch_number: u64,
) -> Map<usize, ConsensusGraphNode> {
    Map::new(
        |i: usize| nodes.contains_key(i),
        |i: usize|
            if i == pivot || nodes[pivot].data.blockset_in_own_view_of_epoch@.contains(i) {
                ConsensusGraphNode {
                    data: ConsensusGraphNodeData { epoch_number, ..nodes[i].data },
                    ..nodes[i]
                }
            } else {
                nodes[i]
            },
    )
}

impl ConsensusGraphInner {
    /// Gives the blocks of the epoch of a block, and the block, an epoch number.
    pub fn set_epoch_number_in_epoch(&mut self, pivot_arena_index: usize, epoch_number: u64)
        requires
            old(self).wf(),
            old(self).has(pivot_arena_index),
            !old(self).node(pivot_arena_index).data.blockset_cleared,
        ensures
            final(self).wf(),
            final(self).nodes() == with_epoch_number(
                old(self).nodes(),
                pivot_arena_index,
                epoch_number,
            ),
            *final(self) == (ConsensusGraphInner { arena: final(self).arena, ..*old(self) }),
    {
        let ghost before = *self;
        let block_set: Vec<usize> = crate::block_data::copy_indices(
            &arena_get(&self.arena, pivot_arena_index).data.blockset_in_own_view_of_epoch,
        );
        assert(links_wf(before.nodes(), before.node(pivot_arena_index))) by {
            assert(before.nodes().contains_key(pivot_arena_index));
        }
        let mut i: usize = 0;
        while i < block_set.len()
            invariant
                i <= block_set.len(),
                all_nodes(before.nodes(), block_set@),
                *self == (ConsensusGraphInner { arena: self.arena, ..before }),
                self.nodes().dom() == before.nodes().dom(),
                forall|y: usize| #[trigger]
                    before.has(y) ==> self.node(y) == (if block_set@.take(i as int).contains(y) {
                        ConsensusGraphNode {
                            data: ConsensusGraphNodeData { epoch_number, ..before.node(y).data },
                            ..before.node(y)
                        }
                    } else {
                        before.node(y)
                    }),
            decreases block_set.len() - i,
        {
            let x: usize = block_set[i];
            assert(before.nodes().contains_key(block_set@[i as int]));
            assert(before.has(x));
            assert(self.nodes().dom().contains(x));
            arena_get_mut(&mut self.arena, x).data.epoch_number = epoch_number;
            proof {
                assert(self.nodes().dom() =~= before.nodes().dom());
                assert(block_set@.take(i + 1) =~= block_set@.take(i as int).push(x));
                lemma_push_contains(block_set@.take(i as int), x);
            }
            i = i + 1;
        }
        assert(block_set@.take(i as int) =~= block_set@);
        assert(self.nodes().dom().contains(pivot_arena_index));
        let ghost mid = *self;
        arena_get_mut(&mut self.arena, pivot_arena_index).data.epoch_number = epoch_number;
        proof {
            assert(before.has(pivot_arena_index));
            assert(self.nodes() =~= with_epoch_number(
                before.nodes(),
                pivot_arena_index,
                epoch_number,
            )) by {
                assert forall|y: usize| #[trigger] before.nodes().contains_key(y) implies
                    self.nodes()[y] == with_epoch_number(
                    before.nodes(),
                    pivot_arena_index,
                    epoch_number,
                )[y] by {
                    assert(before.has(y));
                    assert(mid.node(y) == mid.node(y));
                }
            }
            assert(self.nodes().dom() =~= before.nodes().dom());
            assert(same_graph(before.nodes(), self.nodes())) by {
                assert forall|y: usize| #[trigger] self.nodes().contains_key(y) implies same_links(
                    before.nodes()[y],
                    self.nodes()[y],
                ) by {
                    assert(before.nodes().contains_key(y));
                }
            }
            before.lemma_wf_same(self);
        }
    }

    /// Takes the epoch number from the blocks of the epoch of a block, and from the block.
    pub fn reset_epoch_number_in_epoch(&mut self, pivot_arena_index: usize)
        requires
            old(self).wf(),
            old(self).has(pivot_arena_index),
            !old(self).node(pivot_arena_index).data.blockset_cleared,
        ensures
            final(self).wf(),
            final(self).nodes() == with_epoch_number(
                old(self).nodes(),
                pivot_arena_index,
                NULLU64,
            ),
            *final(self) == (ConsensusGraphInner { arena: final(self).arena, ..*old(self) }),
    {
        self.set_epoch_number_in_epoch(pivot_arena_index, NULLU64);
    }

    /// The blocks from the root of the tree of `x` down to `x`.
    pub open spec fn line_to(&self, x: usize) -> Seq<usize>
        decreases self.age(x),
    {
        let parent = self.node(x).parent;
        if parent == NULL || self.age(parent) >= self.age(x) {
            seq![x]
        } else {
            self.line_to(parent).push(x)
        }
    }

    /// A line holds nodes, each once, each before its children.
    pub proof fn lemma_line(&self, x: usize)
        requires
            self.wf(),
            self.has(x),
        ensures
            all_nodes(self.nodes(), self.line_to(x)),
            self.line_to(x).no_duplicates(),
            self.line_to(x).len() > 0,
            self.line_to(x).last() == x,
            self.line_to(x).len() <= index_limit(),
            self.node(self.line_to(x)[0]).parent == NULL,
            forall|i: int|
                0 <= i < self.line_to(x).len() ==> self.age(#[trigger] self.line_to(x)[i])
                    <= self.age(x),
            forall|i: int, j: int|
                0 <= i && j == i + 1 && j < self.line_to(x).len() ==> self.node(
                    #[trigger] self.line_to(x)[j],
                ).parent == #[trigger] self.line_to(x)[i],
        decreases self.age(x),
    {
        assert(self.nodes().contains_key(x));
        let parent = self.node(x).parent;
        if parent != NULL {
            self.lemma_line(parent);
        }
        lemma_nodes_count(self.nodes(), self.line_to(x));
    }

    fn collect_line(&self, x: usize) -> (r: Vec<usize>)
        requires
            self.wf(),
            self.has(x),
        ensures
            r@ == self.line_to(x),
    {
        let mut back: Vec<usize> = Vec::new();
        let mut cur: usize = x;
        while cur != NULL
            invariant
                self.wf(),
                cur == NULL || self.has(cur),
                self.line_to(x) == (if cur == NULL {
                    seq![]
                } else {
                    self.line_to(cur)
                }) + back@.reverse(),
            decreases (if cur == NULL { 0int } else { self.age(cur) as int + 1 }),
        {
            assert(self.nodes().contains_key(cur));
            let ghost before = back@;
            back.push(cur);
            assert(back@.reverse() =~= seq![cur] + before.reverse());
            let next: usize = arena_get(&self.arena, cur).parent;
            assert(self.line_to(x) =~= (if next == NULL {
                seq![]
            } else {
                self.line_to(next)
            }) + back@.reverse());
            cur = next;
        }
        assert(self.line_to(x) =~= back@.reverse());
        reversed(&back)
    }

    /// Whether `after` comes from `before` by collecting the epoch of a block, if it was cleared,
    /// and giving its blocks the height of the block as their epoch number.
    pub open spec fn epoch_numbered(before: Self, after: Self, index: usize) -> bool {
        exists|data: ConsensusGraphNodeData|
            {
                &&& after.nodes() == with_epoch_number(
                    #[trigger] with_data(before.nodes(), index, data),
                    index,
                    before.node(index).height,
                )
                &&& if before.node(index).data.blockset_cleared {
                    &&& before.epoch_known(index)
                    &&& before.epoch_collected(index, data)
                    &&& after.pastset_cache@ == before.pastsets_after(index)
                } else {
                    data == before.node(index).data && after.pastset_cache@
                        == before.pastset_cache@
                }
            }
    }

    /// Whether a list of states leads along a chain: in each state one more block has become the
    /// tip of the pivot chain, and between two states the epoch of the tip is collected, if needed,
    /// and numbered.
    pub open spec fn follows_chain(&self, chain: Seq<usize>, trace: Seq<Self>) -> bool {
        &&& trace.len() == chain.len() + 1
        &&& trace[0].nodes() == self.nodes()
        &&& trace[0].pastset_cache@ == self.pastset_cache@
        &&& forall|i: int|
            0 <= i < trace.len() ==> {
                &&& #[trigger] trace[i] == (ConsensusGraphInner {
                    arena: trace[i].arena,
                    pivot_chain: trace[i].pivot_chain,
                    pastset_cache: trace[i].pastset_cache,
                    ..*self
                })
                &&& trace[i].wf()
                &&& trace[i].pivot_chain@ == chain.take(
                    if i < chain.len() {
                        i + 1
                    } else {
                        i
                    },
                )
            }
        &&& forall|i: int, j: int|
            0 <= i && j == i + 1 && j < trace.len() ==> Self::epoch_numbered(
                #[trigger] trace[i],
                #[trigger] trace[j],
                chain[i],
            )
    }

    /// Collects the epoch of a block, if it was cleared, and numbers it.
    fn number_epoch(&mut self, index: usize)
        requires
            old(self).wf(),
            old(self).has(index),
            old(self).node(index).data.blockset_cleared ==> old(self).epoch_known(index),
        ensures
            final(self).wf(),
            Self::epoch_numbered(*old(self), *final(self), index),
            final(self).nodes().dom() == old(self).nodes().dom(),
            forall|y: usize| #[trigger]
                old(self).has(y) ==> final(self).node(y) == (ConsensusGraphNode {
                    data: final(self).node(y).data,
                    ..old(self).node(y)
                }) && (final(self).node(y).data.blockset_cleared ==> old(
                    self,
                ).node(y).data.blockset_cleared),
            *final(self) == (ConsensusGraphInner {
                arena: final(self).arena,
                pastset_cache: final(self).pastset_cache,
                ..*old(self)
            }),
    {
        let ghost before = *self;
        if arena_get(&self.arena, index).data.blockset_cleared {
            self.collect_blockset_in_own_view_of_epoch(index);
        } else {
            assert(self.nodes() =~= with_data(before.nodes(), index, before.node(index).data));
        }
        let ghost data = self.node(index).data;
        assert(self.nodes() == with_data(before.nodes(), index, data));
        assert(self.nodes().dom() =~= before.nodes().dom());
        assert(self.has(index)) by {
            assert(self.nodes().dom().contains(index));
        }
        let height: u64 = arena_get(&self.arena, index).height;
        let ghost mid = *self;
        self.set_epoch_number_in_epoch(index, height);
        proof {
            assert(self.nodes().dom() =~= before.nodes().dom());
            assert forall|y: usize| #[trigger] before.has(y) implies self.node(y) == (
            ConsensusGraphNode { data: self.node(y).data, ..before.node(y) }) && (self.node(
                y,
            ).data.blockset_cleared ==> before.node(y).data.blockset_cleared) by {
                assert(mid.nodes().dom().contains(y));
            }
        }
    }

    /// Whether the pivot chain can be made to end in a block.
    pub open spec fn stable_ready(&self, x: usize) -> bool {
        &&& forall|i: int|
            0 < i < self.line_to(x).len() && self.node(
                #[trigger] self.line_to(x)[i],
            ).data.blockset_cleared ==> {
                &&& self.in_tree_or_legacy(self.line_to(x)[i])
                &&& self.in_tree_or_legacy(self.node(self.line_to(x)[i]).parent)
                &&& self.common_ancestor(
                    self.line_to(x)[i],
                    self.node(self.line_to(x)[i]).parent,
                ) != NULL
            }
        &&& self.cur_era_genesis_height + self.line_to(x).len() <= u64::MAX
    }

    /// Makes the blocks of a line the pivot chain, one after the other.
    fn follow_line(&mut self, chain: &Vec<usize>, Ghost(x): Ghost<usize>) -> (trace: Ghost<
        Seq<ConsensusGraphInner>,
    >)
        requires
            old(self).wf(),
            old(self).has(x),
            chain@ == old(self).line_to(x),
            old(self).stable_ready(x),
        ensures
            final(self).wf(),
            old(self).follows_chain(chain@, trace@),
            *final(self) == trace@.last(),
            final(self).nodes().dom() == old(self).nodes().dom(),
    {
        let ghost before = *self;
        proof {
            before.lemma_line(x);
        }
        let ghost mut trace: Seq<ConsensusGraphInner> = seq![];
        self.pivot_chain.clear();
        let mut i: usize = 0;
        assert(chain@.take(0) =~= seq![]);
        while i < chain.len()
            invariant
                i <= chain.len(),
                before == *old(self),
                before.wf(),
                before.has(x),
                chain@ == before.line_to(x),
                before.stable_ready(x),
                chain@.len() > 0,
                all_nodes(before.nodes(), chain@),
                i > 0 ==> self.wf(),
                self.pivot_chain@ == chain@.take(i as int),
                self.nodes().dom() == before.nodes().dom(),
                i == 0 ==> self.nodes() == before.nodes() && self.pastset_cache@
                    == before.pastset_cache@,
                *self == (ConsensusGraphInner {
                    arena: self.arena,
                    pivot_chain: self.pivot_chain,
                    pastset_cache: self.pastset_cache,
                    ..before
                }),
                forall|y: usize| #[trigger]
                    before.has(y) ==> self.node(y) == (ConsensusGraphNode {
                        data: self.node(y).data,
                        ..before.node(y)
                    }) && (self.node(y).data.blockset_cleared
                        ==> before.node(y).data.blockset_cleared),
                trace.len() == i,
                i > 0 ==> trace[0].nodes() == before.nodes() && trace[0].pastset_cache@
                    == before.pastset_cache@,
                forall|k: int|
                    0 <= k < i ==> {
                        &&& #[trigger] trace[k] == (ConsensusGraphInner {
                            arena: trace[k].arena,
                            pivot_chain: trace[k].pivot_chain,
                            pastset_cache: trace[k].pastset_cache,
                            ..before
                        })
                        &&& trace[k].wf()
                        &&& trace[k].pivot_chain@ == chain@.take(k + 1)
                    },
                forall|k: int, j: int|
                    0 <= k && j == k + 1 && j < i ==> Self::epoch_numbered(
                        #[trigger] trace[k],
                        #[trigger] trace[j],
                        chain@[k],
                    ),
                i > 0 ==> Self::epoch_numbered(trace[i - 1], *self, chain@[i - 1]),
            decreases chain.len() - i,
        {
            let index: usize = chain[i];
            let ghost prior = *self;
            assert(before.nodes().contains_key(chain@[i as int]));
            assert(before.has(index));
            self.pivot_chain.push(index);
            proof {
                assert(self.pivot_chain@ =~= chain@.take(i + 1));
                before.lemma_line_wf(prior, self, chain@, i as int);
                assert(self.nodes().dom().contains(index));
                if i > 0 {
                    assert(before.node(before.line_to(x)[i as int]).parent == before.line_to(
                        x,
                    )[i - 1]) by {
                        before.lemma_line(x);
                    }
                    let parent = before.node(index).parent;
                    assert(before.nodes().contains_key(chain@[i - 1]));
                    assert(before.has(parent));
                    before.lemma_same_ancestor(self, index, parent);
                } else {
                    before.lemma_line(x);
                }
                trace = trace.push(*self);
            }
            let ghost pushed = *self;
            self.number_epoch(index);
            proof {
                assert forall|y: usize| #[trigger] before.has(y) implies self.node(y) == (
                ConsensusGraphNode { data: self.node(y).data, ..before.node(y) }) && (self.node(
                    y,
                ).data.blockset_cleared ==> before.node(y).data.blockset_cleared) by {
                    assert(pushed.nodes().dom().contains(y));
                    assert(pushed.has(y));
                    assert(prior.node(y) == pushed.node(y));
                }
            }
            i = i + 1;
        }
        proof {
            trace = trace.push(*self);
        }
        Ghost(trace)
    }

    /// Common ancestors do not depend on node data.
    proof fn lemma_same_ancestor(&self, other: &Self, a: usize, b: usize)
        requires
            self.has(a),
            self.has(b),
            other.weight_tree == self.weight_tree,
            forall|y: usize| #[trigger]
                self.has(y) ==> other.node(y).era_block == self.node(y).era_block,
        ensures
            other.common_ancestor(a, b) == self.common_ancestor(a, b),
            other.in_tree_or_legacy(a) == self.in_tree_or_legacy(a),
            other.in_tree_or_legacy(b) == self.in_tree_or_legacy(b),
    {
    }

    /// A pivot chain of nodes keeps the state well formed.
    proof fn lemma_line_wf(&self, prior: Self, other: &Self, chain: Seq<usize>, i: int)
        requires
            self.wf(),
            0 <= i < chain.len(),
            all_nodes(self.nodes(), chain),
            prior.nodes().dom() == self.nodes().dom(),
            i > 0 ==> prior.wf(),
            i == 0 ==> prior.nodes() == self.nodes(),
            prior == (ConsensusGraphInner {
                arena: prior.arena,
                pivot_chain: prior.pivot_chain,
                pastset_cache: prior.pastset_cache,
                ..*self
            }),
            *other == (ConsensusGraphInner { pivot_chain: other.pivot_chain, ..prior }),
            other.pivot_chain@ == chain.take(i + 1),
        ensures
            other.wf(),
    {
        assert forall|k: int| 0 <= k < other.pivot_chain@.len() implies prior.nodes().contains_key(
            #[trigger] other.pivot_chain@[k],
        ) by {
            assert(self.nodes().contains_key(chain[k]));
            assert(self.nodes().dom().contains(chain[k]));
        }
        if i > 0 {
            prior.lemma_wf_chains(other);
        } else {
            let mid = ConsensusGraphInner { pivot_chain: self.pivot_chain, ..prior };
            assert(same_graph(self.nodes(), mid.nodes()));
            self.lemma_wf_same(&mid);
            mid.lemma_wf_chains(other);
        }
    }

    /// Whether `after` is the state in which the pivot chain ends in `x`: the epochs on the line to
    /// `x` were collected, if needed, and numbered one after the other, each block of the line is
    /// its own last pivot block, and no anticone is cached.
    pub open spec fn pivot_set_to(&self, x: usize, after: Self) -> bool {
        let chain = self.line_to(x);
        exists|trace: Seq<ConsensusGraphInner>|
            {
                &&& #[trigger] self.follows_chain(chain, trace)
                &&& after.nodes() == with_last_pivots(
                    trace.last().nodes(),
                    Map::new(
                        |y: usize| self.has(y),
                        |y: usize|
                            if chain.contains(y) {
                                (self.cur_era_genesis_height + chain.index_of(y)) as u64
                            } else {
                                trace.last().node(y).last_pivot_in_past
                            },
                    ),
                )
                &&& after.pivot_chain@ == chain
                &&& after.pastset_cache == trace.last().pastset_cache
                &&& pivot_sets(after.pivot_chain_metadata@) == Seq::new(
                    chain.len(),
                    |j: int| set![chain[j]],
                )
                &&& after.anticone_cache@ == Map::<usize, Seq<usize>>::empty()
                &&& after == (ConsensusGraphInner {
                    arena: after.arena,
                    pivot_chain: after.pivot_chain,
                    pivot_chain_metadata: after.pivot_chain_metadata,
                    pastset_cache: after.pastset_cache,
                    anticone_cache: after.anticone_cache,
                    ..*self
                })
            }
    }

    /// Makes the pivot chain end in a stable block.
    pub fn set_pivot_to_stable(&mut self, stable: &H256)
        requires
            old(self).wf(),
            old(self).hash_to_arena_indices@.contains_key(*stable),
            old(self).stable_ready(old(self).hash_to_arena_indices@[*stable]),
        ensures
            final(self).wf(),
            old(self).pivot_set_to(old(self).hash_to_arena_indices@[*stable], *final(self)),
    {
        let ghost before = *self;
        let stable_index: usize = *self.hash_to_arena_indices.get(stable).unwrap();
        let new_pivot_chain: Vec<usize> = self.collect_line(stable_index);
        proof {
            before.lemma_line(stable_index);
        }
        let mut to_update: HashSet<usize> = HashSet::new();
        let mut i: usize = 0;
        while i < new_pivot_chain.len()
            invariant
                i <= new_pivot_chain.len(),
                forall|y: usize| #[trigger]
                    to_update@.contains(y) <==> new_pivot_chain@.take(i as int).contains(y),
            decreases new_pivot_chain.len() - i,
        {
            let y: usize = new_pivot_chain[i];
            to_update.insert(y);
            proof {
                assert(new_pivot_chain@.take(i + 1) =~= new_pivot_chain@.take(i as int).push(y));
                lemma_push_contains(new_pivot_chain@.take(i as int), y);
            }
            i = i + 1;
        }
        assert(new_pivot_chain@.take(i as int) =~= new_pivot_chain@);
        let trace = self.follow_line(&new_pivot_chain, Ghost(stable_index));
        let ghost numbered = *self;
        let ghost chain = new_pivot_chain@;
        assert(chain.take(chain.len() as int) =~= chain);
        assert(numbered.pivot_chain@ == chain) by {
            assert(trace@[chain.len() as int].pivot_chain@ == chain.take(chain.len() as int));
        }
        proof {
            numbered.lemma_whole_line(chain, to_update@);
        }
        let height: u64 = self.cur_era_genesis_height;
        self.recompute_metadata(height, to_update);
        let ghost recomputed = *self;
        self.anticone_cache = AnticoneCache::new();
        proof {
            assert(same_graph(recomputed.nodes(), self.nodes()));
            recomputed.lemma_wf_same(self);
            let heights = Map::new(
                |y: usize| before.has(y),
                |y: usize|
                    if chain.contains(y) {
                        (before.cur_era_genesis_height + chain.index_of(y)) as u64
                    } else {
                        trace@.last().node(y).last_pivot_in_past
                    },
            );
            assert(Map::new(
                |y: usize| numbered.has(y),
                |y: usize| numbered.new_last_pivot(height as int, to_update@, y),
            ) =~= heights) by {
                assert forall|y: usize| numbered.has(y) == before.has(y) by {
                    assert(numbered.nodes().dom().contains(y) == before.nodes().dom().contains(y));
                }
            }
            assert(before.follows_chain(chain, trace@));
        }
    }

    /// Where all blocks to update are the pivot chain, each is its own last pivot block.
    proof fn lemma_whole_line(&self, chain: Seq<usize>, to_update: Set<usize>)
        requires
            self.wf(),
            self.pivot_chain@ == chain,
            chain.no_duplicates(),
            forall|y: usize| #[trigger] to_update.contains(y) <==> chain.contains(y),
            self.pivot_height() <= u64::MAX,
        ensures
            self.metadata_ready(self.cur_era_genesis_height as int, to_update),
            forall|y: usize| #[trigger]
                self.new_last_pivot(self.cur_era_genesis_height as int, to_update, y) == (
                if chain.contains(y) {
                    (self.cur_era_genesis_height + chain.index_of(y)) as u64
                } else {
                    self.node(y).last_pivot_in_past
                }),
            self.new_pivot_sets(self.cur_era_genesis_height as int, to_update) == Seq::new(
                chain.len(),
                |j: int| set![chain[j]],
            ),
    {
        let g = self.cur_era_genesis_height as int;
        let updated = self.follows_preds(g, to_update);
        assert forall|y: usize| chain.contains(y) implies self.pivot_between(
            y,
            g,
            self.pivot_height(),
        ) by {
            assert(chain[chain.index_of(y)] == y);
        }
        assert(updated =~= Set::empty());
        assert forall|y: usize| to_update.contains(y) implies self.nodes().dom().contains(y) by {
            let k = choose|k: int| 0 <= k < chain.len() && chain[k] == y;
            assert(self.nodes().contains_key(self.pivot_chain@[k]));
        }
        let a = self.new_pivot_sets(g, to_update);
        let b = Seq::new(chain.len(), |j: int| set![chain[j]]);
        assert forall|j: int| 0 <= j < a.len() implies a[j] == b[j] by {
            assert(a[j] =~= b[j]);
        }
        assert(a =~= b);
    }

    /// Along a trace only node data change.
    pub proof fn lemma_trace_links(&self, chain: Seq<usize>, trace: Seq<Self>, n: int)
        requires
            self.follows_chain(chain, trace),
            all_nodes(self.nodes(), chain),
            0 <= n < trace.len(),
        ensures
            trace[n].nodes().dom() == self.nodes().dom(),
            forall|y: usize| #[trigger]
                self.has(y) ==> trace[n].node(y) == (ConsensusGraphNode {
                    data: trace[n].node(y).data,
                    ..self.node(y)
                }),
        decreases n,
    {
        if n > 0 {
            self.lemma_trace_links(chain, trace, n - 1);
            assert(Self::epoch_numbered(trace[n - 1], trace[n], chain[n - 1]));
            let x = chain[n - 1];
            assert(self.nodes().contains_key(chain[n - 1]));
            assert(trace[n - 1].nodes().dom().contains(x));
            assert(trace[n].nodes().dom() =~= trace[n - 1].nodes().dom());
            assert forall|y: usize| #[trigger] self.has(y) implies trace[n].node(y) == (
            ConsensusGraphNode { data: trace[n].node(y).data, ..self.node(y) }) by {
                assert(self.nodes().dom().contains(y));
            }
        }
    }

    /// After the pivot chain was set to a stable block, it ends in that block, starts at a block
    /// without a parent, and each of its blocks is the parent of the next one.
    pub proof fn law_stable_pivot_chain(&self, x: usize, after: Self)
        requires
            self.wf(),
            self.has(x),
            self.pivot_set_to(x, after),
        ensures
            after.pivot_chain@.len() > 0,
            after.pivot_chain@.last() == x,
            after.node(after.pivot_chain@[0]).parent == NULL,
            forall|i: int, j: int|
                0 <= i && j == i + 1 && j < after.pivot_chain@.len() ==> after.node(
                    #[trigger] after.pivot_chain@[j],
                ).parent == #[trigger] after.pivot_chain@[i],
    {
        let chain = self.line_to(x);
        self.lemma_line(x);
        let trace = choose|trace: Seq<ConsensusGraphInner>|
            #[trigger] self.follows_chain(chain, trace) && after.nodes() == with_last_pivots(
                trace.last().nodes(),
                Map::new(
                    |y: usize| self.has(y),
                    |y: usize|
                        if chain.contains(y) {
                            (self.cur_era_genesis_height + chain.index_of(y)) as u64
                        } else {
                            trace.last().node(y).last_pivot_in_past
                        },
                ),
            );
        self.lemma_trace_links(chain, trace, trace.len() - 1);
        assert forall|i: int| 0 <= i < chain.len() implies after.node(#[trigger] chain[i]).parent
            == self.node(chain[i]).parent by {
            assert(self.nodes().contains_key(chain[i]));
            assert(self.has(chain[i]));
            assert(trace.last().nodes().dom().contains(chain[i]));
        }
    }
}

/// The nodes with other data for one of them.
pub open spec fn with_data(
    nodes: Map<usize, ConsensusGraphNode>,
    index: usize,
    data: ConsensusGraphNodeData,
) -> Map<usize, ConsensusGraphNode> {
    nodes.insert(index, ConsensusGraphNode { data, ..nodes[index] })
}

} // verus!
