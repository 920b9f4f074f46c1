//! The last pivot block in the past of each block.
use std::collections::HashSet;

use vstd::prelude::*;

use crate::age::by_age;
use crate::graph::{all_nodes, same_graph, ConsensusGraphInner};
use crate::lists::set_items;
use crate::node::{arena_get, arena_get_mut, ConsensusGraphNode, ConsensusGraphPivotData};
use crate::reach::{lemma_push_contains, Direction};
use crate::timer::{lemma_older_before, lemma_pred_older, preds_of};
use crate::types::NULL;

verus! {

broadcast use vstd::std_specs::hash::group_hash_axioms;

/// The nodes with other last pivot blocks in their pasts.
pub open spec fn with_last_pivots(
    nodes: Map<usize, ConsensusGraphNode>,
    heights: Map<usize, u64>,
) -> Map<usize, ConsensusGraphNode> {
    Map::new(
        |i: usize| nodes.contains_key(i),
        |i: usize| ConsensusGraphNode { last_pivot_in_past: heights[i], ..nodes[i] },
    )
}

/// The blocks at each position of the pivot chain.
pub open spec fn pivot_sets(metadata: Seq<ConsensusGraphPivotData>) -> Seq<Set<usize>> {
    metadata.map_values(|d: ConsensusGraphPivotData| d.last_pivot_in_past_blocks@)
}

impl ConsensusGraphInner {
    fn set_last_pivot(&mut self, i: usize, height: u64)
        requires
            old(self).wf(),
            old(self).has(i),
        ensures
            final(self).wf(),
            final(self).nodes() == old(self).nodes().insert(
                i,
                ConsensusGraphNode { last_pivot_in_past: height, ..old(self).node(i) },
            ),
            *final(self) == (ConsensusGraphInner { arena: final(self).arena, ..*old(self) }),
    {
        arena_get_mut(&mut self.arena, i).last_pivot_in_past = height;
        proof {
            assert(self.nodes().dom() =~= old(self).nodes().dom());
            assert(same_graph(old(self).nodes(), self.nodes()));
            old(self).lemma_wf_same(self);
        }
    }

    /// Adds a block to those at a position of the pivot chain.
    fn add_to_pivot(&mut self, position: usize, i: usize)
        requires
            old(self).wf(),
            position < old(self).pivot_chain_metadata@.len(),
        ensures
            final(self).wf(),
            pivot_sets(final(self).pivot_chain_metadata@) == pivot_sets(
                old(self).pivot_chain_metadata@,
            ).update(
                position as int,
                pivot_sets(old(self).pivot_chain_metadata@)[position as int].insert(i),
            ),
            *final(self) == (ConsensusGraphInner {
                pivot_chain_metadata: final(self).pivot_chain_metadata,
                ..*old(self)
            }),
    {
        self.pivot_chain_metadata[position].last_pivot_in_past_blocks.insert(i);
        proof {
            assert(pivot_sets(self.pivot_chain_metadata@) =~= pivot_sets(
                old(self).pivot_chain_metadata@,
            ).update(
                position as int,
                pivot_sets(old(self).pivot_chain_metadata@)[position as int].insert(i),
            ));
            assert(same_graph(old(self).nodes(), self.nodes()));
            old(self).lemma_wf_same(self);
        }
    }

    /// Whether a block is on the pivot chain between two heights.
    pub open spec fn pivot_between(&self, p: usize, low: int, high: int) -> bool {
        self.pivot_chain@.contains(p) && low <= self.cur_era_genesis_height
            + self.pivot_chain@.index_of(p) < high
    }

    /// The last pivot block in the past of a block, where the pivot blocks between two heights are
    /// their own.
    pub open spec fn base_last_pivot(&self, low: int, high: int, p: usize) -> u64 {
        if self.pivot_between(p, low, high) {
            (self.cur_era_genesis_height + self.pivot_chain@.index_of(p)) as u64
        } else {
            self.node(p).last_pivot_in_past
        }
    }

    /// The height above the pivot chain.
    pub open spec fn pivot_height(&self) -> int {
        self.cur_era_genesis_height + self.pivot_chain@.len()
    }

    /// The blocks at each position of the pivot chain, where those between two heights start anew.
    pub open spec fn base_pivot_sets(&self, low: int, high: int) -> Seq<Set<usize>> {
        let before = pivot_sets(self.pivot_chain_metadata@);
        Seq::new(
            self.pivot_chain@.len(),
            |j: int|
                if low <= self.cur_era_genesis_height + j < high {
                    set![self.pivot_chain@[j]]
                } else if j < before.len() {
                    before[j]
                } else {
                    Set::empty()
                },
        )
    }

    /// Gives the metadata the length of the pivot chain.
    fn resize_metadata(&mut self)
        requires
            old(self).wf(),
        ensures
            final(self).wf(),
            pivot_sets(final(self).pivot_chain_metadata@) == old(self).base_pivot_sets(0, 0),
            *final(self) == (ConsensusGraphInner {
                pivot_chain_metadata: final(self).pivot_chain_metadata,
                ..*old(self)
            }),
    {
        let count: usize = self.pivot_chain.len();
        let ghost before = self.pivot_chain_metadata@;
        self.pivot_chain_metadata.truncate(count);
        while self.pivot_chain_metadata.len() < count
            invariant
                count == old(self).pivot_chain@.len(),
                before == old(self).pivot_chain_metadata@,
                self.pivot_chain_metadata@.len() <= count,
                before.len() >= count ==> self.pivot_chain_metadata@.len() == count,
                before.len() <= self.pivot_chain_metadata@.len()
                    || self.pivot_chain_metadata@.len() == count,
                *self == (ConsensusGraphInner {
                    pivot_chain_metadata: self.pivot_chain_metadata,
                    ..*old(self)
                }),
                forall|j: int|
                    0 <= j < self.pivot_chain_metadata@.len()
                        ==> #[trigger] self.pivot_chain_metadata@[j].last_pivot_in_past_blocks@ == (
                    if j < before.len() {
                        before[j].last_pivot_in_past_blocks@
                    } else {
                        Set::empty()
                    }),
            decreases count - self.pivot_chain_metadata.len(),
        {
            self.pivot_chain_metadata.push(ConsensusGraphPivotData::default());
        }
        proof {
            assert(pivot_sets(self.pivot_chain_metadata@) =~= old(self).base_pivot_sets(0, 0));
            assert(same_graph(old(self).nodes(), self.nodes()));
            old(self).lemma_wf_same(self);
        }
    }

    /// Makes the pivot blocks from a height on their own last pivot blocks.
    fn reset_pivots(&mut self, start_at: u64, to_update: &mut HashSet<usize>)
        requires
            old(self).wf(),
            old(self).pivot_chain@.no_duplicates(),
            old(self).pivot_height() <= u64::MAX,
            old(self).cur_era_genesis_height <= start_at || old(self).pivot_height() <= start_at,
        ensures
            final(self).wf(),
            final(self).nodes() == with_last_pivots(
                old(self).nodes(),
                Map::new(
                    |p: usize| old(self).has(p),
                    |p: usize|
                        old(self).base_last_pivot(
                            start_at as int,
                            old(self).pivot_height(),
                            p,
                        ),
                ),
            ),
            pivot_sets(final(self).pivot_chain_metadata@) == old(self).base_pivot_sets(
                start_at as int,
                old(self).pivot_height(),
            ),
            *final(self) == (ConsensusGraphInner {
                arena: final(self).arena,
                pivot_chain_metadata: final(self).pivot_chain_metadata,
                ..*old(self)
            }),
            forall|p: usize| #[trigger]
                final(to_update)@.contains(p) <==> old(to_update)@.contains(p) && !old(
                    self,
                ).pivot_between(p, start_at as int, old(self).pivot_height()),
    {
        let ghost start = *self;
        self.resize_metadata();
        let pivot_height: u64 = self.get_pivot_height();
        let mut i: u64 = start_at;
        proof {
            assert(self.nodes() =~= with_last_pivots(
                start.nodes(),
                Map::new(
                    |p: usize| start.has(p),
                    |p: usize| start.base_last_pivot(start_at as int, i as int, p),
                ),
            )) by {
                assert forall|p: usize| #[trigger] start.nodes().contains_key(p) implies
                    start.nodes()[p] == with_last_pivots(
                    start.nodes(),
                    Map::new(
                        |p: usize| start.has(p),
                        |p: usize| start.base_last_pivot(start_at as int, i as int, p),
                    ),
                )[p] by {
                    assert(start.has(p));
                }
            }
            assert(pivot_sets(self.pivot_chain_metadata@) =~= start.base_pivot_sets(
                start_at as int,
                i as int,
            ));
        }
        while i < pivot_height
            invariant
                start == *old(self),
                start.wf(),
                self.wf(),
                start.pivot_chain@.no_duplicates(),
                pivot_height == start.pivot_height(),
                start.cur_era_genesis_height <= start_at || pivot_height <= start_at,
                start_at <= i,
                i <= pivot_height || i == start_at,
                self.nodes() == with_last_pivots(
                    start.nodes(),
                    Map::new(
                        |p: usize| start.has(p),
                        |p: usize| start.base_last_pivot(start_at as int, i as int, p),
                    ),
                ),
                pivot_sets(self.pivot_chain_metadata@) == start.base_pivot_sets(
                    start_at as int,
                    i as int,
                ),
                *self == (ConsensusGraphInner {
                    arena: self.arena,
                    pivot_chain_metadata: self.pivot_chain_metadata,
                    ..start
                }),
                forall|p: usize| #[trigger]
                    to_update@.contains(p) <==> old(to_update)@.contains(p)
                        && !start.pivot_between(p, start_at as int, i as int),
            decreases pivot_height - i,
        {
            let me: usize = self.get_pivot_block_arena_index(i);
            let ghost j = i - start.cur_era_genesis_height;
            let ghost mid = *self;
            let count: usize = self.pivot_chain.len();
            assert(start.nodes().contains_key(start.pivot_chain@[j]));
            assert(self.has(me));
            self.set_last_pivot(me, i);
            assert(j < count);
            let position: usize = (i - self.cur_era_genesis_height) as usize;
            assert(pivot_sets(self.pivot_chain_metadata@).len() == start.pivot_chain@.len());
            let mut own: HashSet<usize> = HashSet::new();
            own.insert(me);
            let ghost before_sets = self.pivot_chain_metadata@;
            self.pivot_chain_metadata.set(
                position,
                ConsensusGraphPivotData { last_pivot_in_past_blocks: own },
            );
            to_update.remove(&me);
            proof {
                start.lemma_pivot_step(start_at as int, i as int);
                assert(own@ =~= set![me]);
                let next = Map::new(
                    |p: usize| start.has(p),
                    |p: usize| start.base_last_pivot(start_at as int, i + 1, p),
                );
                assert(self.nodes() =~= with_last_pivots(start.nodes(), next)) by {
                    assert forall|p: usize| #[trigger] start.nodes().contains_key(p) implies
                        self.nodes()[p] == with_last_pivots(start.nodes(), next)[p] by {
                        assert(start.has(p));
                    }
                }
                assert(pivot_sets(self.pivot_chain_metadata@) =~= start.base_pivot_sets(
                    start_at as int,
                    i + 1,
                )) by {
                    assert forall|q: int| 0 <= q < start.pivot_chain@.len() implies #[trigger] pivot_sets(
                        self.pivot_chain_metadata@,
                    )[q] == start.base_pivot_sets(start_at as int, i + 1)[q] by {
                        assert(pivot_sets(before_sets)[q] == start.base_pivot_sets(
                            start_at as int,
                            i as int,
                        )[q]);
                    }
                }
                assert(same_graph(mid.nodes(), self.nodes()));
                mid.lemma_wf_same(self);
            }
            i = i + 1;
        }
        proof {
            if i != pivot_height {
                assert forall|p: usize| start.base_last_pivot(start_at as int, i as int, p)
                    == start.base_last_pivot(start_at as int, pivot_height as int, p) by {}
                assert(Map::new(
                    |p: usize| start.has(p),
                    |p: usize| start.base_last_pivot(start_at as int, i as int, p),
                ) =~= Map::new(
                    |p: usize| start.has(p),
                    |p: usize| start.base_last_pivot(start_at as int, pivot_height as int, p),
                ));
                assert(start.base_pivot_sets(start_at as int, i as int) =~= start.base_pivot_sets(
                    start_at as int,
                    pivot_height as int,
                ));
            }
        }
    }

    /// One height more adds one pivot block.
    proof fn lemma_pivot_step(&self, low: int, high: int)
        requires
            self.pivot_chain@.no_duplicates(),
            self.cur_era_genesis_height <= low <= high < self.pivot_height(),
        ensures
            ({
                let me = self.pivot_chain@[high - self.cur_era_genesis_height];
                forall|p: usize| #[trigger]
                    self.pivot_between(p, low, high + 1) <==> self.pivot_between(p, low, high) || p
                        == me
            }),
            self.base_last_pivot(
                low,
                high + 1,
                self.pivot_chain@[high - self.cur_era_genesis_height],
            ) == high as u64,
    {
        let j = high - self.cur_era_genesis_height;
        let me = self.pivot_chain@[j];
        assert forall|p: usize| #[trigger] self.pivot_between(p, low, high + 1)
            <==> self.pivot_between(p, low, high) || p == me by {
            if p == me {
                assert(self.pivot_chain@.contains(p));
                assert(self.pivot_chain@[self.pivot_chain@.index_of(p)] == p);
                assert(self.pivot_chain@.index_of(p) == j);
            } else if self.pivot_between(p, low, high + 1) {
                assert(self.pivot_chain@[self.pivot_chain@.index_of(p)] == p);
            }
        }
        assert(self.pivot_chain@.contains(me));
        assert(self.pivot_chain@[self.pivot_chain@.index_of(me)] == me);
    }

    /// The blocks whose last pivot blocks are computed from their parents and referees: those to
    /// update in the era, other than the era genesis and the pivot blocks from a height on.
    pub open spec fn follows_preds(&self, start_at: int, to_update: Set<usize>) -> Set<usize> {
        Set::new(
            |x: usize|
                to_update.contains(x) && !self.pivot_between(x, start_at, self.pivot_height())
                    && self.node(x).era_block != NULL && x
                    != self.cur_era_genesis_block_arena_index,
        )
    }

    /// The greatest height that the first `k` of the parent and the referees of `x` give it.
    pub open spec fn last_pivot_from(
        &self,
        start_at: int,
        updated: Set<usize>,
        x: usize,
        k: nat,
    ) -> u64
        decreases self.age(x), k,
    {
        let preds = preds_of(self.nodes(), x);
        if k == 0 || k > preds.len() {
            0
        } else {
            let p = preds[k - 1];
            let before = self.last_pivot_from(start_at, updated, x, (k - 1) as nat);
            let own = if updated.contains(p) && self.age(p) < self.age(x) {
                self.last_pivot_from(start_at, updated, p, preds_of(self.nodes(), p).len())
            } else {
                self.base_last_pivot(start_at, self.pivot_height(), p)
            };
            if own > before {
                own
            } else {
                before
            }
        }
    }

    /// The height of the last pivot block in the past of a block: its own on the pivot chain, else
    /// the greatest of those of its parent and referees; unchanged for a block that is not to be
    /// updated.
    pub open spec fn new_last_pivot(&self, start_at: int, to_update: Set<usize>, x: usize) -> u64 {
        let updated = self.follows_preds(start_at, to_update);
        if updated.contains(x) {
            self.last_pivot_from(start_at, updated, x, preds_of(self.nodes(), x).len())
        } else {
            self.base_last_pivot(start_at, self.pivot_height(), x)
        }
    }

    /// The blocks at each position of the pivot chain after last pivot blocks were recomputed.
    pub open spec fn new_pivot_sets(&self, start_at: int, to_update: Set<usize>) -> Seq<
        Set<usize>,
    > {
        let updated = self.follows_preds(start_at, to_update);
        let base = self.base_pivot_sets(start_at, self.pivot_height());
        Seq::new(
            self.pivot_chain@.len(),
            |j: int|
                Set::new(
                    |x: usize|
                        base[j].contains(x) || (updated.contains(x) && self.new_last_pivot(
                            start_at,
                            to_update,
                            x,
                        ) == self.cur_era_genesis_height + j),
                ),
        )
    }

    /// Whether last pivot blocks can be recomputed.
    pub open spec fn metadata_ready(&self, start_at: int, to_update: Set<usize>) -> bool {
        &&& self.pivot_chain@.no_duplicates()
        &&& self.pivot_height() <= u64::MAX
        &&& self.cur_era_genesis_height <= start_at || self.pivot_height() <= start_at
        &&& to_update.subset_of(self.nodes().dom())
        &&& forall|x: usize| #[trigger]
            self.follows_preds(start_at, to_update).contains(x) ==> self.cur_era_genesis_height
                <= self.new_last_pivot(start_at, to_update, x) < self.pivot_height()
    }

    /// The height of the last pivot block in the past of a block, from those of its parent and
    /// referees.
    fn max_last_pivot(
        &self,
        x: usize,
        Ghost(start): Ghost<ConsensusGraphInner>,
        Ghost(start_at): Ghost<int>,
        Ghost(updated): Ghost<Set<usize>>,
    ) -> (r: u64)
        requires
            self.wf(),
            start.wf(),
            self.has(x),
            start.has(x),
            preds_of(self.nodes(), x) == preds_of(start.nodes(), x),
            forall|p: usize|
                start.has(p) && start.age(p) < start.age(x) ==> #[trigger] self.node(
                    p,
                ).last_pivot_in_past == (if updated.contains(p) {
                    start.last_pivot_from(
                        start_at,
                        updated,
                        p,
                        preds_of(start.nodes(), p).len(),
                    )
                } else {
                    start.base_last_pivot(start_at, start.pivot_height(), p)
                }),
        ensures
            r == start.last_pivot_from(start_at, updated, x, preds_of(start.nodes(), x).len()),
    {
        let preds: Vec<usize> = self.linked(Direction::Past, x);
        assert(preds@ == preds_of(self.nodes(), x));
        let mut last_pivot: u64 = 0;
        let mut k: usize = 0;
        while k < preds.len()
            invariant
                k <= preds.len(),
                self.wf(),
                start.wf(),
                start.has(x),
                preds@ == preds_of(start.nodes(), x),
                all_nodes(self.nodes(), preds@),
                forall|p: usize|
                    start.has(p) && start.age(p) < start.age(x) ==> #[trigger] self.node(
                        p,
                    ).last_pivot_in_past == (if updated.contains(p) {
                        start.last_pivot_from(
                            start_at,
                            updated,
                            p,
                            preds_of(start.nodes(), p).len(),
                        )
                    } else {
                        start.base_last_pivot(start_at, start.pivot_height(), p)
                    }),
                last_pivot == start.last_pivot_from(start_at, updated, x, k as nat),
            decreases preds.len() - k,
        {
            let p: usize = preds[k];
            proof {
                assert(self.nodes().contains_key(preds@[k as int]));
                lemma_pred_older(start.nodes(), x, k as int);
                assert(start.has(p));
            }
            let own: u64 = arena_get(&self.arena, p).last_pivot_in_past;
            assert(own == self.node(p).last_pivot_in_past);
            assert(start.age(p) < start.age(x));
            if own > last_pivot {
                last_pivot = own;
            }
            k = k + 1;
        }
        last_pivot
    }

    /// The blocks of a set that follow their parents and referees, the oldest first.
    fn collect_followers(&self, to_update: &HashSet<usize>) -> (r: Vec<usize>)
        requires
            self.wf(),
            to_update@.subset_of(self.nodes().dom()),
        ensures
            by_age(self.nodes(), r@),
            r@.no_duplicates(),
            all_nodes(self.nodes(), r@),
            forall|x: usize| #[trigger]
                r@.contains(x) <==> to_update@.contains(x) && self.node(x).era_block != NULL && x
                    != self.cur_era_genesis_block_arena_index,
    {
        let items: Vec<usize> = set_items(to_update);
        let mut list: Vec<usize> = Vec::new();
        let mut i: usize = 0;
        while i < items.len()
            invariant
                i <= items.len(),
                self.wf(),
                items@.no_duplicates(),
                forall|x: usize| #[trigger] items@.contains(x) == to_update@.contains(x),
                to_update@.subset_of(self.nodes().dom()),
                list@.no_duplicates(),
                all_nodes(self.nodes(), list@),
                forall|x: usize| #[trigger]
                    list@.contains(x) <==> items@.take(i as int).contains(x) && self.node(
                        x,
                    ).era_block != NULL && x != self.cur_era_genesis_block_arena_index,
            decreases items.len() - i,
        {
            let x: usize = items[i];
            proof {
                assert(items@.contains(items@[i as int]));
                assert(self.nodes().dom().contains(x));
                let before = items@.take(i as int);
                assert(items@.take(i + 1) =~= before.push(x));
                lemma_push_contains(before, x);
                lemma_push_contains(list@, x);
                if before.contains(x) {
                    let m = choose|m: int| 0 <= m < before.len() && before[m] == x;
                    assert(items@[m] == items@[i as int]);
                }
                assert(!list@.contains(x));
            }
            if arena_get(&self.arena, x).era_block != NULL && x
                != self.cur_era_genesis_block_arena_index {
                list.push(x);
            }
            i = i + 1;
        }
        proof {
            assert(items@.take(i as int) =~= items@);
        }
        let r: Vec<usize> = self.sort_by_age(&list);
        proof {
            assert forall|i: int| 0 <= i < r@.len() implies self.nodes().contains_key(
                #[trigger] r@[i],
            ) by {
                assert(r@.contains(r@[i]));
                assert(list@.contains(r@[i]));
                let m = choose|m: int| 0 <= m < list@.len() && list@[m] == r@[i];
                assert(self.nodes().contains_key(list@[m]));
            }
        }
        r
    }

    /// Recomputes the last pivot blocks in the pasts of blocks after the pivot chain has changed
    /// from a height on.
    pub fn recompute_metadata(&mut self, start_at: u64, to_update: HashSet<usize>)
        requires
            old(self).wf(),
            old(self).metadata_ready(start_at as int, to_update@),
        ensures
            final(self).wf(),
            final(self).nodes() == with_last_pivots(
                old(self).nodes(),
                Map::new(
                    |x: usize| old(self).has(x),
                    |x: usize| old(self).new_last_pivot(start_at as int, to_update@, x),
                ),
            ),
            pivot_sets(final(self).pivot_chain_metadata@) == old(self).new_pivot_sets(
                start_at as int,
                to_update@,
            ),
            *final(self) == (ConsensusGraphInner {
                arena: final(self).arena,
                pivot_chain_metadata: final(self).pivot_chain_metadata,
                ..*old(self)
            }),
    {
        let ghost start = *self;
        let ghost at = start_at as int;
        let ghost wanted = to_update@;
        let ghost updated = start.follows_preds(at, wanted);
        let mut to_update = to_update;
        self.reset_pivots(start_at, &mut to_update);
        assert(self.nodes().dom() =~= start.nodes().dom());
        let order: Vec<usize> = self.collect_followers(&to_update);
        proof {
            assert forall|x: usize| #[trigger] order@.contains(x) <==> updated.contains(x) by {
                if to_update@.contains(x) || wanted.contains(x) {
                    assert(start.nodes().dom().contains(x));
                }
            }
            assert(by_age(start.nodes(), order@)) by {
                assert forall|i: int, j: int|
                    0 <= i <= j < order@.len() implies start.nodes()[#[trigger] order@[i]].data.sequence_number
                    <= start.nodes()[#[trigger] order@[j]].data.sequence_number by {
                    assert(self.nodes().contains_key(order@[i]));
                    assert(self.nodes().contains_key(order@[j]));
                }
            }
        }
        let mut n: usize = 0;
        proof {
            start.lemma_pivot_sets_none(at, wanted, order@);
        }
        while n < order.len()
            invariant
                n <= order.len(),
                start == *old(self),
                start.wf(),
                self.wf(),
                at == start_at,
                start.metadata_ready(at, wanted),
                updated == start.follows_preds(at, wanted),
                order@.no_duplicates(),
                all_nodes(start.nodes(), order@),
                by_age(start.nodes(), order@),
                forall|x: usize| #[trigger] order@.contains(x) <==> updated.contains(x),
                self.nodes() == with_last_pivots(
                    start.nodes(),
                    start.partial_last_pivots(at, wanted, order@.take(n as int)),
                ),
                pivot_sets(self.pivot_chain_metadata@) == start.partial_pivot_sets(
                    at,
                    wanted,
                    order@.take(n as int),
                ),
                *self == (ConsensusGraphInner {
                    arena: self.arena,
                    pivot_chain_metadata: self.pivot_chain_metadata,
                    ..start
                }),
            decreases order.len() - n,
        {
            let x: usize = order[n];
            let ghost done = order@.take(n as int);
            proof {
                assert(start.nodes().contains_key(order@[n as int]));
                assert(order@.contains(x));
                assert(self.nodes().dom() =~= start.nodes().dom());
                assert forall|p: usize|
                    start.has(p) && start.age(p) < start.age(x) implies #[trigger] self.node(
                    p,
                ).last_pivot_in_past == (if updated.contains(p) {
                    start.last_pivot_from(at, updated, p, preds_of(start.nodes(), p).len())
                } else {
                    start.base_last_pivot(at, start.pivot_height(), p)
                }) by {
                    lemma_older_before(start.nodes(), order@, n as int, p);
                    assert(start.nodes().contains_key(p));
                    assert(order@.contains(p) <==> updated.contains(p));
                }
            }
            let last_pivot: u64 = self.max_last_pivot(
                x,
                Ghost(start),
                Ghost(at),
                Ghost(updated),
            );
            let count: usize = self.pivot_chain.len();
            assert(last_pivot == start.new_last_pivot(at, wanted, x));
            assert(last_pivot - start.cur_era_genesis_height < count);
            let last_pivot_index: usize = (last_pivot - self.cur_era_genesis_height) as usize;
            assert(pivot_sets(self.pivot_chain_metadata@).len() == count);
            self.set_last_pivot(x, last_pivot);
            self.add_to_pivot(last_pivot_index, x);
            proof {
                assert(order@.take(n + 1) =~= done.push(x));
                start.lemma_pivot_sets_step(at, wanted, done, x);
                let before = start.partial_last_pivots(at, wanted, done);
                let after = start.partial_last_pivots(at, wanted, done.push(x));
                assert(self.nodes() =~= with_last_pivots(start.nodes(), after)) by {
                    assert forall|p: usize| #[trigger] start.nodes().contains_key(p) implies
                        self.nodes()[p] == with_last_pivots(start.nodes(), after)[p] by {
                        assert(start.has(p));
                        assert(after[p] == (if p == x {
                            last_pivot
                        } else {
                            before[p]
                        }));
                    }
                }
            }
            n = n + 1;
        }
        proof {
            assert(order@.take(n as int) =~= order@);
            start.lemma_pivot_sets_all(at, wanted, order@);
        }
    }

    /// The last pivot blocks once some of the blocks to update are done.
    spec fn partial_last_pivots(
        &self,
        start_at: int,
        to_update: Set<usize>,
        done: Seq<usize>,
    ) -> Map<usize, u64> {
        Map::new(
            |x: usize| self.has(x),
            |x: usize|
                if done.contains(x) {
                    self.new_last_pivot(start_at, to_update, x)
                } else {
                    self.base_last_pivot(start_at, self.pivot_height(), x)
                },
        )
    }

    /// The blocks at each position of the pivot chain once some of the blocks to update are done.
    spec fn partial_pivot_sets(
        &self,
        start_at: int,
        to_update: Set<usize>,
        done: Seq<usize>,
    ) -> Seq<Set<usize>> {
        let base = self.base_pivot_sets(start_at, self.pivot_height());
        Seq::new(
            self.pivot_chain@.len(),
            |j: int|
                Set::new(
                    |x: usize|
                        base[j].contains(x) || (done.contains(x) && self.new_last_pivot(
                            start_at,
                            to_update,
                            x,
                        ) == self.cur_era_genesis_height + j),
                ),
        )
    }

    proof fn lemma_pivot_sets_none(&self, start_at: int, to_update: Set<usize>, order: Seq<usize>)
        ensures
            self.partial_last_pivots(start_at, to_update, order.take(0)) == Map::new(
                |p: usize| self.has(p),
                |p: usize| self.base_last_pivot(start_at, self.pivot_height(), p),
            ),
            self.partial_pivot_sets(start_at, to_update, order.take(0)) == self.base_pivot_sets(
                start_at,
                self.pivot_height(),
            ),
    {
        assert(order.take(0) =~= seq![]);
        assert(self.partial_last_pivots(start_at, to_update, order.take(0)) =~= Map::new(
            |p: usize| self.has(p),
            |p: usize| self.base_last_pivot(start_at, self.pivot_height(), p),
        ));
        let a = self.partial_pivot_sets(start_at, to_update, order.take(0));
        let b = self.base_pivot_sets(start_at, self.pivot_height());
        assert forall|j: int| 0 <= j < a.len() implies a[j] == b[j] by {
            assert(a[j] =~= b[j]);
        }
        assert(a =~= b);
    }

    proof fn lemma_pivot_sets_step(
        &self,
        start_at: int,
        to_update: Set<usize>,
        done: Seq<usize>,
        x: usize,
    )
        requires
            self.cur_era_genesis_height <= self.new_last_pivot(start_at, to_update, x)
                < self.pivot_height(),
        ensures
            forall|p: usize| #[trigger] done.push(x).contains(p) <==> done.contains(p) || p == x,
            ({
                let a = self.partial_pivot_sets(start_at, to_update, done);
                let j = self.new_last_pivot(start_at, to_update, x) - self.cur_era_genesis_height;
                self.partial_pivot_sets(start_at, to_update, done.push(x)) == a.update(
                    j,
                    a[j].insert(x),
                )
            }),
    {
        lemma_push_contains(done, x);
        let a = self.partial_pivot_sets(start_at, to_update, done);
        let b = self.partial_pivot_sets(start_at, to_update, done.push(x));
        let j = self.new_last_pivot(start_at, to_update, x) - self.cur_era_genesis_height;
        let c = a.update(j, a[j].insert(x));
        assert forall|i: int| 0 <= i < b.len() implies b[i] == c[i] by {
            assert(b[i] =~= c[i]);
        }
        assert(b =~= c);
    }

    proof fn lemma_pivot_sets_all(&self, start_at: int, to_update: Set<usize>, order: Seq<usize>)
        requires
            forall|x: usize| #[trigger]
                order.contains(x) <==> self.follows_preds(start_at, to_update).contains(x),
        ensures
            self.partial_last_pivots(start_at, to_update, order) == Map::new(
                |x: usize| self.has(x),
                |x: usize| self.new_last_pivot(start_at, to_update, x),
            ),
            self.partial_pivot_sets(start_at, to_update, order) == self.new_pivot_sets(
                start_at,
                to_update,
            ),
    {
        assert(self.partial_last_pivots(start_at, to_update, order) =~= Map::new(
            |x: usize| self.has(x),
            |x: usize| self.new_last_pivot(start_at, to_update, x),
        )) by {
            assert forall|x: usize| #[trigger] order.contains(x) <==> self.follows_preds(
                start_at,
                to_update,
            ).contains(x) by {}
        }
        let a = self.partial_pivot_sets(start_at, to_update, order);
        let b = self.new_pivot_sets(start_at, to_update);
        assert forall|j: int| 0 <= j < a.len() implies a[j] == b[j] by {
            assert(a[j] =~= b[j]);
        }
        assert(a =~= b);
    }
}

} // verus!
