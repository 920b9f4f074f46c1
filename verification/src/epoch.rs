//! The blocks of an epoch: those in the past of its pivot block that are not in the past of the
//! pivot block before.
use vstd::prelude::*;

use crate::graph::{all_nodes, arena_wf, links_wf, ConsensusGraphInner};
use crate::index_set::IndexSet;
use crate::lineage::{ancestor, lemma_ancestor_add, lemma_lca_exists, on_path, parent_of};
use crate::lists::append_items;
use crate::node::{arena_get, arena_get_mut, ConsensusGraphNode, ConsensusGraphNodeData};
use crate::reach::{lemma_push_contains, past_outside, past_steps_outside, steps, Direction, Filter};
use crate::topo::is_topo_order;
use crate::types::NULL;

verus! {

/// Whether the parent links lead from `x` to `top`.
pub open spec fn climbs_to(nodes: Map<usize, ConsensusGraphNode>, x: usize, top: usize) -> bool
    decreases nodes[x].data.sequence_number,
{
    x == top || (nodes[x].parent != NULL && nodes[nodes[x].parent].data.sequence_number
        < nodes[x].data.sequence_number && climbs_to(nodes, nodes[x].parent, top))
}

/// What the referees of a block lead to outside a set.
pub open spec fn fresh_past(
    nodes: Map<usize, ConsensusGraphNode>,
    x: usize,
    avoid: Set<usize>,
) -> Set<usize> {
    past_outside(nodes, avoid, nodes[x].referees@.to_set().difference(avoid))
}

/// The blocks of the epochs after `lca` up to that of `x`, as far as they are not in a set.
pub open spec fn seen_since(
    nodes: Map<usize, ConsensusGraphNode>,
    x: usize,
    lca: usize,
    past: Set<usize>,
) -> Set<usize>
    decreases nodes[x].data.sequence_number,
{
    if x == lca {
        Set::empty()
    } else {
        let parent = nodes[x].parent;
        let above = if parent != NULL && nodes[parent].data.sequence_number
            < nodes[x].data.sequence_number {
            seen_since(nodes, parent, lca, past).insert(x)
        } else {
            set![x]
        };
        if nodes[x].data.blockset_cleared {
            above.union(fresh_past(nodes, x, past.union(above)))
        } else {
            above.union(nodes[x].data.blockset_in_own_view_of_epoch@.to_set())
        }
    }
}

/// The blocks of the epoch of `pivot`, without `pivot`, where `past` is the past of `lca`.
pub open spec fn epoch_blocks(
    nodes: Map<usize, ConsensusGraphNode>,
    pivot: usize,
    lca: usize,
    past: Set<usize>,
) -> Set<usize> {
    let seen = seen_since(nodes, nodes[pivot].parent, lca, past).insert(pivot);
    fresh_past(nodes, pivot, past.union(seen))
}

impl ConsensusGraphInner {
    /// What is on the line to a node in the weight tree is reached by parent links.
    pub proof fn lemma_climbs(&self, top: usize, v: usize, k: nat)
        requires
            self.wf(),
            self.weight_tree.has(v),
            top != NULL,
            ancestor(self.weight_tree.parents(), v, k) == top,
        ensures
            climbs_to(self.nodes(), v, top),
            self.has(top),
        decreases k,
    {
        let parents = self.weight_tree.parents();
        assert(self.has(v));
        if k > 0 {
            lemma_ancestor_add(parents, v, 1, (k - 1) as nat);
            self.weight_tree.lemma_parents(v);
            self.weight_tree.lemma_ranked();
            let p = parent_of(parents, v);
            assert(ancestor(parents, v, 1) == p) by {
                assert(ancestor(parents, v, 0) == v);
            }
            if p == NULL {
                crate::lineage::lemma_ancestor_null(parents, (k - 1) as nat);
            } else {
                self.weight_tree.lemma_parents(p);
                assert(self.node(v).parent == p);
                self.lemma_climbs(top, p, (k - 1) as nat);
            }
        }
    }

    /// The past set of a block, with the block, put together from cached past sets and the epochs
    /// in between.
    pub open spec fn pastset(&self, x: usize) -> Set<usize>
        decreases (if x == NULL { 0 } else { self.age(x) as int + 1 }),
    {
        let parent = self.node(x).parent;
        if x == NULL {
            Set::empty()
        } else if self.pastset_cache@.contains_key(x) {
            self.pastset_cache@[x]
        } else {
            let above = if parent == NULL || self.age(parent) < self.age(x) {
                self.pastset(parent).insert(x)
            } else {
                set![x]
            };
            if self.node(x).data.blockset_cleared {
                above.union(past_outside(self.nodes(), above, set![x]))
            } else {
                above.union(self.node(x).data.blockset_in_own_view_of_epoch@.to_set())
            }
        }
    }

    /// Adds what is in the past of a block to a set that holds the past of its parent.
    fn add_epoch(&self, x: usize, result: &mut IndexSet)
        requires
            self.wf(),
            self.has(x),
        ensures
            ({
                let above = old(result)@.insert(x);
                final(result)@ == (if self.node(x).data.blockset_cleared {
                    above.union(past_outside(self.nodes(), above, set![x]))
                } else {
                    above.union(self.node(x).data.blockset_in_own_view_of_epoch@.to_set())
                })
            }),
    {
        assert(self.nodes().contains_key(x));
        result.add(x);
        let ghost above = result@;
        assert(above =~= old(result)@.insert(x));
        if arena_get(&self.arena, x).data.blockset_cleared {
            let mut seeds: Vec<usize> = Vec::new();
            seeds.push(x);
            assert(seeds@.to_set() =~= set![x]) by {
                assert(seeds@[0] == x);
            }
            let avoid: IndexSet = result.copy();
            let (met, _) = self.traverse(Direction::Past, Filter::Outside(&avoid), &seeds);
            assert(steps(self.nodes(), Direction::Past, Filter::Outside(&avoid))
                =~= past_steps_outside(self.nodes(), above));
            result.union_with(&met);
        } else {
            self.add_all(
                &arena_get(&self.arena, x).data.blockset_in_own_view_of_epoch,
                result,
            );
        }
    }

    /// Adds nodes to a set.
    fn add_all(&self, list: &Vec<usize>, result: &mut IndexSet)
        requires
            arena_wf(self.nodes()),
            all_nodes(self.nodes(), list@),
        ensures
            final(result)@ == old(result)@.union(list@.to_set()),
    {
        let mut i: usize = 0;
        while i < list.len()
            invariant
                i <= list.len(),
                arena_wf(self.nodes()),
                all_nodes(self.nodes(), list@),
                forall|v: usize| #[trigger]
                    result@.contains(v) <==> old(result)@.contains(v) || list@.take(
                        i as int,
                    ).contains(v),
            decreases list.len() - i,
        {
            assert(self.nodes().contains_key(list@[i as int]));
            result.add(list[i]);
            proof {
                assert(list@.take(i + 1) =~= list@.take(i as int).push(list@[i as int]));
                lemma_push_contains(list@.take(i as int), list@[i as int]);
            }
            i = i + 1;
        }
        assert(list@.take(i as int) =~= list@);
        assert(result@ =~= old(result)@.union(list@.to_set()));
    }

    /// Computes the past set of a block from the cached past sets.
    pub fn compute_pastset_brutal(&self, me: usize) -> (r: IndexSet)
        requires
            self.wf(),
            self.has(me),
        ensures
            r@ == self.pastset(me),
    {
        let mut path: Vec<usize> = Vec::new();
        let mut cur: usize = me;
        while cur != NULL && self.pastset_cache.get(cur).is_none()
            invariant
                self.wf(),
                cur == NULL || self.has(cur),
                all_nodes(self.nodes(), path@),
                path@.len() > 0 ==> path@[0] == me && self.node(path@.last()).parent == cur,
                path@.len() == 0 ==> cur == me,
                forall|i: int|
                    0 <= i < path@.len() ==> path@[i] != NULL && !self.pastset_cache@.contains_key(
                        #[trigger] path@[i],
                    ),
                forall|i: int, j: int|
                    0 <= i && j == i + 1 && j < path@.len() ==> self.node(#[trigger] path@[i]).parent
                        == #[trigger] path@[j],
            ensures
                cur == NULL || self.pastset_cache@.contains_key(cur),
            decreases (if cur == NULL { 0int } else { self.age(cur) as int + 1 }),
        {
            assert(self.has(cur));
            assert(self.nodes().contains_key(cur));
            path.push(cur);
            cur = arena_get(&self.arena, cur).parent;
        }
        let mut result: IndexSet = if cur == NULL {
            IndexSet::new()
        } else {
            match self.pastset_cache.get(cur) {
                Some(s) => s.copy(),
                None => IndexSet::new(),
            }
        };
        let ghost start = cur;
        assert(result@ =~= self.pastset(start));
        let mut i: usize = path.len();
        while i > 0
            invariant
                i <= path.len(),
                self.wf(),
                all_nodes(self.nodes(), path@),
                path@.len() > 0 ==> path@[0] == me && self.node(path@.last()).parent == start,
                path@.len() == 0 ==> start == me,
                start == NULL || self.pastset_cache@.contains_key(start),
                start == NULL || self.has(start),
                forall|i: int|
                    0 <= i < path@.len() ==> path@[i] != NULL && !self.pastset_cache@.contains_key(
                        #[trigger] path@[i],
                    ),
                forall|i: int, j: int|
                    0 <= i && j == i + 1 && j < path@.len() ==> self.node(#[trigger] path@[i]).parent
                        == #[trigger] path@[j],
                result@ == (if i < path@.len() {
                    self.pastset(path@[i as int])
                } else {
                    self.pastset(start)
                }),
            decreases i,
        {
            i = i - 1;
            let x: usize = path[i];
            proof {
                assert(self.nodes().contains_key(path@[i as int]));
                assert(links_wf(self.nodes(), self.node(x)));
                if i + 1 < path@.len() {
                    assert(self.node(path@[i as int]).parent == path@[i + 1]);
                }
            }
            let ghost before = result@;
            self.add_epoch(x, &mut result);
            assert(before == self.pastset(self.node(x).parent));
        }
        result
    }

    /// What the referees of a block lead to outside two sets.
    fn collect_fresh_past(&self, x: usize, past: &IndexSet, seen: &IndexSet) -> (r: (
        IndexSet,
        Vec<usize>,
    ))
        requires
            self.wf(),
            self.has(x),
        ensures
            r.0@ == fresh_past(self.nodes(), x, past@.union(seen@)),
            r.1@.to_set() == r.0@,
            r.1@.no_duplicates(),
            all_nodes(self.nodes(), r.1@),
    {
        let mut avoid: IndexSet = past.copy();
        avoid.union_with(seen);
        let referees: &Vec<usize> = &arena_get(&self.arena, x).referees;
        assert(links_wf(self.nodes(), self.node(x))) by {
            assert(self.nodes().contains_key(x));
        }
        let mut seeds: Vec<usize> = Vec::new();
        let mut i: usize = 0;
        while i < referees.len()
            invariant
                i <= referees.len(),
                all_nodes(self.nodes(), referees@),
                all_nodes(self.nodes(), seeds@),
                forall|v: usize| #[trigger]
                    seeds@.contains(v) <==> referees@.take(i as int).contains(v)
                        && !avoid@.contains(v),
            decreases referees.len() - i,
        {
            let v: usize = referees[i];
            assert(self.nodes().contains_key(referees@[i as int]));
            proof {
                lemma_push_contains(seeds@, v);
                assert(referees@.take(i + 1) =~= referees@.take(i as int).push(v));
                lemma_push_contains(referees@.take(i as int), v);
            }
            if !avoid.contains(v) {
                seeds.push(v);
            }
            i = i + 1;
        }
        assert(referees@.take(i as int) =~= referees@);
        assert(seeds@.to_set() =~= referees@.to_set().difference(past@.union(seen@)));
        let r: (IndexSet, Vec<usize>) = self.traverse(
            Direction::Past,
            Filter::Outside(&avoid),
            &seeds,
        );
        assert(steps(self.nodes(), Direction::Past, Filter::Outside(&avoid))
            =~= past_steps_outside(self.nodes(), past@.union(seen@)));
        r
    }

    /// Collects the blocks of the epoch of `pivot`, where `lca` is a pivot block above it whose
    /// past set is cached.
    pub fn collect_blockset_in_own_view_of_epoch_brutal(&self, lca: usize, pivot: usize) -> (r:
        Vec<usize>)
        requires
            self.wf(),
            self.has(pivot),
            self.node(pivot).parent != NULL,
            climbs_to(self.nodes(), self.node(pivot).parent, lca),
            self.pastset_cache@.contains_key(lca),
        ensures
            r@.to_set() == epoch_blocks(self.nodes(), pivot, lca, self.pastset_cache@[lca]),
            r@.no_duplicates(),
            all_nodes(self.nodes(), r@),
    {
        let mut past: IndexSet = IndexSet::new();
        match self.pastset_cache.get(lca) {
            Some(s) => {
                past = s.copy();
            },
            None => {},
        }
        let mut path: Vec<usize> = Vec::new();
        let mut cur: usize = arena_get(&self.arena, pivot).parent;
        assert(self.nodes().contains_key(pivot));
        while cur != lca
            invariant
                self.wf(),
                self.has(cur),
                climbs_to(self.nodes(), cur, lca),
                all_nodes(self.nodes(), path@),
                path@.len() > 0 ==> path@[0] == self.node(pivot).parent && self.node(
                    path@.last(),
                ).parent == cur,
                path@.len() == 0 ==> cur == self.node(pivot).parent,
                forall|i: int| 0 <= i < path@.len() ==> #[trigger] path@[i] != lca,
                forall|i: int, j: int|
                    0 <= i && j == i + 1 && j < path@.len() ==> self.node(#[trigger] path@[i]).parent
                        == #[trigger] path@[j],
            decreases self.age(cur),
        {
            assert(self.nodes().contains_key(cur));
            path.push(cur);
            cur = arena_get(&self.arena, cur).parent;
        }
        let mut visited: IndexSet = IndexSet::new();
        let mut i: usize = path.len();
        assert(visited@ =~= seen_since(self.nodes(), lca, lca, past@));
        while i > 0
            invariant
                i <= path.len(),
                self.wf(),
                all_nodes(self.nodes(), path@),
                path@.len() > 0 ==> path@[0] == self.node(pivot).parent && self.node(
                    path@.last(),
                ).parent == lca,
                path@.len() == 0 ==> lca == self.node(pivot).parent,
                forall|i: int| 0 <= i < path@.len() ==> #[trigger] path@[i] != lca,
                forall|i: int, j: int|
                    0 <= i && j == i + 1 && j < path@.len() ==> self.node(#[trigger] path@[i]).parent
                        == #[trigger] path@[j],
                self.has(lca),
                visited@ == seen_since(
                    self.nodes(),
                    if i < path@.len() {
                        path@[i as int]
                    } else {
                        lca
                    },
                    lca,
                    past@,
                ),
            decreases i,
        {
            i = i - 1;
            let x: usize = path[i];
            let ghost before = visited@;
            proof {
                assert(self.nodes().contains_key(path@[i as int]));
                assert(links_wf(self.nodes(), self.node(x)));
                crate::graph::lemma_arena_ranked(self.nodes());
                if i + 1 < path@.len() {
                    assert(self.node(path@[i as int]).parent == path@[i + 1]);
                    assert(self.nodes().contains_key(path@[i + 1]));
                }
                assert(before == seen_since(self.nodes(), self.node(x).parent, lca, past@));
                assert(self.node(x).parent != NULL);
            }
            visited.add(x);
            let ghost above = visited@;
            assert(above =~= before.insert(x));
            if arena_get(&self.arena, x).data.blockset_cleared {
                let (met, _) = self.collect_fresh_past(x, &past, &visited);
                visited.union_with(&met);
            } else {
                self.add_all(
                    &arena_get(&self.arena, x).data.blockset_in_own_view_of_epoch,
                    &mut visited,
                );
            }
            assert(path@[i as int] != lca);
        }
        assert(self.nodes().contains_key(pivot));
        let ghost before = visited@;
        visited.add(pivot);
        assert(visited@ =~= before.insert(pivot));
        let (_, list) = self.collect_fresh_past(pivot, &past, &visited);
        list
    }

    /// The block from which the epoch of a block is collected: the last one that its parent and
    /// the pivot chain have in common.
    pub open spec fn epoch_start(&self, pivot: usize) -> usize {
        self.common_ancestor(self.pivot_chain@.last(), self.node(pivot).parent)
    }

    /// The blocks that are collected for the epoch of a block.
    pub open spec fn collected_blocks(&self, pivot: usize) -> Set<usize> {
        if self.node(pivot).parent == NULL {
            Set::empty()
        } else {
            epoch_blocks(
                self.nodes(),
                pivot,
                self.epoch_start(pivot),
                self.pastset(self.epoch_start(pivot)),
            )
        }
    }

    /// Whether the epoch of a block can be collected.
    pub open spec fn epoch_known(&self, pivot: usize) -> bool {
        self.node(pivot).parent != NULL ==> {
            &&& self.in_tree_or_legacy(self.pivot_chain@.last())
            &&& self.in_tree_or_legacy(self.node(pivot).parent)
            &&& self.epoch_start(pivot) != NULL
        }
    }

    /// The past sets that are cached after the epoch of a block was collected.
    pub open spec fn pastsets_after(&self, pivot: usize) -> Map<usize, Set<usize>> {
        if self.node(pivot).parent == NULL {
            self.pastset_cache@
        } else {
            self.pastset_cache@.insert(
                self.epoch_start(pivot),
                self.pastset(self.epoch_start(pivot)),
            )
        }
    }

    /// The blocks of a list that are in the era of a block.
    pub open spec fn in_era_of(&self, list: Seq<usize>, pivot: usize) -> Set<usize> {
        Set::new(|i: usize| list.contains(i) && self.same_era(i, pivot))
    }

    /// Whether `after` is the data of a block after its epoch was collected: the new blocks are
    /// listed behind those that were there, and those of its era are ordered for execution, the
    /// block itself last.
    pub open spec fn epoch_collected(&self, pivot: usize, after: ConsensusGraphNodeData) -> bool {
        let before = self.node(pivot).data;
        let n = before.blockset_in_own_view_of_epoch@.len() as int;
        let all = after.blockset_in_own_view_of_epoch@;
        let ordered = after.ordered_executable_epoch_blocks@;
        &&& all.len() >= n
        &&& all.take(n) == before.blockset_in_own_view_of_epoch@
        &&& all.skip(n).no_duplicates()
        &&& all.skip(n).to_set() == self.collected_blocks(pivot)
        &&& ordered.len() > 0
        &&& ordered.last() == pivot
        &&& is_topo_order(self.nodes(), self.in_era_of(all, pivot), ordered.drop_last())
        &&& after == (ConsensusGraphNodeData {
            blockset_in_own_view_of_epoch: after.blockset_in_own_view_of_epoch,
            ordered_executable_epoch_blocks: after.ordered_executable_epoch_blocks,
            blockset_cleared: false,
            ..before
        })
    }

    fn filter_era(&self, list: &Vec<usize>, pivot: usize) -> (r: IndexSet)
        requires
            self.wf(),
            self.has(pivot),
            all_nodes(self.nodes(), list@),
        ensures
            r@ == self.in_era_of(list@, pivot),
    {
        let mut r: IndexSet = IndexSet::new();
        let mut i: usize = 0;
        while i < list.len()
            invariant
                i <= list.len(),
                self.wf(),
                self.has(pivot),
                all_nodes(self.nodes(), list@),
                forall|v: usize| #[trigger]
                    r@.contains(v) <==> list@.take(i as int).contains(v) && self.same_era(v, pivot),
            decreases list.len() - i,
        {
            let v: usize = list[i];
            assert(self.nodes().contains_key(list@[i as int]));
            if self.is_same_era(v, pivot) {
                r.add(v);
            }
            proof {
                assert(list@.take(i + 1) =~= list@.take(i as int).push(v));
                lemma_push_contains(list@.take(i as int), v);
            }
            i = i + 1;
        }
        assert(list@.take(i as int) =~= list@);
        assert(r@ =~= self.in_era_of(list@, pivot));
        r
    }

    /// The blocks of the epoch of a block, behind those that are listed already.
    fn collect_epoch_blocks(&mut self, pivot: usize) -> (blocks: Vec<usize>)
        requires
            old(self).wf(),
            old(self).has(pivot),
            old(self).epoch_known(pivot),
        ensures
            final(self).wf(),
            final(self).pastset_cache@ == old(self).pastsets_after(pivot),
            *final(self) == (ConsensusGraphInner {
                pastset_cache: final(self).pastset_cache,
                ..*old(self)
            }),
            all_nodes(old(self).nodes(), blocks@),
            ({
                let before = old(self).node(pivot).data.blockset_in_own_view_of_epoch@;
                &&& blocks@.len() >= before.len()
                &&& blocks@.take(before.len() as int) == before
                &&& blocks@.skip(before.len() as int).no_duplicates()
                &&& blocks@.skip(before.len() as int).to_set() == old(self).collected_blocks(pivot)
            }),
    {
        let parent: usize = arena_get(&self.arena, pivot).parent;
        let mut blocks: Vec<usize> = crate::block_data::copy_indices(
            &arena_get(&self.arena, pivot).data.blockset_in_own_view_of_epoch,
        );
        assert(links_wf(self.nodes(), self.node(pivot))) by {
            assert(self.nodes().contains_key(pivot));
        }
        let ghost before = blocks@;
        let ghost n = before.len() as int;
        if parent != NULL {
            let count: usize = self.pivot_chain.len();
            let last: usize = self.pivot_chain[count - 1];
            assert(self.nodes().contains_key(self.pivot_chain@[count - 1]));
            let lca: usize = self.lca(last, parent);
            proof {
                self.lemma_on_path_climbs(lca, parent);
            }
            if self.pastset_cache.get(lca).is_none() {
                let pastset: IndexSet = self.compute_pastset_brutal(lca);
                self.pastset_cache.update(lca, pastset);
            }
            assert(self.pastset_cache@ =~= old(self).pastsets_after(pivot));
            proof {
                old(self).lemma_wf_same(self);
            }
            let list: Vec<usize> = self.collect_blockset_in_own_view_of_epoch_brutal(lca, pivot);
            append_items(&mut blocks, &list);
            assert(blocks@.skip(n) =~= list@);
            assert forall|i: int| 0 <= i < blocks@.len() implies self.nodes().contains_key(
                #[trigger] blocks@[i],
            ) by {
                if i < n {
                    assert(blocks@[i] == before[i]);
                } else {
                    assert(blocks@[i] == list@[i - n]);
                }
            }
        } else {
            assert(blocks@.skip(n) =~= seq![]);
            assert(blocks@.skip(n).to_set() =~= Set::empty());
        }
        assert(blocks@.take(n) =~= before);
        blocks
    }

    /// The blocks of a list that are in the era of a block, ordered for execution, with the block
    /// itself last.
    fn order_epoch_blocks(&self, blocks: &Vec<usize>, pivot: usize) -> (ordered: Vec<usize>)
        requires
            self.wf(),
            self.has(pivot),
            all_nodes(self.nodes(), blocks@),
        ensures
            ordered@.len() > 0,
            ordered@.last() == pivot,
            is_topo_order(self.nodes(), self.in_era_of(blocks@, pivot), ordered@.drop_last()),
            all_nodes(self.nodes(), ordered@),
    {
        let filtered_blockset: IndexSet = self.filter_era(blocks, pivot);
        proof {
            assert forall|x: usize| filtered_blockset@.contains(x) implies self.nodes().dom().contains(
                x,
            ) by {
                let k = choose|k: int| 0 <= k < blocks@.len() && blocks@[k] == x;
                assert(self.nodes().contains_key(blocks@[k]));
            }
        }
        let mut ordered: Vec<usize> = self.topological_sort(&filtered_blockset);
        let ghost sorted = ordered@;
        ordered.push(pivot);
        proof {
            assert(ordered@.drop_last() =~= sorted);
            assert forall|i: int| 0 <= i < ordered@.len() implies self.nodes().contains_key(
                #[trigger] ordered@[i],
            ) by {
                if i < sorted.len() {
                    assert(sorted.contains(sorted[i]));
                    assert(sorted.to_set().contains(sorted[i]));
                }
            }
        }
        ordered
    }

    fn set_epoch_blocks(&mut self, pivot: usize, blocks: Vec<usize>, ordered: Vec<usize>)
        requires
            old(self).wf(),
            old(self).has(pivot),
            all_nodes(old(self).nodes(), blocks@),
            all_nodes(old(self).nodes(), ordered@),
        ensures
            final(self).wf(),
            final(self).nodes() == old(self).nodes().insert(
                pivot,
                ConsensusGraphNode {
                    data: ConsensusGraphNodeData {
                        blockset_in_own_view_of_epoch: blocks,
                        ordered_executable_epoch_blocks: ordered,
                        blockset_cleared: false,
                        ..old(self).node(pivot).data
                    },
                    ..old(self).node(pivot)
                },
            ),
            *final(self) == (ConsensusGraphInner { arena: final(self).arena, ..*old(self) }),
    {
        let node: &mut ConsensusGraphNode = arena_get_mut(&mut self.arena, pivot);
        node.data.blockset_in_own_view_of_epoch = blocks;
        node.data.ordered_executable_epoch_blocks = ordered;
        node.data.blockset_cleared = false;
        proof {
            crate::graph::lemma_new_epoch(old(self).nodes(), pivot, self.node(pivot));
            assert(self.nodes() =~= old(self).nodes().insert(pivot, self.node(pivot)));
            assert(self.nodes().dom() =~= old(self).nodes().dom());
            old(self).lemma_wf_arena(self);
        }
    }

    /// Collects the blocks of the epoch of a block and orders those of its era for execution.
    pub fn collect_blockset_in_own_view_of_epoch(&mut self, pivot: usize)
        requires
            old(self).wf(),
            old(self).has(pivot),
            old(self).epoch_known(pivot),
        ensures
            final(self).wf(),
            old(self).epoch_collected(pivot, final(self).node(pivot).data),
            final(self).nodes() == old(self).nodes().insert(
                pivot,
                ConsensusGraphNode {
                    data: final(self).node(pivot).data,
                    ..old(self).node(pivot)
                },
            ),
            final(self).pastset_cache@ == old(self).pastsets_after(pivot),
            *final(self) == (ConsensusGraphInner {
                arena: final(self).arena,
                pastset_cache: final(self).pastset_cache,
                ..*old(self)
            }),
    {
        let blocks: Vec<usize> = self.collect_epoch_blocks(pivot);
        let ghost mid = *self;
        assert(mid.in_era_of(blocks@, pivot) =~= old(self).in_era_of(blocks@, pivot));
        let ordered: Vec<usize> = self.order_epoch_blocks(&blocks, pivot);
        self.set_epoch_blocks(pivot, blocks, ordered);
    }

    /// The block from which the epoch of a block is collected is reached by parent links.
    pub proof fn lemma_epoch_start(&self, pivot: usize)
        requires
            self.wf(),
            self.has(pivot),
            self.node(pivot).parent != NULL,
            self.epoch_known(pivot),
        ensures
            self.has(self.epoch_start(pivot)),
            climbs_to(self.nodes(), self.node(pivot).parent, self.epoch_start(pivot)),
    {
        let last = self.pivot_chain@.last();
        let parent = self.node(pivot).parent;
        assert(self.nodes().contains_key(pivot));
        assert(self.nodes().contains_key(self.pivot_chain@[self.pivot_chain@.len() - 1]));
        self.weight_tree.lemma_ranked();
        self.weight_tree.lemma_parents(last);
        self.weight_tree.lemma_parents(parent);
        lemma_lca_exists(
            self.weight_tree.parents(),
            self.weight_tree.ranks(),
            last,
            parent,
        );
        self.lemma_on_path_climbs(self.epoch_start(pivot), parent);
    }

    /// What is on the line to a block is reached by parent links.
    proof fn lemma_on_path_climbs(&self, top: usize, v: usize)
        requires
            self.wf(),
            self.weight_tree.has(v),
            on_path(self.weight_tree.parents(), top, v),
        ensures
            climbs_to(self.nodes(), v, top),
            self.has(top),
    {
        let k = choose|k: nat| #[trigger] ancestor(self.weight_tree.parents(), v, k) == top;
        self.lemma_climbs(top, v, k);
    }
}

} // verus!
