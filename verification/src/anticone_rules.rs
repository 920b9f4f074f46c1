//! What the weight of an anticone stands for.
use vstd::prelude::*;

use crate::block_data::BlockHeader;
use crate::graph::{arena_wf, links_wf, ConsensusGraphInner};
use crate::index_set::{index_limit, lemma_bounded_set};
use crate::insertion::{links_added, repeated};
use crate::node::ConsensusGraphNode;
use crate::past::{lemma_past_closed, lemma_past_least, past_closed};
use crate::reach::{
    is_pred, is_succ, lemma_reach_closed, lemma_reach_seed, lemma_reach_step, past_of,
    past_steps_outside, reaches, reaches_in, steps, Direction, Filter,
};
use crate::stable_rules::lemma_line_past;
use crate::sums::{
    lemma_set_sum_remove, lemma_set_sum_same, lemma_set_sum_split, set_sum,
};
use crate::topo::{lemma_is_pred_older, lemma_occurrences, occurrences};
use crate::types::NULL;

verus! {

/// What is in the past of a block is the block or older.
pub proof fn lemma_past_is_older(nodes: Map<usize, ConsensusGraphNode>, x: usize, y: usize)
    requires
        arena_wf(nodes),
        nodes.contains_key(x),
        past_of(nodes, x).contains(y),
    ensures
        nodes.contains_key(y),
        y == x || nodes[y].data.sequence_number < nodes[x].data.sequence_number,
{
    let s = Set::new(
        |v: usize|
            nodes.contains_key(v) && (v == x || nodes[v].data.sequence_number
                < nodes[x].data.sequence_number),
    );
    assert(past_closed(nodes, s)) by {
        assert forall|a: usize, b: usize|
            s.contains(a) && #[trigger] is_pred(nodes, a, b) implies s.contains(b) by {
            lemma_is_pred_older(nodes, a, b);
        }
    }
    lemma_past_least(nodes, s, x);
}

/// What is in the past of a block has its past there.
pub proof fn lemma_past_trans(nodes: Map<usize, ConsensusGraphNode>, x: usize, y: usize, z: usize)
    requires
        past_of(nodes, x).contains(y),
        past_of(nodes, y).contains(z),
    ensures
        past_of(nodes, x).contains(z),
{
    lemma_past_closed(nodes, x);
    lemma_past_least(nodes, past_of(nodes, x), y);
}

impl ConsensusGraphInner {
    /// The weight of a block if it is in the era of another one, or the genesis of that era.
    pub open spec fn weight_in_own_era(&self, x: usize) -> spec_fn(usize) -> int {
        |i: usize|
            if self.same_era(i, x) || i == self.node(x).era_block {
                self.weight(i)
            } else {
                0
            }
    }

    /// Whether the past weight that is stored for a block is the weight of its past in its era,
    /// without the block.
    pub open spec fn past_weight_right(&self, x: usize) -> bool {
        self.node(x).past_era_weight == set_sum(
            past_of(self.nodes(), x).remove(x),
            self.weight_in_own_era(x),
        )
    }

    /// Whether the last pivot block that is stored for a block is in its past.
    pub open spec fn last_pivot_right(&self, x: usize) -> bool {
        let last = self.node(x).last_pivot_in_past as int;
        self.has_pivot_at(last) && past_of(self.nodes(), x).contains(self.pivot_at(last))
    }

    /// Whether epoch numbers are right: a block is in the past of the pivot block of its epoch, or
    /// of the first pivot block where its epoch is an earlier one.
    pub open spec fn epoch_numbers_right(&self) -> bool {
        forall|x: usize| #[trigger]
            self.has(x) && self.node(x).data.epoch_number < self.cur_era_genesis_height
                + self.pivot_chain@.len() ==> past_of(
                self.nodes(),
                self.pivot_at(
                    if self.node(x).data.epoch_number < self.cur_era_genesis_height {
                        self.cur_era_genesis_height as int
                    } else {
                        self.node(x).data.epoch_number as int
                    },
                ),
            ).contains(x)
    }

    /// Whether each block of the pivot chain is the parent of the next one.
    pub open spec fn pivot_parents(&self) -> bool {
        forall|i: int, j: int|
            0 <= i && j == i + 1 && j < self.pivot_chain@.len() ==> self.node(
                #[trigger] self.pivot_chain@[j],
            ).parent == #[trigger] self.pivot_chain@[i]
    }

    /// Whether the links to children and referrers in a view are those from them.
    pub open spec fn links_match(&self, view: Set<usize>) -> bool {
        forall|u: usize, v: usize|
            self.has(u) && view.contains(v) ==> (#[trigger] is_succ(self.nodes(), u, v)
                <==> is_pred(self.nodes(), v, u))
    }

    /// The blocks in the past of `pivot` that have `me` in their past.
    pub open spec fn future_of(&self, me: usize, pivot: usize) -> Set<usize> {
        Set::new(
            |y: usize|
                past_of(self.nodes(), pivot).contains(y) && past_of(self.nodes(), y).contains(me),
        )
    }

    /// The blocks in the view of a pivot block that are neither `me` nor in its past or future.
    pub open spec fn anticone_in_view(&self, me: usize, pivot: usize) -> Set<usize> {
        past_of(self.nodes(), pivot).difference(past_of(self.nodes(), me)).difference(
            self.future_of(me, pivot),
        )
    }

    /// Whether what is stored is right, as far as the anticone of `me` in the view of a pivot
    /// block depends on it.
    pub open spec fn anticone_ready(&self, me: usize, pivot: usize) -> bool {
        &&& past_of(self.nodes(), pivot).contains(me)
        &&& self.links_match(past_of(self.nodes(), pivot))
        &&& self.pivot_parents()
        &&& self.epoch_numbers_right()
        &&& self.last_pivot_right(me)
    }

    /// What is in the future of `me` is in a later epoch than the last pivot block in its past.
    proof fn lemma_future_epoch(&self, me: usize, pivot: usize, w: usize)
        requires
            self.wf(),
            self.has(me),
            self.has(pivot),
            self.anticone_ready(me, pivot),
            self.future_of(me, pivot).contains(w),
            w != me,
        ensures
            self.node(w).data.epoch_number > self.node(me).last_pivot_in_past,
    {
        let nodes = self.nodes();
        let g = self.cur_era_genesis_height as int;
        let last = self.node(me).last_pivot_in_past as int;
        lemma_past_is_older(nodes, pivot, w);
        lemma_past_is_older(nodes, w, me);
        if self.node(w).data.epoch_number <= last {
            let e = if self.node(w).data.epoch_number < g {
                g
            } else {
                self.node(w).data.epoch_number as int
            };
            assert(self.has(w));
            assert(past_of(nodes, self.pivot_at(e)).contains(w));
            assert forall|k: int| 0 <= k < self.pivot_chain@.len() implies #[trigger]
                self.pivot_chain@[k] != NULL by {
                assert(nodes.contains_key(self.pivot_chain@[k]));
                assert(self.has(self.pivot_chain@[k]));
            }
            lemma_line_past(nodes, self.pivot_chain@, e - g, last - g, w);
            lemma_past_trans(nodes, me, self.pivot_at(last), w);
            lemma_past_is_older(nodes, me, w);
        }
    }

    /// What is in the future of `me` is in the recent past of the pivot block.
    proof fn lemma_future_is_recent(&self, me: usize, pivot: usize, w: usize, n: nat)
        requires
            self.wf(),
            self.has(me),
            self.has(pivot),
            self.anticone_ready(me, pivot),
            self.future_of(me, pivot).contains(w),
            w != me,
            reaches_in(past_steps_outside(self.nodes(), Set::empty()), set![pivot], w, n),
        ensures
            self.recent_past(me, pivot).contains(w),
        decreases n,
    {
        let nodes = self.nodes();
        let edge = past_steps_outside(nodes, Set::empty());
        let recent = steps(
            nodes,
            Direction::Past,
            Filter::EpochAfter(self.node(me).last_pivot_in_past),
        );
        if n == 0 {
            lemma_reach_seed(recent, set![pivot], pivot);
        } else {
            let u = choose|u: usize| #[trigger]
                edge(u, w) && reaches_in(edge, set![pivot], u, (n - 1) as nat);
            assert(reaches(edge, set![pivot], u));
            assert(past_of(nodes, pivot).contains(u));
            lemma_past_closed(nodes, u);
            assert(is_pred(nodes, u, w));
            lemma_past_trans(nodes, u, w, me);
            lemma_past_is_older(nodes, pivot, u);
            lemma_is_pred_older(nodes, u, w);
            lemma_past_is_older(nodes, w, me);
            assert(u != me);
            self.lemma_future_is_recent(me, pivot, u, (n - 1) as nat);
            self.lemma_future_epoch(me, pivot, w);
            assert(recent(u, w));
            lemma_reach_step(recent, set![pivot], u, w);
        }
    }

    /// From what was met in the future of `me` one comes to all that has it in its past.
    proof fn lemma_future_is_met(&self, me: usize, pivot: usize, y: usize, z: usize, n: nat)
        requires
            self.wf(),
            self.has(me),
            self.has(pivot),
            self.anticone_ready(me, pivot),
            past_of(self.nodes(), pivot).contains(y),
            self.future_in_view(me, pivot).contains(z),
            past_of(self.nodes(), z).contains(me),
            reaches_in(past_steps_outside(self.nodes(), Set::empty()), set![y], z, n),
        ensures
            self.future_in_view(me, pivot).contains(y),
        decreases n,
    {
        let nodes = self.nodes();
        let edge = past_steps_outside(nodes, Set::empty());
        let step = self.future_steps_inside(self.recent_past(me, pivot));
        if n > 0 {
            let u = choose|u: usize| #[trigger]
                edge(u, z) && reaches_in(edge, set![y], u, (n - 1) as nat);
            assert(reaches(edge, set![y], u));
            assert(past_of(nodes, y).contains(u));
            lemma_past_trans(nodes, pivot, y, u);
            lemma_past_closed(nodes, u);
            assert(is_pred(nodes, u, z));
            lemma_past_trans(nodes, u, z, me);
            lemma_past_is_older(nodes, pivot, u);
            lemma_is_pred_older(nodes, u, z);
            lemma_past_is_older(nodes, z, me);
            assert(u != me);
            let m = choose|m: nat| reaches_in(edge, set![pivot], u, m);
            self.lemma_future_is_recent(me, pivot, u, m);
            assert(self.has(z));
            assert(is_succ(nodes, z, u));
            assert(step(z, u));
            lemma_reach_step(step, set![me], z, u);
            self.lemma_future_is_met(me, pivot, y, u, (n - 1) as nat);
        }
    }

    /// Where what is stored is right, the future of `me` that is met in the view of a pivot block
    /// is all of it.
    pub proof fn law_future_in_view(&self, me: usize, pivot: usize)
        requires
            self.wf(),
            self.has(me),
            self.has(pivot),
            self.anticone_ready(me, pivot),
        ensures
            self.future_in_view(me, pivot) == self.future_of(me, pivot),
    {
        let nodes = self.nodes();
        let edge = past_steps_outside(nodes, Set::empty());
        let recent = steps(
            nodes,
            Direction::Past,
            Filter::EpochAfter(self.node(me).last_pivot_in_past),
        );
        let step = self.future_steps_inside(self.recent_past(me, pivot));
        let future = self.future_of(me, pivot);
        lemma_past_closed(nodes, pivot);
        lemma_past_closed(nodes, me);
        assert forall|a: usize, b: usize|
            past_of(nodes, pivot).contains(a) && #[trigger] recent(a, b) implies past_of(
            nodes,
            pivot,
        ).contains(b) by {
            assert(is_pred(nodes, a, b));
        }
        lemma_reach_closed(recent, set![pivot], past_of(nodes, pivot));
        assert forall|a: usize, b: usize|
            future.contains(a) && #[trigger] step(a, b) implies future.contains(b) by {
            assert(past_of(nodes, pivot).contains(b));
            lemma_past_is_older(nodes, pivot, a);
            assert(self.has(a));
            assert(is_pred(nodes, b, a));
            lemma_past_closed(nodes, b);
            lemma_past_trans(nodes, b, a, me);
        }
        assert(future.contains(me));
        lemma_reach_closed(step, set![me], future);
        lemma_reach_seed(step, set![me], me);
        assert forall|y: usize| future.contains(y) implies self.future_in_view(me, pivot).contains(
            y,
        ) by {
            let n = choose|n: nat| reaches_in(edge, set![y], me, n);
            self.lemma_future_is_met(me, pivot, y, me, n);
        }
        assert(self.future_in_view(me, pivot) =~= future);
    }

    /// However the blocks of pasts are weighed, the weight of the anticone of a block in the view
    /// of a pivot block is that of the blocks in the view that are neither the block nor in its
    /// past or future: where the stored past weights are those of the pasts, the pivot block weighs
    /// its weight, and each block of the future weighs its weight in the era.
    pub proof fn law_anticone_weight_by(
        &self,
        me: usize,
        pivot: usize,
        f: spec_fn(usize) -> int,
    )
        requires
            self.wf(),
            self.has(me),
            self.has(pivot),
            self.anticone_ready(me, pivot),
            self.node(me).past_era_weight == set_sum(past_of(self.nodes(), me).remove(me), f),
            self.node(pivot).past_era_weight == set_sum(
                past_of(self.nodes(), pivot).remove(pivot),
                f,
            ),
            f(pivot) == self.weight(pivot),
            forall|i: usize| #[trigger]
                self.future_of(me, pivot).contains(i) ==> f(i) == (self.weight_in_same_era(
                    pivot,
                ))(i),
        ensures
            self.anticone_weight(me, pivot) == set_sum(self.anticone_in_view(me, pivot), f),
            self.anticone_in_view(me, pivot).finite(),
    {
        let nodes = self.nodes();
        let view = past_of(nodes, pivot);
        let past = past_of(nodes, me).remove(me);
        let future = self.future_of(me, pivot);
        let rest = self.anticone_in_view(me, pivot);
        self.law_future_in_view(me, pivot);
        lemma_past_closed(nodes, pivot);
        lemma_past_closed(nodes, me);
        assert forall|i: usize| #[trigger] view.contains(i) implies i < index_limit() by {
            lemma_past_is_older(nodes, pivot, i);
        }
        lemma_bounded_set(view, index_limit());
        assert forall|i: usize| #[trigger] past.contains(i) implies view.contains(i) by {
            lemma_past_trans(nodes, pivot, me, i);
        }
        lemma_set_sum_remove(view, f, pivot);
        lemma_set_sum_split(view, past, f);
        let outside = view.difference(past);
        assert forall|i: usize| #[trigger] future.contains(i) implies outside.contains(i) by {
            if past.contains(i) {
                lemma_past_is_older(nodes, me, i);
                lemma_past_is_older(nodes, i, me);
            }
        }
        vstd::set_lib::lemma_set_subset_finite(view, outside);
        lemma_set_sum_split(outside, future, f);
        assert(outside.difference(future) =~= rest);
        vstd::set_lib::lemma_set_subset_finite(outside, future);
        vstd::set_lib::lemma_set_subset_finite(outside, rest);
        lemma_set_sum_same(future, f, self.weight_in_same_era(pivot));
    }

    /// The weight of the anticone of a block in the view of a pivot block is the weight of the
    /// blocks of its era in that view that are neither the block nor in its past or future, where
    /// the stored past weights, epoch numbers and last pivot block are right.
    pub proof fn law_anticone_weight(&self, me: usize, pivot: usize)
        requires
            self.wf(),
            self.has(me),
            self.has(pivot),
            self.same_era(me, pivot),
            past_of(self.nodes(), me).contains(self.node(me).era_block),
            self.anticone_ready(me, pivot),
            self.past_weight_right(me),
            self.past_weight_right(pivot),
        ensures
            self.anticone_weight(me, pivot) == set_sum(
                self.anticone_in_view(me, pivot),
                self.weight_in_same_era(pivot),
            ),
    {
        let nodes = self.nodes();
        let future = self.future_of(me, pivot);
        let f = self.weight_in_own_era(pivot);
        let h = self.weight_in_same_era(pivot);
        assert(self.weight_in_own_era(me) =~= f);
        // Of the past of the block both ways to weigh differ in the genesis of the era alone.
        assert forall|i: usize| #[trigger] future.contains(i) implies f(i) == h(i) by {
            if i == self.node(pivot).era_block {
                lemma_past_is_older(nodes, pivot, i);
                lemma_past_is_older(nodes, me, i);
                lemma_past_is_older(nodes, i, me);
            }
        }
        self.law_anticone_weight_by(me, pivot, f);
        lemma_set_sum_same(self.anticone_in_view(me, pivot), f, h);
    }

    /// Inserting a block keeps that links to children and referrers are those from them, and that
    /// heights and eras follow parents, if the header of the block names the height after that of
    /// its parent.
    pub proof fn law_insert_keeps_links(&self, block_header: BlockHeader, after: Self, index: usize)
        requires
            self.wf(),
            self.insertable(block_header),
            self.new_parent(block_header) != NULL,
            block_header.height == self.node(self.new_parent(block_header)).height + 1,
            self.links_match(self.nodes().dom()),
            self.heights_wf(),
            self.eras_wf(),
            links_added(self.nodes(), after.nodes(), index),
            self.is_new_node(block_header, after.node(index)),
            after.wf(),
            after.weight_tree == self.weight_tree,
            after.cur_era_genesis_height == self.cur_era_genesis_height,
            after.inner_conf == self.inner_conf,
        ensures
            after.links_match(after.nodes().dom()),
            after.heights_wf(),
            after.eras_wf(),
    {
        let before = self.nodes();
        let nodes = after.nodes();
        let parent = self.new_parent(block_header);
        assert(before.contains_key(parent));
        assert forall|i: usize| #[trigger] after.has(i) && after.node(i).parent != NULL implies
            after.node(i).height == after.node(after.node(i).parent).height + 1
            && after.node(i).era_block == after.era_genesis_with_parent(after.node(i).parent, 0) by {
            assert(nodes.dom().contains(i));
            if i != index {
                assert(before.contains_key(i));
                assert(self.has(i));
                assert(links_wf(before, before[i]));
                assert(before.contains_key(before[i].parent));
            }
        }
        assert forall|u: usize, v: usize|
            after.has(u) && nodes.dom().contains(v) implies (#[trigger] is_succ(nodes, u, v)
            <==> is_pred(nodes, v, u)) by {
            assert(nodes.dom().contains(u));
            assert(nodes.contains_key(v));
            assert(u != NULL);
            lemma_occurrences(nodes[index].referees@, u);
            if u == index {
                assert(!is_succ(nodes, u, v));
                if is_pred(nodes, v, u) {
                    if v != index {
                        assert(before.contains_key(v));
                        assert(is_pred(before, v, u));
                        lemma_is_pred_older(before, v, u);
                    } else {
                        lemma_is_pred_older(nodes, v, u);
                    }
                }
            } else {
                assert(before.contains_key(u));
                assert(self.has(u));
                let more = repeated(
                    index,
                    if nodes[index].parent == u {
                        1
                    } else {
                        0
                    },
                );
                let again = repeated(index, occurrences(nodes[index].referees@, u));
                lemma_joined_contains(before[u].children@, more, v);
                lemma_joined_contains(before[u].referrers@, again, v);
                lemma_repeated_contains(index, if nodes[index].parent == u { 1 } else { 0 }, v);
                lemma_repeated_contains(index, occurrences(nodes[index].referees@, u), v);
                if v == index {
                    if is_succ(before, u, v) {
                        self.lemma_succ_is_node(u, v);
                    }
                } else {
                    assert(before.contains_key(v));
                    assert(before.dom().contains(v));
                    assert(is_succ(before, u, v) <==> is_pred(before, v, u));
                }
            }
        }
    }

    /// A child or referrer is a block.
    pub proof fn lemma_succ_is_node(&self, u: usize, v: usize)
        requires
            self.wf(),
            self.has(u),
            is_succ(self.nodes(), u, v),
        ensures
            self.nodes().contains_key(v),
    {
        let n = self.node(u);
        assert(self.nodes().contains_key(u));
        assert(links_wf(self.nodes(), n));
        if n.children@.contains(v) {
            let k = choose|k: int| 0 <= k < n.children@.len() && n.children@[k] == v;
            assert(self.nodes().contains_key(n.children@[k]));
        } else {
            let k = choose|k: int| 0 <= k < n.referrers@.len() && n.referrers@[k] == v;
            assert(self.nodes().contains_key(n.referrers@[k]));
        }
    }
}

/// What two lists that are joined hold.
proof fn lemma_joined_contains(a: Seq<usize>, b: Seq<usize>, v: usize)
    ensures
        (a + b).contains(v) <==> a.contains(v) || b.contains(v),
{
    if a.contains(v) {
        let k = choose|k: int| 0 <= k < a.len() && a[k] == v;
        assert((a + b)[k] == v);
    }
    if b.contains(v) {
        let k = choose|k: int| 0 <= k < b.len() && b[k] == v;
        assert((a + b)[a.len() + k] == v);
    }
}

/// What a repeated index holds.
proof fn lemma_repeated_contains(index: usize, n: nat, v: usize)
    ensures
        repeated(index, n).contains(v) <==> v == index && n > 0,
{
    if n > 0 {
        assert(repeated(index, n)[0] == index);
    }
}

} // verus!
