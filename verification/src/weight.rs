//! The weights of blocks, subtrees and epochs.
use vstd::prelude::*;

use crate::age::by_age;
use crate::graph::{all_nodes, arena_wf, children_wf, links_wf, ConsensusGraphInner};
use crate::index_set::IndexSet;
use crate::node::{arena_capacity, arena_get, ConsensusGraphNode};
use crate::reach::{
    is_succ, lemma_push_contains, lemma_reach_closed, lemma_reach_seed, lemma_reach_step,
    reach_set, steps, Direction, Filter,
};
use crate::sums::{
    lemma_list_sum_grows, lemma_list_sum_next, lemma_set_sum_list, list_sum, set_sum,
};
use crate::types::NULL;

verus! {

impl ConsensusGraphInner {
    /// Whether a block can weigh anything: it is active and not partial invalid.
    pub open spec fn weighs(&self, me: usize) -> bool {
        self.node(me).data.activated && !self.node(me).data.partial_invalid
    }

    /// The weight of a block. A block that is not active or is partial invalid weighs nothing.
    /// One that is not adaptive weighs its difficulty. An adaptive one weighs
    /// `heavy_block_difficulty_ratio` times its difficulty if it is heavy, and otherwise nothing.
    pub open spec fn weight(&self, me: usize) -> int {
        let n = self.node(me);
        if !self.weighs(me) {
            0
        } else if !n.adaptive {
            n.difficulty.low as int
        } else if n.is_heavy {
            self.inner_conf.heavy_block_difficulty_ratio * n.difficulty.low
        } else {
            0
        }
    }

    /// Whether the weight of a block can be computed.
    pub open spec fn weight_fits(&self, me: usize) -> bool {
        let n = self.node(me);
        &&& self.weighs(me) && (!n.adaptive || n.is_heavy) ==> n.difficulty.low <= i128::MAX
        &&& self.weight(me) <= i128::MAX
    }

    /// The weight of a block.
    pub fn block_weight(&self, me: usize) -> (r: i128)
        requires
            self.has(me),
            self.weight_fits(me),
        ensures
            r == self.weight(me),
            r >= 0,
    {
        let node: &ConsensusGraphNode = arena_get(&self.arena, me);
        if !node.data.activated || node.data.partial_invalid {
            return 0;
        }
        let is_heavy: bool = node.is_heavy;
        let is_adaptive: bool = node.adaptive;
        proof {
            assert(self.inner_conf.heavy_block_difficulty_ratio * self.node(me).difficulty.low >= 0)
                by (nonlinear_arith)
                requires
                    self.inner_conf.heavy_block_difficulty_ratio >= 0,
                    self.node(me).difficulty.low >= 0,
            ;
        }
        if is_adaptive {
            if is_heavy {
                self.inner_conf.heavy_block_difficulty_ratio as i128
                    * node.difficulty.low_u128() as i128
            } else {
                0
            }
        } else {
            node.difficulty.low_u128() as i128
        }
    }

    /// No block has a negative weight.
    pub proof fn lemma_weight_not_negative(&self, me: usize)
        ensures
            self.weight(me) >= 0,
    {
        assert(self.inner_conf.heavy_block_difficulty_ratio * self.node(me).difficulty.low >= 0)
            by (nonlinear_arith)
            requires
                self.inner_conf.heavy_block_difficulty_ratio >= 0,
                self.node(me).difficulty.low >= 0,
        ;
    }

    /// The difficulty that a block adds to a timer chain.
    pub open spec fn timer_difficulty(&self, me: usize) -> int {
        if self.counts_as_timer(me) {
            self.node(me).difficulty.low as int
        } else {
            0
        }
    }

    /// The difficulty that a block adds to a timer chain: none if it is no timer block or is
    /// partial invalid.
    pub fn get_timer_difficulty(&self, me: usize) -> (r: i128)
        requires
            self.has(me),
            self.timer_difficulty(me) <= i128::MAX,
        ensures
            r == self.timer_difficulty(me),
    {
        let node: &ConsensusGraphNode = arena_get(&self.arena, me);
        if node.is_timer && !node.data.partial_invalid {
            node.difficulty.low_u128() as i128
        } else {
            0
        }
    }

    /// The genesis that stands for the era; the current one in place of `NULL`.
    pub open spec fn genesis_or_current(&self, genesis: usize) -> usize {
        if genesis != NULL {
            genesis
        } else {
            self.cur_era_genesis_block_arena_index
        }
    }

    /// Whether a block counts for the era of a genesis: all do for the current one, and for
    /// another one those in its subtree.
    pub open spec fn counts_for_era(&self, i: usize, genesis: usize) -> bool {
        let g = self.genesis_or_current(genesis);
        g == self.cur_era_genesis_block_arena_index || (self.node(i).height >= self.node(g).height
            && self.ancestor_at_height(i, self.node(g).height as int) == g)
    }

    /// What a block adds to the weight of an epoch in the era of a genesis.
    pub open spec fn weight_in_era(&self, genesis: usize) -> spec_fn(usize) -> int {
        |i: usize|
            if self.counts_for_era(i, genesis) {
                self.weight(i)
            } else {
                0
            }
    }

    /// Whether it can be told if a block counts for the era of a genesis.
    pub open spec fn era_known(&self, i: usize, genesis: usize) -> bool {
        let g = self.genesis_or_current(genesis);
        g != self.cur_era_genesis_block_arena_index && self.node(i).height >= self.node(g).height
            ==> self.weight_tree.has(i)
    }

    /// The total weight of blocks that count for the era of a genesis.
    pub fn total_weight_in_own_epoch(
        &self,
        blockset_in_own_epoch: &Vec<usize>,
        genesis: usize,
    ) -> (r: i128)
        requires
            self.wf(),
            all_nodes(self.nodes(), blockset_in_own_epoch@),
            self.has(self.genesis_or_current(genesis)),
            self.node(self.genesis_or_current(genesis)).height >= self.cur_era_genesis_height,
            self.node(self.genesis_or_current(genesis)).height - self.cur_era_genesis_height
                <= usize::MAX,
            forall|k: int|
                0 <= k < blockset_in_own_epoch@.len() ==> self.era_known(
                    #[trigger] blockset_in_own_epoch@[k],
                    genesis,
                ) && (self.counts_for_era(blockset_in_own_epoch@[k], genesis)
                    ==> self.weight_fits(blockset_in_own_epoch@[k])),
            list_sum(blockset_in_own_epoch@, self.weight_in_era(genesis)) <= i128::MAX,
        ensures
            r == list_sum(blockset_in_own_epoch@, self.weight_in_era(genesis)),
    {
        let gen_arena_index: usize = if genesis != NULL {
            genesis
        } else {
            self.cur_era_genesis_block_arena_index
        };
        let gen_height: u64 = arena_get(&self.arena, gen_arena_index).height;
        let mut total_weight: i128 = 0;
        let ghost list = blockset_in_own_epoch@;
        let ghost f = self.weight_in_era(genesis);
        proof {
            assert forall|x: usize| #[trigger] f(x) >= 0 by {
                self.lemma_weight_not_negative(x);
            }
        }
        let mut k: usize = 0;
        assert(list.take(0) =~= seq![]);
        while k < blockset_in_own_epoch.len()
            invariant
                k <= blockset_in_own_epoch.len(),
                list == blockset_in_own_epoch@,
                f == self.weight_in_era(genesis),
                forall|x: usize| #[trigger] f(x) >= 0,
                self.wf(),
                all_nodes(self.nodes(), list),
                gen_arena_index == self.genesis_or_current(genesis),
                self.has(gen_arena_index),
                gen_height == self.node(gen_arena_index).height,
                gen_height >= self.cur_era_genesis_height,
                gen_height - self.cur_era_genesis_height <= usize::MAX,
                forall|k: int|
                    0 <= k < list.len() ==> self.era_known(#[trigger] list[k], genesis) && (
                    self.counts_for_era(list[k], genesis) ==> self.weight_fits(list[k])),
                list_sum(list, f) <= i128::MAX,
                total_weight == list_sum(list.take(k as int), f),
            decreases blockset_in_own_epoch.len() - k,
        {
            let index: usize = blockset_in_own_epoch[k];
            proof {
                assert(self.nodes().contains_key(list[k as int]));
                assert(self.era_known(list[k as int], genesis));
                lemma_list_sum_next(list, f, k as int);
                lemma_list_sum_grows(list, f, k as int);
                lemma_list_sum_grows(list, f, k + 1);
            }
            let counts: bool = if gen_arena_index != self.cur_era_genesis_block_arena_index {
                arena_get(&self.arena, index).height >= gen_height && self.ancestor_at(
                    index,
                    gen_height,
                ) == gen_arena_index
            } else {
                true
            };
            if counts {
                total_weight = total_weight + self.block_weight(index);
            }
            k = k + 1;
        }
        assert(list.take(k as int) =~= list);
        total_weight
    }

    /// The blocks in the past of a pivot block that come after the last pivot block in the past
    /// of `me`.
    pub open spec fn recent_past(&self, me: usize, pivot: usize) -> Set<usize> {
        reach_set(
            steps(
                self.nodes(),
                Direction::Past,
                Filter::EpochAfter(self.node(me).last_pivot_in_past),
            ),
            set![pivot],
        )
    }

    /// The steps to children and referrers in a set.
    pub open spec fn future_steps_inside(&self, view: Set<usize>) -> spec_fn(
        usize,
        usize,
    ) -> bool {
        |u: usize, v: usize| is_succ(self.nodes(), u, v) && view.contains(v)
    }

    /// The future of `me`, with `me`, in the view of a pivot block.
    pub open spec fn future_in_view(&self, me: usize, pivot: usize) -> Set<usize> {
        reach_set(self.future_steps_inside(self.recent_past(me, pivot)), set![me])
    }

    /// The weight of a block if it is in the same era as a pivot block.
    pub open spec fn weight_in_same_era(&self, pivot: usize) -> spec_fn(usize) -> int {
        |i: usize|
            if self.same_era(i, pivot) {
                self.weight(i)
            } else {
                0
            }
    }

    /// The weight of the anticone of `me` in the view of a pivot block: what the view weighs
    /// without the past and the future of `me`.
    pub open spec fn anticone_weight(&self, me: usize, pivot: usize) -> int {
        self.node(pivot).past_era_weight - self.node(me).past_era_weight + self.weight(pivot)
            - set_sum(self.future_in_view(me, pivot), self.weight_in_same_era(pivot))
    }

    /// Computes the weight of the anticone of `me` in the view of a pivot block of its era.
    pub fn recompute_anticone_weight(&self, me: usize, pivot_block_arena_index: usize) -> (r: i128)
        requires
            self.wf(),
            self.has(me),
            self.has(pivot_block_arena_index),
            self.same_era(me, pivot_block_arena_index),
            forall|v: usize| #[trigger]
                self.recent_past(me, pivot_block_arena_index).contains(v) ==> self.node(v).parent
                    != NULL,
            self.weight_fits(pivot_block_arena_index),
            forall|v: usize| #[trigger]
                self.future_in_view(me, pivot_block_arena_index).contains(v) && self.same_era(
                    v,
                    pivot_block_arena_index,
                ) ==> self.weight_fits(v),
            i128::MIN <= self.node(pivot_block_arena_index).past_era_weight - self.node(
                me,
            ).past_era_weight <= i128::MAX,
            self.node(pivot_block_arena_index).past_era_weight - self.node(me).past_era_weight
                + self.weight(pivot_block_arena_index) <= i128::MAX,
            self.anticone_weight(me, pivot_block_arena_index) >= i128::MIN,
        ensures
            r == self.anticone_weight(me, pivot_block_arena_index),
    {
        let ghost pivot = pivot_block_arena_index;
        let mut seeds: Vec<usize> = Vec::new();
        seeds.push(pivot_block_arena_index);
        assert(seeds@.to_set() =~= set![pivot]) by {
            assert(seeds@[0] == pivot);
        }
        let last_pivot: u64 = arena_get(&self.arena, me).last_pivot_in_past;
        let (visited, _) = self.traverse(
            Direction::Past,
            Filter::EpochAfter(last_pivot),
            &seeds,
        );
        let mut seeds2: Vec<usize> = Vec::new();
        seeds2.push(me);
        assert(seeds2@.to_set() =~= set![me]) by {
            assert(seeds2@[0] == me);
        }
        let (visited2, list) = self.traverse(Direction::Future, Filter::Inside(&visited), &seeds2);
        assert(steps(self.nodes(), Direction::Future, Filter::Inside(&visited))
            =~= self.future_steps_inside(self.recent_past(me, pivot)));
        assert(visited2@ == self.future_in_view(me, pivot));
        let mut total_weight: i128 = arena_get(
            &self.arena,
            pivot_block_arena_index,
        ).past_era_weight - arena_get(&self.arena, me).past_era_weight + self.block_weight(
            pivot_block_arena_index,
        );
        let ghost start = total_weight as int;
        let ghost f = self.weight_in_same_era(pivot);
        proof {
            assert forall|x: usize| #[trigger] f(x) >= 0 by {
                self.lemma_weight_not_negative(x);
            }
            lemma_set_sum_list(list@, f);
            assert forall|k: int| 0 <= k < list@.len() && self.same_era(
                #[trigger] list@[k],
                pivot,
            ) implies self.weight_fits(list@[k]) by {
                assert(list@.to_set().contains(list@[k]));
                assert(self.future_in_view(me, pivot).contains(list@[k]));
            }
        }
        let mut k: usize = 0;
        assert(list@.take(0) =~= seq![]);
        while k < list.len()
            invariant
                k <= list.len(),
                all_nodes(self.nodes(), list@),
                self.has(pivot_block_arena_index),
                pivot == pivot_block_arena_index,
                f == self.weight_in_same_era(pivot),
                forall|x: usize| #[trigger] f(x) >= 0,
                forall|k: int|
                    0 <= k < list@.len() && self.same_era(#[trigger] list@[k], pivot)
                        ==> self.weight_fits(list@[k]),
                start <= i128::MAX,
                start - list_sum(list@, f) >= i128::MIN,
                total_weight == start - list_sum(list@.take(k as int), f),
            decreases list.len() - k,
        {
            let index: usize = list[k];
            proof {
                assert(self.nodes().contains_key(list@[k as int]));
                lemma_list_sum_next(list@, f, k as int);
                lemma_list_sum_grows(list@, f, k as int);
                lemma_list_sum_grows(list@, f, k + 1);
            }
            if self.is_same_era(index, pivot_block_arena_index) {
                total_weight = total_weight - self.block_weight(index);
            }
            k = k + 1;
        }
        assert(list@.take(k as int) =~= list@);
        total_weight
    }

    /// The steps to children other than barrier blocks and `me`.
    pub open spec fn kept_steps(&self, me: usize, barrier: Set<usize>) -> spec_fn(
        usize,
        usize,
    ) -> bool {
        |u: usize, v: usize|
            self.node(u).children@.contains(v) && !barrier.contains(v) && v != me
    }

    /// The subtree of the era genesis without the subtrees of barrier blocks and of `me`.
    pub open spec fn kept_subtree(&self, me: usize, barrier: Set<usize>) -> Set<usize> {
        reach_set(self.kept_steps(me, barrier), set![self.cur_era_genesis_block_arena_index])
    }

    /// The total weight below the first `k` children of `x` that are kept.
    pub open spec fn children_weight(&self, kept: Set<usize>, x: usize, k: nat) -> int
        decreases u64::MAX - self.age(x), k,
    {
        let children = self.node(x).children@;
        if k == 0 || k > children.len() {
            0
        } else {
            let c = children[k - 1];
            let below = if kept.contains(c) && self.age(c) > self.age(x) {
                self.weight(c) + self.children_weight(kept, c, self.node(c).children@.len())
            } else {
                0
            };
            self.children_weight(kept, x, (k - 1) as nat) + below
        }
    }

    /// The weight of a block and of all blocks that are kept below it.
    pub open spec fn subtree_weight(&self, kept: Set<usize>, x: usize) -> int {
        self.weight(x) + self.children_weight(kept, x, self.node(x).children@.len())
    }

    /// The part of the weight below `x` that was counted already.
    spec fn counted_weight(&self, kept: Set<usize>, counted: Set<usize>, x: usize, k: nat) -> int
        decreases k,
    {
        if k == 0 {
            0
        } else {
            let c = self.node(x).children@[k - 1];
            self.counted_weight(kept, counted, x, (k - 1) as nat) + (if kept.contains(c)
                && counted.contains(c) {
                self.subtree_weight(kept, c)
            } else {
                0
            })
        }
    }

    proof fn lemma_subtree_weight_not_negative(&self, kept: Set<usize>, x: usize, k: nat)
        ensures
            self.children_weight(kept, x, k) >= 0,
        decreases u64::MAX - self.age(x), k,
    {
        let children = self.node(x).children@;
        if 0 < k <= children.len() {
            let c = children[k - 1];
            self.lemma_subtree_weight_not_negative(kept, x, (k - 1) as nat);
            if kept.contains(c) && self.age(c) > self.age(x) {
                self.lemma_weight_not_negative(c);
                self.lemma_subtree_weight_not_negative(kept, c, self.node(c).children@.len());
            }
        }
    }

    proof fn lemma_counted_bounds(
        &self,
        kept: Set<usize>,
        counted: Set<usize>,
        x: usize,
        k: nat,
    )
        requires
            arena_wf(self.nodes()),
            self.has(x),
            k <= self.node(x).children@.len(),
        ensures
            0 <= self.counted_weight(kept, counted, x, k) <= self.children_weight(kept, x, k),
            (forall|c: usize| self.age(c) > self.age(x) && #[trigger] kept.contains(c)
                ==> counted.contains(c)) ==> self.counted_weight(kept, counted, x, k)
                == self.children_weight(kept, x, k),
        decreases k,
    {
        if k > 0 {
            self.lemma_counted_bounds(kept, counted, x, (k - 1) as nat);
            let c = self.node(x).children@[k - 1];
            assert(links_wf(self.nodes(), self.node(x)));
            assert(self.age(c) > self.age(x));
            self.lemma_weight_not_negative(c);
            self.lemma_subtree_weight_not_negative(kept, c, self.node(c).children@.len());
            assert(self.children_weight(kept, x, k) == self.children_weight(
                kept,
                x,
                (k - 1) as nat,
            ) + (if kept.contains(c) {
                self.subtree_weight(kept, c)
            } else {
                0
            }));
        }
    }

    proof fn lemma_counted_insert(
        &self,
        kept: Set<usize>,
        counted: Set<usize>,
        c: usize,
        x: usize,
        k: nat,
    )
        requires
            arena_wf(self.nodes()),
            self.has(x),
            k <= self.node(x).children@.len(),
            kept.contains(c),
            !counted.contains(c),
        ensures
            self.counted_weight(kept, counted.insert(c), x, k) == self.counted_weight(
                kept,
                counted,
                x,
                k,
            ) + (if self.node(x).children@.take(k as int).contains(c) {
                self.subtree_weight(kept, c)
            } else {
                0
            }),
        decreases k,
    {
        let children = self.node(x).children@;
        if k > 0 {
            self.lemma_counted_insert(kept, counted, c, x, (k - 1) as nat);
            assert(children_wf(self.nodes(), x));
            let d = children[k - 1];
            let before = children.take(k - 1);
            assert(children.take(k as int) =~= before.push(d));
            lemma_push_contains(before, d);
            if d == c && before.contains(c) {
                let m = choose|m: int| 0 <= m < before.len() && before[m] == c;
                assert(children[m] == children[k - 1]);
            }
        }
    }

    /// What was added up for a block so far.
    spec fn partial_weight(&self, kept: Set<usize>, counted: Set<usize>, x: usize) -> int {
        if kept.contains(x) {
            (if counted.contains(x) {
                self.weight(x)
            } else {
                0
            }) + self.counted_weight(kept, counted, x, self.node(x).children@.len())
        } else {
            0
        }
    }

    proof fn lemma_counted_none(&self, kept: Set<usize>, x: usize, k: nat)
        ensures
            self.counted_weight(kept, Set::empty(), x, k) == 0,
        decreases k,
    {
        if k > 0 {
            self.lemma_counted_none(kept, x, (k - 1) as nat);
        }
    }

    /// Once all younger blocks are counted, nothing is missing below a block.
    proof fn lemma_all_younger_counted(
        &self,
        kept: Set<usize>,
        counted: Set<usize>,
        order: Seq<usize>,
        p: int,
    )
        requires
            arena_wf(self.nodes()),
            0 <= p < order.len(),
            self.has(order[p]),
            order.no_duplicates(),
            by_age(self.nodes(), order),
            forall|v: usize| #[trigger] order.contains(v) <==> kept.contains(v),
            forall|v: usize| #[trigger] counted.contains(v) <==> order.skip(p + 1).contains(v),
        ensures
            !counted.contains(order[p]),
            self.counted_weight(kept, counted, order[p], self.node(order[p]).children@.len())
                == self.children_weight(kept, order[p], self.node(order[p]).children@.len()),
    {
        let x = order[p];
        let rest = order.skip(p + 1);
        assert(!counted.contains(x)) by {
            if rest.contains(x) {
                let m = choose|m: int| 0 <= m < rest.len() && rest[m] == x;
                assert(order[p + 1 + m] == order[p]);
            }
        }
        assert forall|c: usize| self.age(c) > self.age(x) && #[trigger] kept.contains(
            c,
        ) implies counted.contains(c) by {
            assert(order.contains(c));
            let m = choose|m: int| 0 <= m < order.len() && order[m] == c;
            if m <= p {
                assert(self.nodes()[order[m]].data.sequence_number
                    <= self.nodes()[order[p]].data.sequence_number);
            }
            assert(rest[m - p - 1] == c);
        }
        self.lemma_counted_bounds(kept, counted, x, self.node(x).children@.len());
    }

    proof fn lemma_parent_kept(&self, me: usize, barrier: Set<usize>, x: usize)
        requires
            self.wf(),
            self.subtree_weights_fit(me, barrier),
            self.kept_subtree(me, barrier).contains(x),
            x != self.cur_era_genesis_block_arena_index,
        ensures
            self.has(self.node(x).parent),
            self.kept_subtree(me, barrier).contains(self.node(x).parent),
            self.node(self.node(x).parent).children@.contains(x),
    {
        let kept = self.kept_subtree(me, barrier);
        self.lemma_kept(me, barrier);
        let u = choose|u: usize| kept.contains(u) && #[trigger] self.node(u).children@.contains(x);
        assert(self.has(u));
        assert(children_wf(self.nodes(), u));
        let k = choose|k: int|
            0 <= k < self.node(u).children@.len() && self.node(u).children@[k] == x;
        assert(self.nodes()[self.nodes()[u].children@[k]].parent == u);
    }

    /// How counting one more block changes what is added up.
    proof fn lemma_partial_step(
        &self,
        me: usize,
        barrier: Set<usize>,
        counted: Set<usize>,
        x: usize,
    )
        requires
            self.wf(),
            self.subtree_weights_fit(me, barrier),
            self.kept_subtree(me, barrier).contains(x),
            !counted.contains(x),
        ensures
            forall|y: usize| #[trigger]
                self.partial_weight(self.kept_subtree(me, barrier), counted.insert(x), y)
                    == self.partial_weight(self.kept_subtree(me, barrier), counted, y) + (if y
                    == x {
                    self.weight(x)
                } else if y == self.node(x).parent && y != NULL {
                    self.subtree_weight(self.kept_subtree(me, barrier), x)
                } else {
                    0
                }),
    {
        let kept = self.kept_subtree(me, barrier);
        let g = self.cur_era_genesis_block_arena_index;
        self.lemma_kept(me, barrier);
        assert forall|y: usize| #[trigger]
            self.partial_weight(kept, counted.insert(x), y) == self.partial_weight(kept, counted, y)
                + (if y == x {
                self.weight(x)
            } else if y == self.node(x).parent && y != NULL {
                self.subtree_weight(kept, x)
            } else {
                0
            }) by {
            if x != g {
                self.lemma_parent_kept(me, barrier, x);
            }
            if kept.contains(y) {
                let children = self.node(y).children@;
                self.lemma_counted_insert(kept, counted, x, y, children.len());
                assert(children.take(children.len() as int) =~= children);
                if children.contains(x) {
                    let k = choose|k: int| 0 <= k < children.len() && children[k] == x;
                    assert(children_wf(self.nodes(), y));
                    assert(links_wf(self.nodes(), self.node(y)));
                    assert(self.age(children[k]) > self.age(y));
                    assert(self.nodes()[self.nodes()[y].children@[k]].parent == y
                        || self.node(x).parent == NULL);
                }
            }
        }
    }

    pub proof fn lemma_kept(&self, me: usize, barrier: Set<usize>)
        requires
            self.wf(),
        ensures
            forall|x: usize| #[trigger]
                self.kept_subtree(me, barrier).contains(x) ==> self.has(x) && self.age(x)
                    >= self.age(self.cur_era_genesis_block_arena_index) && (x
                    == self.cur_era_genesis_block_arena_index || exists|u: usize|
                    self.kept_subtree(me, barrier).contains(u) && #[trigger] self.node(
                        u,
                    ).children@.contains(x)) && (x == self.cur_era_genesis_block_arena_index || (
                !barrier.contains(x) && x != me)),
            self.kept_subtree(me, barrier).contains(self.cur_era_genesis_block_arena_index),
    {
        let g = self.cur_era_genesis_block_arena_index;
        let kept = self.kept_subtree(me, barrier);
        let edge = self.kept_steps(me, barrier);
        let s = Set::new(
            |x: usize|
                kept.contains(x) && self.has(x) && self.age(x) >= self.age(g) && (x == g
                    || exists|u: usize|
                    kept.contains(u) && #[trigger] self.node(u).children@.contains(x)) && (x == g
                    || (!barrier.contains(x) && x != me)),
        );
        lemma_reach_seed(edge, set![g], g);
        assert(s.contains(g));
        assert forall|a: usize, b: usize| s.contains(a) && #[trigger] edge(a, b) implies s.contains(
            b,
        ) by {
            lemma_reach_step(edge, set![g], a, b);
            assert(links_wf(self.nodes(), self.node(a)));
            let k = choose|k: int|
                0 <= k < self.node(a).children@.len() && self.node(a).children@[k] == b;
            assert(self.nodes().contains_key(self.node(a).children@[k]));
            assert(self.age(self.node(a).children@[k]) > self.age(a));
        }
        lemma_reach_closed(edge, set![g], s);
    }

    /// Whether the weights of the subtrees that are kept can be computed.
    pub open spec fn subtree_weights_fit(&self, me: usize, barrier: Set<usize>) -> bool {
        let kept = self.kept_subtree(me, barrier);
        forall|x: usize| #[trigger]
            kept.contains(x) ==> self.weight_fits(x) && self.subtree_weight(kept, x) <= i128::MAX
                && (self.node(x).parent == NULL <==> x == self.cur_era_genesis_block_arena_index)
    }

    /// Adds up one more block after all younger ones.
    #[verifier::rlimit(30)]
    fn add_up_block(
        &self,
        x: usize,
        r: &mut Vec<i128>,
        Ghost(me): Ghost<usize>,
        Ghost(barrier): Ghost<Set<usize>>,
        Ghost(counted): Ghost<Set<usize>>,
    )
        requires
            self.wf(),
            self.subtree_weights_fit(me, barrier),
            self.kept_subtree(me, barrier).contains(x),
            !counted.contains(x),
            self.counted_weight(
                self.kept_subtree(me, barrier),
                counted,
                x,
                self.node(x).children@.len(),
            ) == self.children_weight(
                self.kept_subtree(me, barrier),
                x,
                self.node(x).children@.len(),
            ),
            forall|y: usize| #[trigger] self.has(y) ==> y < old(r)@.len(),
            forall|j: int|
                0 <= j < old(r)@.len() ==> #[trigger] old(r)@[j] == self.partial_weight(
                    self.kept_subtree(me, barrier),
                    counted,
                    j as usize,
                ),
        ensures
            final(r)@.len() == old(r)@.len(),
            forall|j: int|
                0 <= j < final(r)@.len() ==> #[trigger] final(r)@[j] == self.partial_weight(
                    self.kept_subtree(me, barrier),
                    counted.insert(x),
                    j as usize,
                ),
    {
        let ghost kept = self.kept_subtree(me, barrier);
        proof {
            self.lemma_kept(me, barrier);
            self.lemma_partial_step(me, barrier, counted, x);
            assert(self.has(x));
            assert(self.weight_fits(x));
            assert(r@[x as int] == self.partial_weight(kept, counted, x));
            self.lemma_subtree_weight_not_negative(kept, x, self.node(x).children@.len());
        }
        let count: usize = r.len();
        let weight: i128 = self.block_weight(x);
        let total: i128 = r[x] + weight;
        assert(total == self.subtree_weight(kept, x));
        r.set(x, total);
        let parent: usize = arena_get(&self.arena, x).parent;
        if parent != NULL {
            proof {
                self.lemma_parent_kept(me, barrier, x);
                assert(self.has(parent));
                assert(links_wf(self.nodes(), self.node(x)));
                assert(parent != x);
                self.lemma_counted_bounds(
                    kept,
                    counted.insert(x),
                    parent,
                    self.node(parent).children@.len(),
                );
                self.lemma_counted_bounds(
                    kept,
                    counted,
                    parent,
                    self.node(parent).children@.len(),
                );
                self.lemma_weight_not_negative(parent);
                assert(self.partial_weight(kept, counted.insert(x), parent)
                    <= self.subtree_weight(kept, parent));
                assert(old(r)@[parent as int] == self.partial_weight(kept, counted, parent));
            }
            r.set(parent, r[parent] + total);
        }
        proof {
            assert forall|j: int| 0 <= j < r@.len() implies #[trigger] r@[j]
                == self.partial_weight(kept, counted.insert(x), j as usize) by {
                let y = j as usize;
                assert(y == j && j < count);
                assert(old(r)@[j] == self.partial_weight(kept, counted, y));
                assert(self.partial_weight(kept, counted.insert(x), y) == self.partial_weight(
                    kept,
                    counted,
                    y,
                ) + (if y == x {
                    self.weight(x)
                } else if y == self.node(x).parent && y != NULL {
                    self.subtree_weight(kept, x)
                } else {
                    0
                }));
                if y == x {
                    assert(r@[j] == old(r)@[j] + self.weight(x));
                } else if y == parent && y != NULL {
                    assert(r@[j] == old(r)@[j] + total);
                } else {
                    assert(r@[j] == old(r)@[j]);
                }
            }
        }
    }

    /// The subtree weight of each block of the era, with the subtrees of barrier blocks and of
    /// `me` left out.
    pub fn compute_subtree_weights(&self, me: usize, anticone_barrier: &IndexSet) -> (r: Vec<i128>)
        requires
            self.wf(),
            self.has(me),
            self.subtree_weights_fit(me, anticone_barrier@),
        ensures
            forall|x: usize| #[trigger] self.has(x) ==> x < r@.len(),
            forall|i: int|
                0 <= i < r@.len() ==> #[trigger] r@[i] == (if self.kept_subtree(
                    me,
                    anticone_barrier@,
                ).contains(i as usize) {
                    self.subtree_weight(self.kept_subtree(me, anticone_barrier@), i as usize)
                } else {
                    0
                }),
    {
        let genesis: usize = self.cur_era_genesis_block_arena_index;
        let ghost kept = self.kept_subtree(me, anticone_barrier@);
        let mut avoid: IndexSet = anticone_barrier.copy();
        assert(self.nodes().contains_key(me));
        avoid.add(me);
        let mut seeds: Vec<usize> = Vec::new();
        seeds.push(genesis);
        assert(seeds@.to_set() =~= set![genesis]) by {
            assert(seeds@[0] == genesis);
        }
        assert(all_nodes(self.nodes(), seeds@));
        let (visited, met) = self.traverse(Direction::Children, Filter::Outside(&avoid), &seeds);
        assert(steps(self.nodes(), Direction::Children, Filter::Outside(&avoid))
            =~= self.kept_steps(me, anticone_barrier@));
        assert(visited@ == kept);
        let order: Vec<usize> = self.sort_by_age(&met);
        proof {
            self.lemma_kept(me, anticone_barrier@);
            assert forall|v: usize| #[trigger] order@.contains(v) <==> kept.contains(v) by {
                assert(met@.contains(v) <==> met@.to_set().contains(v));
            }
        }
        let n: usize = arena_capacity(&self.arena);
        let mut r: Vec<i128> = Vec::new();
        let mut i: usize = 0;
        while i < n
            invariant
                i <= n,
                r@.len() == i,
                forall|j: int| 0 <= j < i ==> #[trigger] r@[j] == 0,
            decreases n - i,
        {
            r.push(0);
            i = i + 1;
        }
        let mut p: usize = order.len();
        let ghost mut counted: Set<usize> = Set::empty();
        proof {
            assert forall|j: int| 0 <= j < n implies #[trigger] r@[j] == self.partial_weight(
                kept,
                counted,
                j as usize,
            ) by {
                self.lemma_counted_none(kept, j as usize, self.node(j as usize).children@.len());
            }
        }
        while p > 0
            invariant
                p <= order.len(),
                self.wf(),
                genesis == self.cur_era_genesis_block_arena_index,
                kept == self.kept_subtree(me, anticone_barrier@),
                self.subtree_weights_fit(me, anticone_barrier@),
                order@.no_duplicates(),
                by_age(self.nodes(), order@),
                forall|v: usize| #[trigger] order@.contains(v) <==> kept.contains(v),
                forall|v: usize| #[trigger]
                    counted.contains(v) <==> order@.skip(p as int).contains(v),
                n == r@.len(),
                forall|x: usize| #[trigger] self.has(x) ==> x < n,
                forall|j: int|
                    0 <= j < n ==> #[trigger] r@[j] == self.partial_weight(
                        kept,
                        counted,
                        j as usize,
                    ),
            decreases p,
        {
            p = p - 1;
            let x: usize = order[p];
            proof {
                self.lemma_kept(me, anticone_barrier@);
                assert(order@.contains(x));
                assert(order@.skip(p as int) =~= seq![x] + order@.skip(p + 1));
                self.lemma_all_younger_counted(kept, counted, order@, p as int);
            }
            self.add_up_block(x, &mut r, Ghost(me), Ghost(anticone_barrier@), Ghost(counted));
            proof {
                let rest = order@.skip(p + 1);
                assert forall|v: usize| #[trigger]
                    counted.insert(x).contains(v) <==> order@.skip(p as int).contains(v) by {
                    if rest.contains(v) {
                        let m = choose|m: int| 0 <= m < rest.len() && rest[m] == v;
                        assert(order@.skip(p as int)[m + 1] == v);
                    }
                    if v == x {
                        assert(order@.skip(p as int)[0] == v);
                    }
                    if order@.skip(p as int).contains(v) {
                        let m = choose|m: int|
                            0 <= m < order@.skip(p as int).len() && order@.skip(p as int)[m] == v;
                        if m > 0 {
                            assert(rest[m - 1] == v);
                        }
                    }
                }
                counted = counted.insert(x);
            }
        }
        proof {
            assert(order@.skip(0) =~= order@);
            assert forall|i: int| 0 <= i < r@.len() implies #[trigger] r@[i] == (if kept.contains(
                i as usize,
            ) {
                self.subtree_weight(kept, i as usize)
            } else {
                0
            }) by {
                if kept.contains(i as usize) {
                    assert(order@.contains(i as usize));
                    self.lemma_counted_bounds(
                        kept,
                        counted,
                        i as usize,
                        self.node(i as usize).children@.len(),
                    );
                }
            }
        }
        r
    }
}

} // verus!
