//! How the timer chain looks from the past of a block, and how it is updated.
use std::collections::HashMap;

use vstd::prelude::*;

use crate::graph::{all_nodes, same_graph, ConsensusGraphInner};
use crate::index_set::{index_limit, IndexSet};
use crate::lists::{append_items, first_items, map_keys};
use crate::node::{arena_get, arena_get_mut, ConsensusGraphNode};
use crate::timer::{future_outside, TimerChainTuple};
use crate::types::NULL;

verus! {

broadcast use vstd::std_specs::hash::group_hash_axioms;

/// The nodes with new timer chain heights.
pub open spec fn with_heights(
    nodes: Map<usize, ConsensusGraphNode>,
    heights: Map<usize, u64>,
) -> Map<usize, ConsensusGraphNode> {
    Map::new(
        |i: usize| nodes.contains_key(i),
        |i: usize|
            if heights.contains_key(i) {
                ConsensusGraphNode { timer_chain_height: heights[i], ..nodes[i] }
            } else {
                nodes[i]
            },
    )
}

impl ConsensusGraphInner {
    /// Whether the lowest common ancestors of some blocks can be asked for.
    pub open spec fn lca_ready(&self, list: Seq<usize>) -> bool {
        forall|k: int|
            0 <= k < list.len() ==> self.has(#[trigger] list[k]) && self.in_tree_or_legacy(list[k])
    }

    /// Whether windows over the blocks at some positions of a list can be looked at. The lowest
    /// common ancestor of a window of one block needs not be looked up.
    pub open spec fn windows_ready(&self, list: Seq<usize>, from: int, to: int) -> bool {
        forall|k: int|
            from <= k < to && 0 <= k < list.len() ==> self.has(#[trigger] list[k]) && (
            self.inner_conf.timer_chain_beta > 1 ==> self.in_tree_or_legacy(list[k]))
    }

    /// The blocks of a window can be looked up.
    pub proof fn lemma_windows_ready(&self, list: Seq<usize>, low: int, high: int, from: int, to: int)
        requires
            self.windows_ready(list, low, high),
            low <= from <= to <= high,
            0 <= from <= to <= list.len(),
            self.inner_conf.timer_chain_beta > 1 || from == to,
        ensures
            self.lca_ready(list.subrange(from, to)),
    {
        let part = list.subrange(from, to);
        assert forall|k: int| 0 <= k < part.len() implies self.has(#[trigger] part[k])
            && self.in_tree_or_legacy(part[k]) by {
            assert(self.has(list[from + k]));
        }
    }

    /// The lowest common ancestor of a block and all blocks of a list, `NULL` if there is none.
    pub open spec fn lca_with_all(&self, start: usize, list: Seq<usize>) -> usize
        decreases list.len(),
    {
        if list.len() == 0 {
            start
        } else {
            let acc = self.lca_with_all(start, list.drop_last());
            if acc == NULL {
                NULL
            } else {
                self.common_ancestor(acc, list.last())
            }
        }
    }

    /// The lowest common ancestor of a block and those between two positions of a list.
    fn fold_lca(&self, start: usize, list: &Vec<usize>, from: usize, to: usize) -> (r: usize)
        requires
            self.wf(),
            self.has(start),
            from <= to <= list@.len(),
            from < to ==> self.in_tree_or_legacy(start),
            self.lca_ready(list@.subrange(from as int, to as int)),
        ensures
            r == self.lca_with_all(start, list@.subrange(from as int, to as int)),
            r != NULL ==> self.has(r),
            r != NULL && self.in_tree_or_legacy(start) ==> self.in_tree_or_legacy(r),
    {
        let mut lca: usize = start;
        let mut j: usize = from;
        assert(list@.subrange(from as int, from as int) =~= seq![]);
        while j < to
            invariant
                from <= j <= to <= list@.len(),
                self.wf(),
                from < to ==> self.in_tree_or_legacy(start),
                self.lca_ready(list@.subrange(from as int, to as int)),
                lca == self.lca_with_all(start, list@.subrange(from as int, j as int)),
                lca != NULL ==> self.has(lca),
                lca != NULL && self.in_tree_or_legacy(start) ==> self.in_tree_or_legacy(lca),
            decreases to - j,
        {
            assert(self.has(list@.subrange(from as int, to as int)[j - from]));
            let ghost next = list@.subrange(from as int, j + 1);
            assert(next.drop_last() =~= list@.subrange(from as int, j as int));
            assert(next.last() == list@[j as int]);
            if lca != NULL {
                lca = self.lca(lca, list[j]);
            }
            j = j + 1;
        }
        lca
    }

    /// The timer blocks in the past of a block that are not in the longest timer chain.
    pub open spec fn branch_of(&self, me: usize) -> Seq<usize> {
        self.timer_branch(self.node(me).last_timer_block_arena_index)
    }

    /// The last block of the longest timer chain in the timer chain of the past of a block.
    pub open spec fn branch_base_of(&self, me: usize) -> usize {
        self.timer_branch_base(self.node(me).last_timer_block_arena_index)
    }

    /// How much of the longest timer chain is in the timer chain of the past of a block.
    pub open spec fn fork_index_of(&self, me: usize) -> int {
        if self.branch_base_of(me) == NULL {
            0
        } else {
            self.timer_index(self.branch_base_of(me)) + 1
        }
    }

    /// The block after which ticks change.
    pub open spec fn fork_seed_of(&self, me: usize) -> usize {
        if self.branch_base_of(me) == NULL {
            self.cur_era_genesis_block_arena_index
        } else {
            self.branch_base_of(me)
        }
    }

    /// The blocks whose ticks change.
    pub open spec fn affected_by(&self, me: usize, anticone: Set<usize>) -> Set<usize> {
        future_outside(self.nodes(), anticone, self.fork_seed_of(me))
    }

    /// The ticks that differ from the timer chain heights of the nodes.
    pub open spec fn changed_ticks(&self, me: usize, anticone: Set<usize>) -> Map<usize, u64> {
        let f = self.fork_index_of(me);
        if f == self.timer_chain@.len() {
            map![me => (self.cur_era_genesis_timer_chain_height + f) as u64]
        } else {
            Map::new(
                |x: usize| self.affected_by(me, anticone).contains(x),
                |x: usize|
                    self.tick(self.affected_by(me, anticone), self.branch_of(me), f, x) as u64,
            )
        }
    }

    /// The lowest common ancestor of the last `timer_chain_beta` timer blocks up to position `i`
    /// of a branch that leaves the longest timer chain at position `f`.
    pub open spec fn window_lca(&self, f: int, branch: Seq<usize>, i: int) -> usize {
        let beta = self.inner_conf.timer_chain_beta as int;
        if i + 1 >= beta {
            self.lca_with_all(branch[i], branch.subrange(i + 1 - beta, i))
        } else {
            let acc = self.lca_with_all(branch[i], branch.subrange(0, i));
            if acc == NULL {
                NULL
            } else {
                self.lca_with_all(acc, self.timer_chain@.subrange(f + i + 1 - beta, f))
            }
        }
    }

    /// The one of two blocks with the greater height; the first in a tie or if the second is
    /// `NULL`.
    pub open spec fn deeper(&self, last: usize, lca: usize) -> usize {
        if lca != NULL && self.node(last).height < self.node(lca).height {
            lca
        } else {
            last
        }
    }

    /// The accumulative lowest common ancestor after `n` timer blocks of a branch.
    pub open spec fn accumulative_lca(&self, f: int, branch: Seq<usize>, n: nat) -> usize
        decreases n,
    {
        if n == 0 {
            if f == 0 {
                self.cur_era_genesis_block_arena_index
            } else {
                self.timer_chain_accumulative_lca@[f - 1]
            }
        } else {
            let last = self.accumulative_lca(f, branch, (n - 1) as nat);
            if f + n < self.inner_conf.timer_chain_beta {
                last
            } else {
                self.deeper(last, self.window_lca(f, branch, n - 1))
            }
        }
    }

    /// The accumulative lowest common ancestors of a branch: one for each timer block that has
    /// `timer_chain_beta` timer blocks after it.
    pub open spec fn branch_lcas(&self, f: int, branch: Seq<usize>) -> Seq<usize> {
        let beta = self.inner_conf.timer_chain_beta as int;
        if branch.len() > beta {
            Seq::new(
                (branch.len() - beta) as nat,
                |i: int|
                    if f + i + 1 < beta {
                        self.cur_era_genesis_block_arena_index
                    } else {
                        self.accumulative_lca(f, branch, (i + 1) as nat)
                    },
            )
        } else {
            seq![]
        }
    }

    /// Whether the accumulative lowest common ancestors of a branch can be computed.
    pub open spec fn branch_lcas_ready(&self, f: int, branch: Seq<usize>) -> bool {
        branch.len() > self.inner_conf.timer_chain_beta ==> {
            &&& self.inner_conf.timer_chain_beta > 0
            &&& f <= self.timer_chain_accumulative_lca@.len()
            &&& f + branch.len() < usize::MAX
            &&& self.windows_ready(branch, 0, branch.len() - self.inner_conf.timer_chain_beta)
            &&& self.windows_ready(self.timer_chain@, f + 1 - self.inner_conf.timer_chain_beta, f)
        }
    }

    fn compute_window_lca(&self, f: usize, branch: &Vec<usize>, i: usize) -> (r: usize)
        requires
            self.wf(),
            i < branch@.len(),
            f <= self.timer_chain@.len(),
            0 < self.inner_conf.timer_chain_beta <= usize::MAX,
            f + i + 1 >= self.inner_conf.timer_chain_beta,
            f + branch@.len() < usize::MAX,
            self.windows_ready(branch@, 0, i + 1),
            self.windows_ready(self.timer_chain@, f + 1 - self.inner_conf.timer_chain_beta, f as int),
        ensures
            r == self.window_lca(f as int, branch@, i as int),
            r != NULL ==> self.has(r),
    {
        let beta: usize = self.inner_conf.timer_chain_beta as usize;
        assert(self.has(branch@[i as int]));
        if i + 1 >= beta {
            proof {
                self.lemma_windows_ready(branch@, 0, i + 1, i + 1 - beta, i as int);
            }
            self.fold_lca(branch[i], branch, i + 1 - beta, i)
        } else {
            proof {
                self.lemma_windows_ready(branch@, 0, i + 1, 0, i as int);
                self.lemma_windows_ready(
                    self.timer_chain@,
                    f + 1 - beta,
                    f as int,
                    f + i + 1 - beta,
                    f as int,
                );
            }
            let acc: usize = self.fold_lca(branch[i], branch, 0, i);
            if acc == NULL {
                NULL
            } else {
                self.fold_lca(acc, &self.timer_chain, f + i + 1 - beta, f)
            }
        }
    }

    fn compute_branch_lcas(&self, f: usize, branch: &Vec<usize>) -> (r: Vec<usize>)
        requires
            self.wf(),
            f <= self.timer_chain@.len(),
            self.branch_lcas_ready(f as int, branch@),
        ensures
            r@ == self.branch_lcas(f as int, branch@),
            all_nodes(self.nodes(), r@),
    {
        let mut r: Vec<usize> = Vec::new();
        let len: usize = branch.len();
        if len as u64 > self.inner_conf.timer_chain_beta {
            let beta: usize = self.inner_conf.timer_chain_beta as usize;
            let mut last_lca: usize = if f == 0 {
                self.cur_era_genesis_block_arena_index
            } else {
                assert(self.nodes().contains_key(self.timer_chain_accumulative_lca@[f - 1]));
                self.timer_chain_accumulative_lca[f - 1]
            };
            let mut i: usize = 0;
            while i < len - beta
                invariant
                    self.wf(),
                    f <= self.timer_chain@.len(),
                    self.branch_lcas_ready(f as int, branch@),
                    len == branch@.len(),
                    len > beta,
                    beta == self.inner_conf.timer_chain_beta,
                    i <= len - beta,
                    r@ == self.branch_lcas(f as int, branch@).take(i as int),
                    all_nodes(self.nodes(), r@),
                    self.has(last_lca),
                    last_lca == self.accumulative_lca(f as int, branch@, i as nat),
                decreases len - beta - i,
            {
                if f + i + 1 < beta {
                    r.push(self.cur_era_genesis_block_arena_index);
                } else {
                    let lca: usize = self.compute_window_lca(f, branch, i);
                    if lca != NULL && arena_get(&self.arena, last_lca).height < arena_get(
                        &self.arena,
                        lca,
                    ).height {
                        last_lca = lca;
                    }
                    r.push(last_lca);
                }
                i = i + 1;
                assert(r@ =~= self.branch_lcas(f as int, branch@).take(i as int));
            }
            assert(self.branch_lcas(f as int, branch@).take(i as int) =~= self.branch_lcas(
                f as int,
                branch@,
            ));
        }
        r
    }

    /// Whether the timer chain can be looked at from the past of a block.
    pub open spec fn timer_tuple_ready(&self, me: usize, anticone: Set<usize>) -> bool {
        let f = self.fork_index_of(me);
        &&& f < self.timer_chain@.len() ==> self.ticks_fit(
            self.affected_by(me, anticone),
            self.branch_of(me),
            f,
        )
        &&& self.branch_lcas_ready(f, self.branch_of(me))
    }

    /// Whether this is how the timer chain looks from the past of a block.
    pub open spec fn is_timer_tuple(
        &self,
        me: usize,
        anticone: Set<usize>,
        t: TimerChainTuple,
    ) -> bool {
        &&& t.0 == self.cur_era_genesis_timer_chain_height + self.fork_index_of(me)
        &&& t.1@ == self.changed_ticks(me, anticone)
        &&& t.2@ == self.branch_lcas(self.fork_index_of(me), self.branch_of(me))
        &&& t.3@ == self.branch_of(me)
    }

    /// The blocks to leave out, none if not given.
    pub open spec fn anticone_or_empty(anticone_opt: Option<&IndexSet>) -> Set<usize> {
        match anticone_opt {
            Some(a) => a@,
            None => Set::empty(),
        }
    }

    /// How the timer chain looks from the past of a block; blocks of the given anticone get no
    /// new ticks.
    pub fn compute_timer_chain_tuple(
        &self,
        me: usize,
        anticone_opt: Option<&IndexSet>,
    ) -> (r: TimerChainTuple)
        requires
            self.wf(),
            self.timer_wf(),
            self.has(me),
            self.timer_tuple_ready(me, Self::anticone_or_empty(anticone_opt)),
        ensures
            self.is_timer_tuple(me, Self::anticone_or_empty(anticone_opt), r),
            self.cur_era_genesis_timer_chain_height <= r.0
                <= self.cur_era_genesis_timer_chain_height + self.timer_chain@.len(),
            forall|x: usize| #[trigger] r.1@.contains_key(x) ==> self.has(x),
            all_nodes(self.nodes(), r.2@),
            all_nodes(self.nodes(), r.3@),
    {
        let empty_set: IndexSet = IndexSet::new();
        let anticone: &IndexSet = match anticone_opt {
            Some(a) => a,
            None => &empty_set,
        };
        assert(anticone@ == Self::anticone_or_empty(anticone_opt));
        let start: usize = arena_get(&self.arena, me).last_timer_block_arena_index;
        let (tmp_chain, base) = self.collect_timer_branch(start);
        let fork_at_index: usize = if base != NULL {
            self.get_timer_chain_index(base) + 1
        } else {
            0
        };
        let fork_at: u64 = self.cur_era_genesis_timer_chain_height + fork_at_index as u64;
        let res: HashMap<usize, u64>;
        if fork_at_index == self.timer_chain.len() {
            let mut single: HashMap<usize, u64> = HashMap::new();
            single.insert(me, fork_at);
            res = single;
            assert(res@ =~= self.changed_ticks(me, anticone@));
        } else {
            let seed: usize = if base == NULL {
                self.cur_era_genesis_block_arena_index
            } else {
                base
            };
            res = self.compute_ticks(seed, anticone, &tmp_chain, fork_at_index);
            assert(res@ =~= self.changed_ticks(me, anticone@));
            proof {
                self.lemma_affected_nodes(seed, anticone@);
            }
        }
        let tmp_lca: Vec<usize> = self.compute_branch_lcas(fork_at_index, &tmp_chain);
        (fork_at, res, tmp_lca, tmp_chain)
    }

    /// The blocks after a node are nodes.
    pub proof fn lemma_affected_nodes(&self, seed: usize, anticone: Set<usize>)
        requires
            self.wf(),
            self.has(seed),
        ensures
            future_outside(self.nodes(), anticone, seed).subset_of(self.nodes().dom()),
    {
        let edge = |u: usize, v: usize|
            crate::reach::is_succ(self.nodes(), u, v) && !anticone.contains(v);
        assert forall|a: usize, b: usize| self.nodes().dom().contains(a) && #[trigger] edge(
            a,
            b,
        ) implies self.nodes().dom().contains(b) by {
            assert(self.nodes().contains_key(a));
            assert(crate::graph::links_wf(self.nodes(), self.nodes()[a]));
        }
        crate::reach::lemma_reach_closed(edge, set![seed], self.nodes().dom());
    }

    /// The tick that the timer chain has reached.
    pub open spec fn best_timer_tick(&self, timer_chain_tuple: Option<&TimerChainTuple>) -> int {
        match timer_chain_tuple {
            Some(t) => t.0 + t.3@.len(),
            None => self.cur_era_genesis_timer_chain_height + self.timer_chain@.len(),
        }
    }

    /// The tick that the timer chain has reached, in the given view or else in the graph.
    pub fn get_best_timer_tick(&self, timer_chain_tuple: Option<&TimerChainTuple>) -> (r: u64)
        requires
            self.best_timer_tick(timer_chain_tuple) <= u64::MAX,
        ensures
            r == self.best_timer_tick(timer_chain_tuple),
    {
        match timer_chain_tuple {
            Some(t) => t.0 + t.3.len() as u64,
            None => self.cur_era_genesis_timer_chain_height + self.timer_chain.len() as u64,
        }
    }

    /// The tick of a block.
    pub open spec fn timer_tick(
        &self,
        me: usize,
        timer_chain_tuple: Option<&TimerChainTuple>,
    ) -> u64 {
        match timer_chain_tuple {
            Some(t) => if t.1@.contains_key(me) {
                t.1@[me]
            } else {
                self.node(me).timer_chain_height
            },
            None => self.node(me).timer_chain_height,
        }
    }

    /// Whether the tick of a block is known: it is among those that changed, or from before the
    /// fork.
    pub open spec fn timer_tick_known(
        &self,
        me: usize,
        timer_chain_tuple: Option<&TimerChainTuple>,
    ) -> bool {
        match timer_chain_tuple {
            Some(t) => t.1@.contains_key(me) || self.node(me).timer_chain_height <= t.0,
            None => true,
        }
    }

    /// The tick of a block, in the given view or else in the graph.
    pub fn get_timer_tick(
        &self,
        me: usize,
        timer_chain_tuple: Option<&TimerChainTuple>,
    ) -> (r: u64)
        requires
            self.has(me),
            self.timer_tick_known(me, timer_chain_tuple),
        ensures
            r == self.timer_tick(me, timer_chain_tuple),
    {
        match timer_chain_tuple {
            Some(t) => match t.1.get(&me) {
                Some(v) => *v,
                None => arena_get(&self.arena, me).timer_chain_height,
            },
            None => arena_get(&self.arena, me).timer_chain_height,
        }
    }

    /// The block that is force confirmed.
    pub open spec fn force_confirm(&self, timer_chain_tuple: Option<&TimerChainTuple>) -> usize {
        match timer_chain_tuple {
            Some(t) => {
                let end = t.0 - self.cur_era_genesis_timer_chain_height + t.3@.len();
                if t.2@.len() > 0 {
                    t.2@.last()
                } else if end > self.inner_conf.timer_chain_beta {
                    self.timer_chain_accumulative_lca@[end - self.inner_conf.timer_chain_beta - 1]
                } else {
                    self.cur_era_genesis_block_arena_index
                }
            },
            None => if self.timer_chain_accumulative_lca@.len() > 0 {
                self.timer_chain_accumulative_lca@.last()
            } else {
                self.cur_era_genesis_block_arena_index
            },
        }
    }

    /// Whether the force confirmed block can be told from a view of the timer chain.
    pub open spec fn force_confirm_known(
        &self,
        timer_chain_tuple: Option<&TimerChainTuple>,
    ) -> bool {
        match timer_chain_tuple {
            Some(t) => {
                let end = t.0 - self.cur_era_genesis_timer_chain_height + t.3@.len();
                &&& self.cur_era_genesis_timer_chain_height <= t.0
                &&& end <= u64::MAX
                &&& t.2@.len() == 0 && end > self.inner_conf.timer_chain_beta ==> end
                    - self.inner_conf.timer_chain_beta
                    <= self.timer_chain_accumulative_lca@.len()
                &&& all_nodes(self.nodes(), t.2@)
            },
            None => true,
        }
    }

    /// The force confirmed block, in the given view of the timer chain or else in the graph.
    pub fn compute_force_confirm(
        &self,
        timer_chain_tuple_opt: Option<&TimerChainTuple>,
    ) -> (r: usize)
        requires
            self.wf(),
            self.force_confirm_known(timer_chain_tuple_opt),
        ensures
            r == self.force_confirm(timer_chain_tuple_opt),
            self.has(r),
    {
        match timer_chain_tuple_opt {
            Some(t) => {
                let fork_end_index: u64 = t.0 - self.cur_era_genesis_timer_chain_height
                    + t.3.len() as u64;
                let extra: usize = t.2.len();
                let beta: u64 = self.inner_conf.timer_chain_beta;
                if extra > 0 {
                    assert(self.nodes().contains_key(t.2@[extra - 1]));
                    t.2[extra - 1]
                } else if fork_end_index > beta {
                    let count: usize = self.timer_chain_accumulative_lca.len();
                    assert(fork_end_index - beta <= count);
                    let index: usize = (fork_end_index - beta - 1) as usize;
                    assert(self.nodes().contains_key(
                        self.timer_chain_accumulative_lca@[index as int],
                    ));
                    self.timer_chain_accumulative_lca[index]
                } else {
                    self.cur_era_genesis_block_arena_index
                }
            },
            None => {
                let count: usize = self.timer_chain_accumulative_lca.len();
                if count > 0 {
                    assert(self.nodes().contains_key(
                        self.timer_chain_accumulative_lca@[count - 1],
                    ));
                    self.timer_chain_accumulative_lca[count - 1]
                } else {
                    self.cur_era_genesis_block_arena_index
                }
            },
        }
    }

    fn set_timer_heights(&mut self, heights: &HashMap<usize, u64>)
        requires
            old(self).wf(),
            forall|x: usize| #[trigger] heights@.contains_key(x) ==> old(self).has(x),
        ensures
            final(self).wf(),
            final(self).nodes() == with_heights(old(self).nodes(), heights@),
            *final(self) == (ConsensusGraphInner { arena: final(self).arena, ..*old(self) }),
    {
        let keys: Vec<usize> = map_keys(heights);
        let ghost start = self.nodes();
        let mut i: usize = 0;
        while i < keys.len()
            invariant
                i <= keys.len(),
                keys@.no_duplicates(),
                start == old(self).nodes(),
                forall|k: usize| #[trigger] keys@.contains(k) == heights@.contains_key(k),
                forall|x: usize| #[trigger] heights@.contains_key(x) ==> start.contains_key(x),
                *self == (ConsensusGraphInner { arena: self.arena, ..*old(self) }),
                self.nodes().dom() == start.dom(),
                forall|x: usize| #[trigger]
                    start.contains_key(x) ==> self.nodes()[x] == (if keys@.take(
                        i as int,
                    ).contains(x) {
                        ConsensusGraphNode { timer_chain_height: heights@[x], ..start[x] }
                    } else {
                        start[x]
                    }),
            decreases keys.len() - i,
        {
            let k: usize = keys[i];
            assert(keys@.contains(k));
            assert(heights@.contains_key(k));
            assert(start.contains_key(k));
            assert(!keys@.take(i as int).contains(k)) by {
                if keys@.take(i as int).contains(k) {
                    let m = choose|m: int| 0 <= m < i && keys@.take(i as int)[m] == k;
                    assert(keys@[m] == keys@[i as int]);
                }
            }
            match heights.get(&k) {
                Some(v) => {
                    arena_get_mut(&mut self.arena, k).timer_chain_height = *v;
                },
                None => {},
            }
            proof {
                assert(keys@.take(i + 1) =~= keys@.take(i as int).push(k));
                crate::reach::lemma_push_contains(keys@.take(i as int), k);
                assert(self.nodes().dom() =~= start.dom());
            }
            i = i + 1;
        }
        proof {
            assert(keys@.take(i as int) =~= keys@);
            assert(self.nodes() =~= with_heights(start, heights@));
            assert(same_graph(start, self.nodes()));
            old(self).lemma_wf_same(self);
        }
    }

    /// The longest timer chain after a block has become part of the graph.
    pub open spec fn updated_timer_chain(&self, me: usize) -> Seq<usize> {
        let chain = self.timer_chain@.take(self.fork_index_of(me)) + self.branch_of(me);
        if self.counts_as_timer(me) {
            chain.push(me)
        } else {
            chain
        }
    }

    /// The accumulative lowest common ancestors up to the timer blocks in the past of a block.
    pub open spec fn updated_past_lcas(&self, me: usize) -> Seq<usize> {
        let f = self.fork_index_of(me);
        let extra = self.branch_lcas(f, self.branch_of(me));
        let len = f + self.branch_of(me).len();
        let n = if len > self.inner_conf.timer_chain_beta {
            len - self.inner_conf.timer_chain_beta
        } else {
            0
        };
        self.timer_chain_accumulative_lca@.take(n - extra.len()) + extra
    }

    /// The accumulative lowest common ancestors after a block has become part of the graph. A
    /// timer block adds one: that of the `timer_chain_beta` timer blocks before the last
    /// `timer_chain_beta` ones, or the era genesis while there are fewer.
    pub open spec fn updated_lcas(&self, me: usize) -> Seq<usize> {
        let past = self.updated_past_lcas(me);
        let chain = self.updated_timer_chain(me);
        let beta = self.inner_conf.timer_chain_beta as int;
        if !self.counts_as_timer(me) {
            past
        } else if chain.len() >= 2 * beta {
            let e = chain.len() - beta;
            let lca = if beta == 0 {
                chain[e - 1]
            } else {
                self.lca_with_all(chain[e - 1], chain.subrange(e - beta, e - 1))
            };
            let last = if past.len() > 0 {
                past.last()
            } else {
                self.cur_era_genesis_block_arena_index
            };
            past.push(self.deeper(last, lca))
        } else if chain.len() > beta {
            past.push(self.cur_era_genesis_block_arena_index)
        } else {
            past
        }
    }

    /// Whether the accumulative lowest common ancestors reach far enough to be kept up to the
    /// fork.
    pub open spec fn lcas_cover_fork(&self, me: usize) -> bool {
        let f = self.fork_index_of(me);
        let extra = self.branch_lcas(f, self.branch_of(me));
        f + self.branch_of(me).len() - self.inner_conf.timer_chain_beta - extra.len()
            <= self.timer_chain_accumulative_lca@.len()
    }

    /// Whether the window that a timer block closes can be looked at: the blocks before the last
    /// `timer_chain_beta` ones.
    pub open spec fn new_window_ready(&self, me: usize) -> bool {
        let len = self.updated_timer_chain(me).len();
        let beta = self.inner_conf.timer_chain_beta;
        self.counts_as_timer(me) && len >= 2 * beta ==> self.windows_ready(
            self.updated_timer_chain(me),
            len - 2 * beta,
            len - beta,
        )
    }

    /// The timer chain and the accumulative lowest common ancestors that follow from a view of
    /// the timer chain.
    fn compute_updated_chains(&self, me: usize, tuple: &TimerChainTuple) -> (r: (
        Vec<usize>,
        Vec<usize>,
    ))
        requires
            self.wf(),
            self.timer_wf(),
            self.has(me),
            self.is_timer_tuple(me, Set::empty(), *tuple),
            0 <= self.fork_index_of(me) <= self.timer_chain@.len(),
            all_nodes(self.nodes(), tuple.2@),
            self.lcas_cover_fork(me),
            self.timer_chain@.len() + index_limit() < usize::MAX,
            self.new_window_ready(me),
        ensures
            r.0@ == self.updated_timer_chain(me),
            r.1@ == self.updated_lcas(me),
            all_nodes(self.nodes(), r.0@),
            all_nodes(self.nodes(), r.1@),
    {
        let fork_at: u64 = tuple.0;
        let extra_lca: &Vec<usize> = &tuple.2;
        let tmp_chain: &Vec<usize> = &tuple.3;
        proof {
            self.lemma_branch(self.node(me).last_timer_block_arena_index);
        }
        let beta: u64 = self.inner_conf.timer_chain_beta;
        let current: usize = self.timer_chain.len();
        assert(fork_at - self.cur_era_genesis_timer_chain_height <= current);
        let fork_at_index: usize = (fork_at - self.cur_era_genesis_timer_chain_height) as usize;
        let mut chain: Vec<usize> = first_items(&self.timer_chain, fork_at_index);
        append_items(&mut chain, tmp_chain);
        let len: usize = chain.len();
        let new_chain_lca_size: usize = if len as u64 > beta {
            (len as u64 - beta) as usize
        } else {
            0
        };
        assert(extra_lca@.len() <= new_chain_lca_size);
        let mut lcas: Vec<usize> = first_items(
            &self.timer_chain_accumulative_lca,
            new_chain_lca_size - extra_lca.len(),
        );
        append_items(&mut lcas, extra_lca);
        assert(lcas@ == self.updated_past_lcas(me));
        proof {
            let kept = new_chain_lca_size - extra_lca@.len();
            assert forall|i: int| 0 <= i < lcas@.len() implies self.nodes().contains_key(
                #[trigger] lcas@[i],
            ) by {
                if i < kept {
                    assert(lcas@[i] == self.timer_chain_accumulative_lca@[i]);
                } else {
                    assert(lcas@[i] == extra_lca@[i - kept]);
                }
            }
        }
        let node: &ConsensusGraphNode = arena_get(&self.arena, me);
        if node.is_timer && !node.data.partial_invalid {
            chain.push(me);
            assert(chain@ == self.updated_timer_chain(me));
            assert(self.nodes().contains_key(me));
            assert(all_nodes(self.nodes(), chain@));
            let total: usize = chain.len();
            if total as u64 >= beta && total as u64 - beta >= beta {
                let e: usize = (total as u64 - beta) as usize;
                assert(self.nodes().contains_key(chain@[e - 1]));
                proof {
                    if beta > 0 {
                        assert(self.has(chain@[e - 1]));
                        self.lemma_windows_ready(chain@, e - beta, e as int, e - beta, e - 1);
                    }
                }
                let lca: usize = if beta == 0 {
                    chain[e - 1]
                } else {
                    self.fold_lca(chain[e - 1], &chain, e - beta as usize, e - 1)
                };
                let count: usize = lcas.len();
                let last_lca: usize = if count > 0 {
                    lcas[count - 1]
                } else {
                    self.cur_era_genesis_block_arena_index
                };
                assert(self.has(last_lca)) by {
                    if count > 0 {
                        assert(self.nodes().contains_key(lcas@[count - 1]));
                    }
                }
                if lca != NULL && arena_get(&self.arena, last_lca).height < arena_get(
                    &self.arena,
                    lca,
                ).height {
                    lcas.push(lca);
                } else {
                    lcas.push(last_lca);
                }
            } else if total as u64 > beta {
                lcas.push(self.cur_era_genesis_block_arena_index);
            }
        }
        assert(chain@ =~= self.updated_timer_chain(me));
        assert(lcas@ =~= self.updated_lcas(me));
        proof {
            assert(all_nodes(self.nodes(), chain@));
            assert(all_nodes(self.nodes(), lcas@));
        }
        (chain, lcas)
    }

    /// Makes the timer chain in the past of a block the longest one, with the block itself if it
    /// is a timer block.
    pub fn update_timer_chain(&mut self, me: usize)
        requires
            old(self).wf(),
            old(self).timer_wf(),
            old(self).has(me),
            old(self).timer_tuple_ready(me, Set::empty()),
            old(self).changed_ticks(me, Set::empty()).contains_key(me),
            old(self).lcas_cover_fork(me),
            old(self).timer_chain@.len() + index_limit() < usize::MAX,
            old(self).new_window_ready(me),
        ensures
            final(self).wf(),
            final(self).nodes() == with_heights(
                old(self).nodes(),
                old(self).changed_ticks(me, Set::empty()),
            ),
            final(self).timer_chain@ == old(self).updated_timer_chain(me),
            final(self).timer_chain_accumulative_lca@ == old(self).updated_lcas(me),
            *final(self) == (ConsensusGraphInner {
                arena: final(self).arena,
                timer_chain: final(self).timer_chain,
                timer_chain_accumulative_lca: final(self).timer_chain_accumulative_lca,
                ..*old(self)
            }),
    {
        let tuple: TimerChainTuple = self.compute_timer_chain_tuple(me, None);
        let (chain, lcas) = self.compute_updated_chains(me, &tuple);
        self.set_timer_heights(&tuple.1);
        let ghost mid = *self;
        self.timer_chain = chain;
        self.timer_chain_accumulative_lca = lcas;
        proof {
            assert(mid.nodes().dom() == old(self).nodes().dom());
            mid.lemma_wf_chains(self);
        }
    }
}

} // verus!
