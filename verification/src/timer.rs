//! The timer chain: the longest chain of timer blocks and the ticks it gives to blocks.
use std::collections::HashMap;

use vstd::prelude::*;

use crate::age::by_age;
use crate::graph::{all_nodes, arena_wf, links_wf, ConsensusGraphInner};
use crate::index_set::{index_limit, IndexSet};
use crate::lists::reversed;
use crate::node::{arena_get, ConsensusGraphNode};
use crate::reach::{
    is_succ, lemma_nodes_count, lemma_push_contains, reach_set, steps, Direction, Filter,
};
use crate::types::NULL;

verus! {

broadcast use vstd::std_specs::hash::group_hash_axioms;

/// How the timer chain looks from the past of a block: the timer chain height from which it
/// differs from the longest timer chain, the timer chain heights that are then different, the
/// accumulative lowest common ancestors and the timer blocks from that height on.
pub type TimerChainTuple = (u64, HashMap<usize, u64>, Vec<usize>, Vec<usize>);

/// The parent, if there is one, and the referees of a block.
pub open spec fn preds_of(nodes: Map<usize, ConsensusGraphNode>, x: usize) -> Seq<usize> {
    (if nodes[x].parent == NULL {
        seq![]
    } else {
        seq![nodes[x].parent]
    }) + nodes[x].referees@
}

/// The blocks that are reached from `seed` by children and referrers outside a set.
pub open spec fn future_outside(
    nodes: Map<usize, ConsensusGraphNode>,
    avoid: Set<usize>,
    seed: usize,
) -> Set<usize> {
    reach_set(|u: usize, v: usize| is_succ(nodes, u, v) && !avoid.contains(v), set![seed])
}

/// Parent and referees are older.
pub proof fn lemma_pred_older(nodes: Map<usize, ConsensusGraphNode>, x: usize, k: int)
    requires
        arena_wf(nodes),
        nodes.contains_key(x),
        0 <= k < preds_of(nodes, x).len(),
    ensures
        nodes.contains_key(preds_of(nodes, x)[k]),
        nodes[preds_of(nodes, x)[k]].data.sequence_number < nodes[x].data.sequence_number,
{
    assert(links_wf(nodes, nodes[x]));
    if k >= 1 || nodes[x].parent == NULL {
        let q = if nodes[x].parent == NULL {
            k
        } else {
            k - 1
        };
        assert(nodes[x].referees@[q] == preds_of(nodes, x)[k]);
    }
}

/// In a list by age what is older than an item comes before it.
pub proof fn lemma_older_before(
    nodes: Map<usize, ConsensusGraphNode>,
    order: Seq<usize>,
    n: int,
    p: usize,
)
    requires
        by_age(nodes, order),
        0 <= n < order.len(),
        nodes[p].data.sequence_number < nodes[order[n]].data.sequence_number,
    ensures
        order.contains(p) <==> order.take(n).contains(p),
{
    if order.contains(p) {
        let m = choose|m: int| 0 <= m < order.len() && order[m] == p;
        if m >= n {
            assert(nodes[order[n]].data.sequence_number <= nodes[order[m]].data.sequence_number);
        }
        assert(order.take(n)[m] == p);
    }
    if order.take(n).contains(p) {
        let m = choose|m: int| 0 <= m < n && order.take(n)[m] == p;
        assert(order[m] == p);
    }
}

impl ConsensusGraphInner {
    /// The sequence number of a block.
    pub open spec fn age(&self, i: usize) -> nat {
        self.node(i).data.sequence_number as nat
    }

    /// Whether a block counts for the timer chain.
    pub open spec fn counts_as_timer(&self, i: usize) -> bool {
        self.node(i).is_timer && !self.node(i).data.partial_invalid
    }

    /// The position of a block in the longest timer chain, `NULL` if it is not there.
    pub open spec fn timer_index(&self, me: usize) -> usize {
        let d = self.node(me).timer_chain_height - self.cur_era_genesis_timer_chain_height;
        if self.counts_as_timer(me) && 0 <= d < self.timer_chain@.len() && self.timer_chain@[d]
            == me {
            d as usize
        } else {
            NULL
        }
    }

    /// Whether the links between timer blocks lead to older blocks, and the timer chain is not too
    /// long to be counted.
    pub open spec fn timer_wf(&self) -> bool {
        &&& forall|i: usize| #[trigger]
            self.has(i) && self.node(i).last_timer_block_arena_index != NULL ==> self.has(
                self.node(i).last_timer_block_arena_index,
            ) && self.age(self.node(i).last_timer_block_arena_index) < self.age(i)
        &&& self.cur_era_genesis_timer_chain_height + self.timer_chain@.len() <= u64::MAX
    }

    /// The position of a block in the longest timer chain; `NULL` if it is not there.
    pub fn get_timer_chain_index(&self, me: usize) -> (r: usize)
        requires
            self.has(me),
        ensures
            r == self.timer_index(me),
            r != NULL ==> r < self.timer_chain@.len() && self.timer_chain@[r as int] == me
                && self.node(me).timer_chain_height == self.cur_era_genesis_timer_chain_height + r,
    {
        let node: &ConsensusGraphNode = arena_get(&self.arena, me);
        if !node.is_timer || node.data.partial_invalid || node.timer_chain_height
            < self.cur_era_genesis_timer_chain_height {
            return NULL;
        }
        let timer_chain_index: u64 = node.timer_chain_height
            - self.cur_era_genesis_timer_chain_height;
        let len: usize = self.timer_chain.len();
        if len as u64 > timer_chain_index {
            let index: usize = timer_chain_index as usize;
            if self.timer_chain[index] == me {
                return index;
            }
        }
        NULL
    }

    /// The timer blocks from `i` back to where the longest timer chain is met, the oldest first.
    pub open spec fn timer_branch(&self, i: usize) -> Seq<usize>
        decreases self.age(i),
    {
        let last = self.node(i).last_timer_block_arena_index;
        if i == NULL || self.timer_index(i) != NULL {
            seq![]
        } else if last != NULL && self.age(last) < self.age(i) {
            self.timer_branch(last).push(i)
        } else {
            seq![i]
        }
    }

    /// The block of the longest timer chain that is met going back from `i`, or `NULL`.
    pub open spec fn timer_branch_base(&self, i: usize) -> usize
        decreases self.age(i),
    {
        let last = self.node(i).last_timer_block_arena_index;
        if i == NULL || self.timer_index(i) != NULL {
            i
        } else if last != NULL && self.age(last) < self.age(i) {
            self.timer_branch_base(last)
        } else {
            NULL
        }
    }

    /// Follows the timer blocks back from `start`.
    pub(crate) fn collect_timer_branch(&self, start: usize) -> (r: (Vec<usize>, usize))
        requires
            self.wf(),
            self.timer_wf(),
            start == NULL || self.has(start),
        ensures
            r.0@ == self.timer_branch(start),
            r.1 == self.timer_branch_base(start),
            r.1 != NULL ==> self.has(r.1) && self.timer_index(r.1) != NULL,
            r.0@.no_duplicates(),
            all_nodes(self.nodes(), r.0@),
            r.0@.len() <= index_limit(),
    {
        let mut back: Vec<usize> = Vec::new();
        let mut i: usize = start;
        while i != NULL && self.get_timer_chain_index(i) == NULL
            invariant
                self.wf(),
                self.timer_wf(),
                i == NULL || self.has(i),
                self.timer_branch(start) == self.timer_branch(i) + back@.reverse(),
                self.timer_branch_base(start) == self.timer_branch_base(i),
                all_nodes(self.nodes(), back@),
                back@.no_duplicates(),
                forall|k: int|
                    0 <= k < back@.len() && i != NULL ==> self.age(i) < self.age(
                        #[trigger] back@[k],
                    ),
            ensures
                i == NULL || self.has(i) && self.timer_index(i) != NULL,
            decreases (if i == NULL { 0int } else { self.age(i) as int + 1 }),
        {
            let ghost before = back@;
            let last: usize = arena_get(&self.arena, i).last_timer_block_arena_index;
            assert(self.has(i));
            back.push(i);
            assert(back@.reverse() =~= seq![i] + before.reverse());
            assert(self.timer_branch(start) =~= self.timer_branch(last) + back@.reverse());
            i = last;
        }
        assert(self.timer_branch(i) =~= seq![]);
        assert(self.timer_branch(start) =~= back@.reverse());
        let branch: Vec<usize> = reversed(&back);
        proof {
            assert forall|a: int, b: int| 0 <= a < b < branch@.len() implies branch@[a]
                != branch@[b] by {
                assert(back@[branch@.len() - 1 - a] != back@[branch@.len() - 1 - b]);
            }
            lemma_nodes_count(self.nodes(), branch@);
        }
        (branch, i)
    }

    /// A branch holds nodes, and none of them twice.
    pub proof fn lemma_branch(&self, i: usize)
        requires
            arena_wf(self.nodes()),
            self.timer_wf(),
            i == NULL || self.has(i),
        ensures
            all_nodes(self.nodes(), self.timer_branch(i)),
            self.timer_branch(i).no_duplicates(),
            forall|k: int|
                0 <= k < self.timer_branch(i).len() ==> self.age(#[trigger] self.timer_branch(i)[k])
                    <= self.age(i),
            self.timer_branch(i).len() <= index_limit(),
        decreases self.age(i),
    {
        if i != NULL && self.timer_index(i) == NULL {
            assert(self.has(i));
            let last = self.node(i).last_timer_block_arena_index;
            if last != NULL {
                self.lemma_branch(last);
            }
        }
        lemma_nodes_count(self.nodes(), self.timer_branch(i));
    }

    /// The extra tick that a block gives to those after it.
    pub open spec fn tick_bonus(&self, branch: Seq<usize>, fork_at_index: int, p: usize) -> int {
        if branch.contains(p) || self.timer_index(p) < fork_at_index {
            1
        } else {
            0
        }
    }

    /// The greatest tick that the first `k` predecessors of `x` give to `x`.
    pub open spec fn tick_from(
        &self,
        affected: Set<usize>,
        branch: Seq<usize>,
        fork_at_index: int,
        x: usize,
        k: nat,
    ) -> int
        decreases self.age(x), k,
    {
        let preds = preds_of(self.nodes(), x);
        if k == 0 || k > preds.len() {
            0
        } else {
            let p = preds[k - 1];
            let before = self.tick_from(affected, branch, fork_at_index, x, (k - 1) as nat);
            let own = if affected.contains(p) && self.age(p) < self.age(x) {
                self.tick_from(
                    affected,
                    branch,
                    fork_at_index,
                    p,
                    preds_of(self.nodes(), p).len(),
                )
            } else {
                self.node(p).timer_chain_height as int
            };
            let tick = own + self.tick_bonus(branch, fork_at_index, p);
            if tick > before {
                tick
            } else {
                before
            }
        }
    }

    /// The tick of a block: the greatest among its parent and referees, each with its extra
    /// tick; the ticks of affected blocks are computed anew.
    pub open spec fn tick(
        &self,
        affected: Set<usize>,
        branch: Seq<usize>,
        fork_at_index: int,
        x: usize,
    ) -> int {
        self.tick_from(
            affected,
            branch,
            fork_at_index,
            x,
            preds_of(self.nodes(), x).len(),
        )
    }

    proof fn lemma_tick_from_grows(
        &self,
        affected: Set<usize>,
        branch: Seq<usize>,
        fork_at_index: int,
        x: usize,
        k: nat,
        m: nat,
    )
        requires
            k <= m <= preds_of(self.nodes(), x).len(),
        ensures
            self.tick_from(affected, branch, fork_at_index, x, k) <= self.tick_from(
                affected,
                branch,
                fork_at_index,
                x,
                m,
            ),
        decreases m,
    {
        if k < m {
            self.lemma_tick_from_grows(affected, branch, fork_at_index, x, k, (m - 1) as nat);
        }
    }

    /// Whether the ticks of all affected blocks are numbers that a block can hold.
    pub open spec fn ticks_fit(
        &self,
        affected: Set<usize>,
        branch: Seq<usize>,
        fork_at_index: int,
    ) -> bool {
        forall|x: usize| #[trigger]
            affected.contains(x) ==> self.tick(affected, branch, fork_at_index, x) <= u64::MAX
    }

    /// The tick of one block from those of the older blocks.
    #[verifier::spinoff_prover]
    #[verifier::rlimit(40)]
    fn compute_tick(
        &self,
        x: usize,
        res: &HashMap<usize, u64>,
        branch_set: &IndexSet,
        fork_at_index: usize,
        Ghost(affected): Ghost<Set<usize>>,
        Ghost(branch): Ghost<Seq<usize>>,
    ) -> (r: u64)
        requires
            arena_wf(self.nodes()),
            self.timer_wf(),
            self.has(x),
            self.tick(affected, branch, fork_at_index as int, x) <= u64::MAX,
            forall|v: usize| #[trigger] branch_set@.contains(v) <==> branch.contains(v),
            forall|p: usize|
                self.age(p) < self.age(x) ==> (#[trigger] affected.contains(p)
                    <==> res@.contains_key(p)),
            forall|v: usize| #[trigger]
                res@.contains_key(v) ==> res@[v] == self.tick(
                    affected,
                    branch,
                    fork_at_index as int,
                    v,
                ),
        ensures
            r == self.tick(affected, branch, fork_at_index as int, x),
    {
        let ghost f = fork_at_index as int;
        let preds: Vec<usize> = self.linked(Direction::Past, x);
        assert(preds@ == preds_of(self.nodes(), x));
        let mut timer_chain_height: u64 = 0;
        let mut k: usize = 0;
        while k < preds.len()
            invariant
                k <= preds.len(),
                self.has(x),
                preds@ == preds_of(self.nodes(), x),
                all_nodes(self.nodes(), preds@),
                arena_wf(self.nodes()),
                self.timer_wf(),
                f == fork_at_index,
                self.tick(affected, branch, f, x) <= u64::MAX,
                forall|v: usize| #[trigger] branch_set@.contains(v) <==> branch.contains(v),
                forall|p: usize|
                    self.age(p) < self.age(x) ==> (#[trigger] affected.contains(p)
                        <==> res@.contains_key(p)),
                forall|v: usize| #[trigger]
                    res@.contains_key(v) ==> res@[v] == self.tick(affected, branch, f, v),
                timer_chain_height == self.tick_from(affected, branch, f, x, k as nat),
            decreases preds.len() - k,
        {
            let p: usize = preds[k];
            assert(self.has(p)) by {
                assert(self.nodes().contains_key(preds@[k as int]));
            }
            let own: u64 = match res.get(&p) {
                Some(v) => *v,
                None => arena_get(&self.arena, p).timer_chain_height,
            };
            proof {
                lemma_pred_older(self.nodes(), x, k as int);
                assert(affected.contains(p) <==> res@.contains_key(p));
                self.lemma_tick_from_grows(affected, branch, f, x, (k + 1) as nat, preds@.len());
            }
            let extra: bool = branch_set.contains(p) || self.get_timer_chain_index(p)
                < fork_at_index;
            let height: u64 = if extra {
                own + 1
            } else {
                own
            };
            if height > timer_chain_height {
                timer_chain_height = height;
            }
            k = k + 1;
        }
        timer_chain_height
    }

    /// The ticks of the blocks after `seed`.
    pub(crate) fn compute_ticks(
        &self,
        seed: usize,
        anticone: &IndexSet,
        branch: &Vec<usize>,
        fork_at_index: usize,
    ) -> (r: HashMap<usize, u64>)
        requires
            self.wf(),
            self.timer_wf(),
            self.has(seed),
            all_nodes(self.nodes(), branch@),
            self.ticks_fit(
                future_outside(self.nodes(), anticone@, seed),
                branch@,
                fork_at_index as int,
            ),
        ensures
            r@.dom() == future_outside(self.nodes(), anticone@, seed),
            forall|x: usize| #[trigger]
                r@.contains_key(x) ==> r@[x] == self.tick(
                    future_outside(self.nodes(), anticone@, seed),
                    branch@,
                    fork_at_index as int,
                    x,
                ),
    {
        let ghost affected = future_outside(self.nodes(), anticone@, seed);
        let ghost f = fork_at_index as int;
        let mut branch_set: IndexSet = IndexSet::new();
        let mut b: usize = 0;
        while b < branch.len()
            invariant
                b <= branch.len(),
                arena_wf(self.nodes()),
                all_nodes(self.nodes(), branch@),
                forall|v: usize| #[trigger]
                    branch_set@.contains(v) <==> branch@.take(b as int).contains(v),
            decreases branch.len() - b,
        {
            assert(self.nodes().contains_key(branch@[b as int]));
            branch_set.add(branch[b]);
            proof {
                assert(branch@.take(b + 1) =~= branch@.take(b as int).push(branch@[b as int]));
                lemma_push_contains(branch@.take(b as int), branch@[b as int]);
            }
            b = b + 1;
        }
        assert(branch@.take(b as int) =~= branch@);
        let mut seeds: Vec<usize> = Vec::new();
        seeds.push(seed);
        assert(seeds@.to_set() =~= set![seed]) by {
            assert(seeds@[0] == seed);
        }
        let (visited, met) = self.traverse(Direction::Future, Filter::Outside(anticone), &seeds);
        assert(steps(self.nodes(), Direction::Future, Filter::Outside(anticone)) =~= (|
            u: usize,
            v: usize,
        |
            is_succ(self.nodes(), u, v) && !anticone@.contains(v)));
        assert(visited@ == affected);
        let order: Vec<usize> = self.sort_by_age(&met);
        proof {
            assert forall|v: usize| #[trigger] order@.contains(v) <==> affected.contains(v) by {
                assert(met@.contains(v) <==> met@.to_set().contains(v));
            }
            assert forall|n: int| 0 <= n < order@.len() implies self.nodes().contains_key(
                #[trigger] order@[n],
            ) by {
                assert(order@.contains(order@[n]));
                assert(met@.contains(order@[n]));
                let m = choose|m: int| 0 <= m < met@.len() && met@[m] == order@[n];
                assert(self.nodes().contains_key(met@[m]));
            }
        }
        let mut res: HashMap<usize, u64> = HashMap::new();
        let mut n: usize = 0;
        while n < order.len()
            invariant
                n <= order.len(),
                arena_wf(self.nodes()),
                self.timer_wf(),
                f == fork_at_index,
                order@.no_duplicates(),
                by_age(self.nodes(), order@),
                all_nodes(self.nodes(), order@),
                forall|v: usize| #[trigger] order@.contains(v) <==> affected.contains(v),
                forall|v: usize| #[trigger] branch_set@.contains(v) <==> branch@.contains(v),
                self.ticks_fit(affected, branch@, f),
                forall|v: usize| #[trigger]
                    res@.contains_key(v) <==> order@.take(n as int).contains(v),
                forall|v: usize| #[trigger]
                    res@.contains_key(v) ==> res@[v] == self.tick(affected, branch@, f, v),
            decreases order.len() - n,
        {
            let x: usize = order[n];
            assert(self.nodes().contains_key(order@[n as int]));
            assert(order@.contains(x));
            proof {
                assert forall|p: usize| self.age(p) < self.age(x) implies (#[trigger] affected.contains(
                    p,
                ) <==> res@.contains_key(p)) by {
                    lemma_older_before(self.nodes(), order@, n as int, p);
                }
            }
            let timer_chain_height: u64 = self.compute_tick(
                x,
                &res,
                &branch_set,
                fork_at_index,
                Ghost(affected),
                Ghost(branch@),
            );
            let ghost old_res = res@;
            res.insert(x, timer_chain_height);
            proof {
                assert(order@.take(n + 1) =~= order@.take(n as int).push(x));
                lemma_push_contains(order@.take(n as int), x);
                assert(res@ == old_res.insert(x, timer_chain_height));
            }
            n = n + 1;
        }
        proof {
            assert(order@.take(n as int) =~= order@);
            assert(res@.dom() =~= affected);
        }
        res
    }
}

} // verus!
