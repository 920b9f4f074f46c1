//! What the timer chain in the view of a block, and the ticks that it gives, stand for.
use vstd::prelude::*;

use crate::anticone_rules::{lemma_past_is_older, lemma_past_trans};
use crate::graph::{arena_wf, ConsensusGraphInner};
use crate::node::ConsensusGraphNode;
use crate::past::{lemma_past_closed, lemma_past_least, past_closed};
use crate::reach::{
    is_pred, is_succ, lemma_reach_seed, lemma_reach_step, past_of, reach_set, reaches, reaches_in,
};
use crate::timer::{lemma_pred_older, preds_of, TimerChainTuple};
use crate::timer_chain::with_heights;
use crate::topo::lemma_is_pred_older;
use crate::types::NULL;

verus! {

/// What is in the past of a predecessor is in the past of a block.
proof fn lemma_past_trans_pred(
    nodes: Map<usize, ConsensusGraphNode>,
    x: usize,
    p: usize,
    y: usize,
)
    requires
        is_pred(nodes, x, p),
        past_of(nodes, p).contains(y),
    ensures
        past_of(nodes, x).contains(y),
{
    lemma_past_closed(nodes, x);
    lemma_past_trans(nodes, x, p, y);
}

/// What is in the past of a block, and not the block, is in the past of one of its predecessors.
proof fn lemma_past_by_pred(nodes: Map<usize, ConsensusGraphNode>, x: usize, y: usize) -> (p: usize)
    requires
        past_of(nodes, x).contains(y),
        y != x,
    ensures
        is_pred(nodes, x, p),
        past_of(nodes, p).contains(y),
{
    let s = Set::new(
        |v: usize|
            v == x || exists|p: usize| #[trigger]
                is_pred(nodes, x, p) && past_of(nodes, p).contains(v),
    );
    assert(past_closed(nodes, s)) by {
        assert forall|a: usize, b: usize|
            s.contains(a) && #[trigger] is_pred(nodes, a, b) implies s.contains(b) by {
            if a == x {
                lemma_past_closed(nodes, b);
                assert(is_pred(nodes, x, b) && past_of(nodes, b).contains(b));
            } else {
                let p = choose|p: usize| #[trigger]
                    is_pred(nodes, x, p) && past_of(nodes, p).contains(a);
                lemma_past_closed(nodes, p);
                assert(is_pred(nodes, x, p) && past_of(nodes, p).contains(b));
            }
        }
    }
    lemma_past_least(nodes, s, x);
    choose|p: usize| #[trigger] is_pred(nodes, x, p) && past_of(nodes, p).contains(y)
}

impl ConsensusGraphInner {
    /// Whether the blocks of the timer chain are timer blocks that hold their positions.
    pub open spec fn timer_chain_numbered(&self) -> bool {
        forall|i: int|
            0 <= i < self.timer_chain@.len() ==> {
                let n = self.node(#[trigger] self.timer_chain@[i]);
                &&& n.is_timer
                &&& !n.data.partial_invalid
                &&& n.timer_chain_height == self.cur_era_genesis_timer_chain_height + i
            }
    }

    /// The timer chain as a view has it: the longest one up to where the view leaves it, and then the
    /// blocks of the view.
    pub open spec fn chain_in_view(&self, t: TimerChainTuple) -> Seq<usize> {
        self.timer_chain@.take(t.0 - self.cur_era_genesis_timer_chain_height) + t.3@
    }

    /// What a parent or referee gives to a block in a view: its own tick, and one more if it is in
    /// the timer chain of the view.
    pub open spec fn given_tick(&self, t: TimerChainTuple, p: usize) -> int {
        let own = if t.1@.contains_key(p) {
            t.1@[p]
        } else {
            self.node(p).timer_chain_height
        };
        own + (if self.chain_in_view(t).contains(p) {
            1int
        } else {
            0
        })
    }

    /// The first `k` predecessors give the greatest of their ticks.
    proof fn lemma_tick_from(
        &self,
        affected: Set<usize>,
        branch: Seq<usize>,
        f: int,
        x: usize,
        k: nat,
    )
        requires
            arena_wf(self.nodes()),
            self.has(x),
            k <= preds_of(self.nodes(), x).len(),
        ensures
            ({
                let preds = preds_of(self.nodes(), x);
                let given = |p: usize|
                    (if affected.contains(p) {
                        self.tick(affected, branch, f, p)
                    } else {
                        self.node(p).timer_chain_height as int
                    }) + self.tick_bonus(branch, f, p);
                let r = self.tick_from(affected, branch, f, x, k);
                &&& forall|i: int| 0 <= i < k ==> given(#[trigger] preds[i]) <= r
                &&& k == 0 ==> r == 0
                &&& k > 0 ==> exists|i: int| 0 <= i < k && given(#[trigger] preds[i]) == r
                &&& r >= 0
            }),
        decreases self.age(x), k,
    {
        let preds = preds_of(self.nodes(), x);
        let given = |p: usize|
            (if affected.contains(p) {
                self.tick(affected, branch, f, p)
            } else {
                self.node(p).timer_chain_height as int
            }) + self.tick_bonus(branch, f, p);
        if k > 0 {
            self.lemma_tick_from(affected, branch, f, x, (k - 1) as nat);
            lemma_pred_older(self.nodes(), x, k - 1);
            let p = preds[k - 1];
            assert(self.has(p));
            if affected.contains(p) {
                self.lemma_tick_from(affected, branch, f, p, preds_of(self.nodes(), p).len());
            }
            let r = self.tick_from(affected, branch, f, x, k);
            let before = self.tick_from(affected, branch, f, x, (k - 1) as nat);
            assert(given(preds[k - 1]) >= 0);
            if r == before && k > 1 {
                let i = choose|i: int| 0 <= i < k - 1 && given(#[trigger] preds[i]) == before;
                assert(given(preds[i]) == r);
            } else {
                assert(given(preds[k - 1]) == r);
            }
        }
    }

    /// A block is before the fork in the longest timer chain exactly if it has a position there that
    /// is before the fork.
    proof fn lemma_before_fork(&self, f: int, p: usize)
        requires
            self.timer_chain_numbered(),
            0 <= f <= self.timer_chain@.len(),
            self.timer_chain@.len() <= usize::MAX,
        ensures
            self.timer_index(p) < f <==> self.timer_chain@.take(f).contains(p),
    {
        let chain = self.timer_chain@.take(f);
        if self.timer_index(p) < f {
            let d = self.node(p).timer_chain_height - self.cur_era_genesis_timer_chain_height;
            assert(self.timer_chain.len() == self.timer_chain@.len());
            assert(chain[d] == p);
        }
        if chain.contains(p) {
            let i = choose|i: int| 0 <= i < chain.len() && chain[i] == p;
            assert(self.timer_chain@[i] == p);
        }
    }

    /// In the view of a block that leaves the longest timer chain before its end, each block whose
    /// tick is told has the greatest of the ticks that its parent and all its referees give it: none
    /// of them gives more, and one of them gives exactly that; a block without any has tick zero. A
    /// parent or referee gives its own tick, and one more if it is in the timer chain of the view.
    pub proof fn law_ticks_are_greatest_given(
        &self,
        me: usize,
        anticone: Set<usize>,
        t: TimerChainTuple,
        x: usize,
    )
        requires
            self.wf(),
            self.timer_wf(),
            self.timer_chain_numbered(),
            self.has(me),
            self.is_timer_tuple(me, anticone, t),
            self.timer_tuple_ready(me, anticone),
            t.0 - self.cur_era_genesis_timer_chain_height < self.timer_chain@.len(),
            t.1@.contains_key(x),
            self.has(x),
        ensures
            forall|p: usize| #[trigger]
                is_pred(self.nodes(), x, p) ==> self.given_tick(t, p) <= t.1@[x],
            (exists|p: usize| #[trigger]
                is_pred(self.nodes(), x, p) && self.given_tick(t, p) == t.1@[x]) || (t.1@[x] == 0
                && forall|p: usize| !#[trigger] is_pred(self.nodes(), x, p)),
            self.timer_tick(x, Some(&t)) == t.1@[x],
    {
        let nodes = self.nodes();
        let f = self.fork_index_of(me);
        let branch = self.branch_of(me);
        let affected = self.affected_by(me, anticone);
        let preds = preds_of(nodes, x);
        self.lemma_fork_position(me);
        assert(affected.contains(x));
        assert(self.tick(affected, branch, f, x) <= u64::MAX);
        self.lemma_tick_from(affected, branch, f, x, preds.len());
        assert(self.timer_chain.len() == self.timer_chain@.len());
        let given = |p: usize|
            (if affected.contains(p) {
                self.tick(affected, branch, f, p)
            } else {
                self.node(p).timer_chain_height as int
            }) + self.tick_bonus(branch, f, p);
        assert forall|p: usize| #[trigger] given(p) == self.given_tick(t, p) || !preds.contains(
            p,
        ) by {
            if preds.contains(p) {
                let i = choose|i: int| 0 <= i < preds.len() && preds[i] == p;
                lemma_pred_older(nodes, x, i);
                self.lemma_tick_not_negative(affected, branch, f, p);
                if affected.contains(p) {
                    assert(self.tick(affected, branch, f, p) <= u64::MAX);
                }
                self.lemma_before_fork(f, p);
                let a = self.timer_chain@.take(f);
                assert((a + branch).contains(p) <==> a.contains(p) || branch.contains(p)) by {
                    if a.contains(p) {
                        let j = choose|j: int| 0 <= j < a.len() && a[j] == p;
                        assert((a + branch)[j] == p);
                    }
                    if branch.contains(p) {
                        let j = choose|j: int| 0 <= j < branch.len() && branch[j] == p;
                        assert((a + branch)[a.len() + j] == p);
                    }
                }
            }
        }
        self.lemma_tick_not_negative(affected, branch, f, x);
        assert forall|p: usize| #[trigger] is_pred(nodes, x, p) <==> preds.contains(p) by {
            self.lemma_preds(x, p);
        }
        assert forall|p: usize| #[trigger] is_pred(nodes, x, p) implies self.given_tick(t, p)
            <= t.1@[x] by {
            let i = choose|i: int| 0 <= i < preds.len() && preds[i] == p;
            assert(given(preds[i]) <= t.1@[x]);
        }
        if preds.len() > 0 {
            let i = choose|i: int|
                0 <= i < preds.len() && given(#[trigger] preds[i]) == self.tick(
                    affected,
                    branch,
                    f,
                    x,
                );
            let p = preds[i];
            assert(preds.contains(p));
            assert(is_pred(nodes, x, p) && self.given_tick(t, p) == t.1@[x]);
        }
    }

    proof fn lemma_tick_not_negative(
        &self,
        affected: Set<usize>,
        branch: Seq<usize>,
        f: int,
        x: usize,
    )
        requires
            arena_wf(self.nodes()),
            self.nodes().contains_key(x),
        ensures
            self.tick(affected, branch, f, x) >= 0,
    {
        assert(self.has(x));
        self.lemma_tick_from(affected, branch, f, x, preds_of(self.nodes(), x).len());
    }

    /// The predecessors of a block are its parent and its referees.
    pub proof fn lemma_preds(&self, x: usize, p: usize)
        requires
            self.wf(),
            self.has(x),
        ensures
            is_pred(self.nodes(), x, p) <==> preds_of(self.nodes(), x).contains(p),
    {
        let n = self.node(x);
        let preds = preds_of(self.nodes(), x);
        let off = if n.parent == NULL {
            0int
        } else {
            1
        };
        if n.parent != NULL {
            assert(preds[0] == n.parent);
        }
        if n.referees@.contains(p) {
            let k = choose|k: int| 0 <= k < n.referees@.len() && n.referees@[k] == p;
            assert(preds[off + k] == p);
        }
        if preds.contains(p) {
            let i = choose|i: int| 0 <= i < preds.len() && preds[i] == p;
            if i >= off {
                assert(n.referees@[i - off] == p);
            }
        }
    }

    /// Where a view leaves the longest timer chain is a position of it, or its end.
    proof fn lemma_fork_position(&self, me: usize)
        requires
            self.wf(),
            self.timer_wf(),
            self.has(me),
        ensures
            0 <= self.fork_index_of(me) <= self.timer_chain@.len(),
            self.cur_era_genesis_timer_chain_height + self.fork_index_of(me) <= u64::MAX,
            self.fork_index_of(me) > 0 ==> self.timer_chain@[self.fork_index_of(me) - 1]
                == self.branch_base_of(me),
    {
        self.lemma_base(self.node(me).last_timer_block_arena_index);
        assert(self.timer_chain.len() == self.timer_chain@.len());
    }

    /// The base of a branch is in the longest timer chain.
    proof fn lemma_base(&self, i: usize)
        ensures
            self.timer_branch_base(i) == NULL || self.timer_index(self.timer_branch_base(i))
                != NULL,
        decreases self.age(i),
    {
        let last = self.node(i).last_timer_block_arena_index;
        if !(i == NULL || self.timer_index(i) != NULL) && last != NULL && self.age(last)
            < self.age(i) {
            self.lemma_base(last);
        }
    }

    /// Whether exactly the first `k` blocks of a chain are in the past of a block, without the block.
    pub open spec fn sees_of_chain(&self, chain: Seq<usize>, x: usize, k: nat) -> bool {
        &&& k <= chain.len()
        &&& forall|i: int|
            0 <= i < chain.len() ==> (past_of(self.nodes(), x).contains(#[trigger] chain[i])
                && chain[i] != x <==> i < k)
    }

    /// Whether the tick that a view tells for a block, or else the one that is kept with it, is the
    /// number of blocks of the chain of the view in the past of the block, counted on from the era
    /// genesis.
    pub open spec fn tick_counts(&self, t: TimerChainTuple, x: usize) -> bool {
        exists|k: nat| #[trigger]
            self.sees_of_chain(self.chain_in_view(t), x, k) && self.cur_era_genesis_timer_chain_height
                + k == (if t.1@.contains_key(x) {
                t.1@[x]
            } else {
                self.node(x).timer_chain_height
            })
    }

    /// Whether each block of a chain has the ones before it in its past.
    pub open spec fn chain_linked(&self, chain: Seq<usize>) -> bool {
        forall|i: int, j: int|
            0 <= i < j < chain.len() ==> past_of(self.nodes(), #[trigger] chain[j]).contains(
                #[trigger] chain[i],
            ) && chain[i] != chain[j]
    }

    /// What is in the past of a predecessor.
    proof fn lemma_given_counts(&self, t: TimerChainTuple, p: usize) -> (k: nat)
        requires
            self.chain_linked(self.chain_in_view(t)),
            self.tick_counts(t, p),
        ensures
            k <= self.chain_in_view(t).len(),
            self.given_tick(t, p) == self.cur_era_genesis_timer_chain_height + k,
            forall|i: int|
                0 <= i < self.chain_in_view(t).len() ==> (past_of(self.nodes(), p).contains(
                    #[trigger] self.chain_in_view(t)[i],
                ) <==> i < k),
    {
        let chain = self.chain_in_view(t);
        let k = choose|k: nat| #[trigger]
            self.sees_of_chain(chain, p, k) && self.cur_era_genesis_timer_chain_height + k == (
            if t.1@.contains_key(p) {
                t.1@[p]
            } else {
                self.node(p).timer_chain_height
            });
        lemma_past_closed(self.nodes(), p);
        if chain.contains(p) {
            let m = choose|m: int| 0 <= m < chain.len() && chain[m] == p;
            assert(!(m < k));
            if k < m {
                assert(past_of(self.nodes(), chain[m]).contains(chain[k as int]));
                assert(chain[k as int] != p);
            }
            assert(k == m);
            assert forall|i: int| 0 <= i < chain.len() implies (past_of(self.nodes(), p).contains(
                #[trigger] chain[i],
            ) <==> i < k + 1) by {
                if i > m {
                    assert(chain[i] != chain[m]);
                }
            }
            k + 1
        } else {
            assert forall|i: int| 0 <= i < chain.len() implies (past_of(self.nodes(), p).contains(
                #[trigger] chain[i],
            ) <==> i < k) by {
                assert(chain[i] != p);
            }
            k
        }
    }

    /// In a view that leaves the longest timer chain before its end, the tick of each block whose tick is
    /// told is the number of blocks of the timer chain of the view that are in the past of the block,
    /// counted on from the era genesis, if that holds of what is kept with the blocks next before them,
    /// and each block of the chain has those before it in its past.
    pub proof fn law_ticks_count_chain_blocks(
        &self,
        me: usize,
        anticone: Set<usize>,
        t: TimerChainTuple,
        x: usize,
    )
        requires
            self.wf(),
            self.timer_wf(),
            self.timer_chain_numbered(),
            self.has(me),
            self.is_timer_tuple(me, anticone, t),
            self.timer_tuple_ready(me, anticone),
            t.0 - self.cur_era_genesis_timer_chain_height < self.timer_chain@.len(),
            self.chain_linked(self.chain_in_view(t)),
            forall|u: usize, p: usize|
                self.has(u) && t.1@.contains_key(u) && #[trigger] is_pred(self.nodes(), u, p)
                    && !t.1@.contains_key(p) ==> self.tick_counts(t, p),
            self.cur_era_genesis_timer_chain_height == 0 || forall|u: usize|
                self.has(u) && #[trigger] t.1@.contains_key(u) ==> exists|p: usize| #[trigger]
                    is_pred(self.nodes(), u, p),
            t.1@.contains_key(x),
            self.has(x),
        ensures
            self.tick_counts(t, x),
        decreases self.age(x),
    {
        let nodes = self.nodes();
        let chain = self.chain_in_view(t);
        let geth = self.cur_era_genesis_timer_chain_height;
        self.law_ticks_are_greatest_given(me, anticone, t, x);
        assert(nodes.contains_key(x));
        assert forall|p: usize| #[trigger] is_pred(nodes, x, p) implies self.tick_counts(t, p)
            && self.has(p) && self.age(p) < self.age(x) by {
            lemma_is_pred_older(nodes, x, p);
            if t.1@.contains_key(p) {
                self.law_ticks_count_chain_blocks(me, anticone, t, p);
            }
        }
        lemma_past_closed(nodes, x);
        if exists|p: usize| #[trigger] is_pred(nodes, x, p) {
            let q = choose|p: usize| #[trigger]
                is_pred(nodes, x, p) && self.given_tick(t, p) == t.1@[x];
            let k = self.lemma_given_counts(t, q);
            assert forall|i: int| 0 <= i < chain.len() implies (past_of(nodes, x).contains(
                #[trigger] chain[i],
            ) && chain[i] != x <==> i < k) by {
                let y = chain[i];
                if i < k {
                    lemma_past_trans_pred(nodes, x, q, y);
                    lemma_past_is_older(nodes, q, y);
                }
                if past_of(nodes, x).contains(y) && y != x {
                    let p = lemma_past_by_pred(nodes, x, y);
                    assert(self.given_tick(t, p) <= t.1@[x]);
                    let m = self.lemma_given_counts(t, p);
                }
            }
            assert(self.sees_of_chain(chain, x, k));
        } else {
            assert forall|i: int| 0 <= i < chain.len() implies (past_of(nodes, x).contains(
                #[trigger] chain[i],
            ) && chain[i] != x <==> i < 0) by {
                if past_of(nodes, x).contains(chain[i]) && chain[i] != x {
                    let p = lemma_past_by_pred(nodes, x, chain[i]);
                }
            }
            assert(self.sees_of_chain(chain, x, 0));
        }
    }

    /// Where the view of a block follows the longest timer chain to its end, the block alone gets a
    /// tick: the length of the chain.
    pub proof fn law_tick_at_the_end(&self, me: usize, anticone: Set<usize>, t: TimerChainTuple)
        requires
            self.wf(),
            self.timer_wf(),
            self.has(me),
            self.is_timer_tuple(me, anticone, t),
            t.0 - self.cur_era_genesis_timer_chain_height == self.timer_chain@.len(),
        ensures
            t.1@.dom() == set![me],
            t.1@[me] == self.cur_era_genesis_timer_chain_height + self.timer_chain@.len(),
    {
        self.lemma_fork_position(me);
        assert(t.1@.dom() =~= set![me]);
    }

    /// The blocks whose ticks are told in a view that leaves the longest timer chain before its end
    /// are the block where it leaves it, or the era genesis, and what follows from there by children
    /// and referrers outside the anticone.
    pub proof fn law_ticks_are_told_after_fork(
        &self,
        me: usize,
        anticone: Set<usize>,
        t: TimerChainTuple,
    )
        requires
            self.wf(),
            self.timer_wf(),
            self.has(me),
            self.is_timer_tuple(me, anticone, t),
            t.0 - self.cur_era_genesis_timer_chain_height < self.timer_chain@.len(),
        ensures
            ({
                let f = t.0 - self.cur_era_genesis_timer_chain_height;
                let seed = if f == 0 {
                    self.cur_era_genesis_block_arena_index
                } else {
                    self.timer_chain@[f - 1]
                };
                &&& t.1@.contains_key(seed)
                &&& forall|u: usize, v: usize|
                    t.1@.contains_key(u) && #[trigger] is_succ(self.nodes(), u, v)
                        && !anticone.contains(v) ==> t.1@.contains_key(v)
                &&& forall|v: usize| #[trigger]
                    t.1@.contains_key(v) && v != seed ==> !anticone.contains(v) && exists|u: usize|
                        t.1@.contains_key(u) && #[trigger] is_succ(self.nodes(), u, v)
            }),
    {
        self.lemma_fork_position(me);
        self.lemma_base(self.node(me).last_timer_block_arena_index);
        let nodes = self.nodes();
        let seed = self.fork_seed_of(me);
        let edge = |u: usize, v: usize| is_succ(nodes, u, v) && !anticone.contains(v);
        let affected = self.affected_by(me, anticone);
        assert(affected == reach_set(edge, set![seed]));
        assert(t.1@.dom() =~= affected);
        lemma_reach_seed(edge, set![seed], seed);
        if self.fork_index_of(me) == 0 && self.branch_base_of(me) != NULL {
            assert(self.timer_chain.len() == self.timer_chain@.len());
        }
        assert forall|u: usize, v: usize|
            t.1@.contains_key(u) && #[trigger] is_succ(nodes, u, v) && !anticone.contains(
                v,
            ) implies t.1@.contains_key(v) by {
            assert(edge(u, v));
            lemma_reach_step(edge, set![seed], u, v);
        }
        assert forall|v: usize| #[trigger]
            t.1@.contains_key(v) && v != seed implies !anticone.contains(v) && exists|u: usize|
            t.1@.contains_key(u) && #[trigger] is_succ(nodes, u, v) by {
            let n = choose|n: nat| reaches_in(edge, set![seed], v, n);
            assert(n > 0);
            let u = choose|u: usize| #[trigger]
                edge(u, v) && reaches_in(edge, set![seed], u, (n - 1) as nat);
            assert(reaches(edge, set![seed], u));
            assert(affected.contains(u));
            assert(t.1@.contains_key(u) && is_succ(nodes, u, v));
        }
    }

    /// The timer chain in the view of a block leads, from each block to the timer block before it,
    /// from the last timer block in the past of the block to where the longest timer chain is met,
    /// and is in the longest one up to there. What comes after is not in the longest one.
    pub proof fn law_view_follows_timer_links(
        &self,
        me: usize,
        anticone: Set<usize>,
        t: TimerChainTuple,
    )
        requires
            self.wf(),
            self.timer_wf(),
            self.timer_chain_numbered(),
            self.has(me),
            self.is_timer_tuple(me, anticone, t),
        ensures
            ({
                let f = t.0 - self.cur_era_genesis_timer_chain_height;
                let branch = t.3@;
                let base = if f == 0 {
                    NULL
                } else {
                    self.timer_chain@[f - 1]
                };
                let last = self.node(me).last_timer_block_arena_index;
                &&& 0 <= f <= self.timer_chain@.len()
                &&& last == (if branch.len() > 0 {
                    branch.last()
                } else {
                    base
                })
                &&& forall|i: int, j: int|
                    0 <= i && j == i + 1 && j < branch.len() ==> self.node(
                        #[trigger] branch[j],
                    ).last_timer_block_arena_index == #[trigger] branch[i]
                &&& branch.len() > 0 ==> self.node(branch[0]).last_timer_block_arena_index == base
                &&& forall|i: int|
                    0 <= i < branch.len() ==> !self.timer_chain@.contains(#[trigger] branch[i])
            }),
    {
        let last = self.node(me).last_timer_block_arena_index;
        self.lemma_fork_position(me);
        self.lemma_base(last);
        assert(self.has(me));
        self.lemma_branch_links(last);
        assert(self.timer_chain.len() == self.timer_chain@.len());
        if self.branch_base_of(me) != NULL {
            assert(self.timer_index(self.branch_base_of(me)) < usize::MAX);
            assert(self.timer_chain@[self.fork_index_of(me) - 1] == self.branch_base_of(me));
        }
    }

    /// A branch follows the links between timer blocks.
    proof fn lemma_branch_links(&self, i: usize)
        requires
            self.timer_wf(),
            self.timer_chain_numbered(),
            i == NULL || self.has(i),
        ensures
            ({
                let branch = self.timer_branch(i);
                let base = self.timer_branch_base(i);
                &&& i == (if branch.len() > 0 {
                    branch.last()
                } else {
                    base
                })
                &&& forall|a: int, b: int|
                    0 <= a && b == a + 1 && b < branch.len() ==> self.node(
                        #[trigger] branch[b],
                    ).last_timer_block_arena_index == #[trigger] branch[a]
                &&& branch.len() > 0 ==> self.node(branch[0]).last_timer_block_arena_index == base
                &&& forall|k: int|
                    0 <= k < branch.len() ==> !self.timer_chain@.contains(#[trigger] branch[k])
            }),
        decreases self.age(i),
    {
        if i != NULL && self.timer_index(i) == NULL {
            let last = self.node(i).last_timer_block_arena_index;
            assert(self.has(i));
            if self.timer_chain@.contains(i) {
                let k = choose|k: int| 0 <= k < self.timer_chain@.len() && self.timer_chain@[k] == i;
                assert(self.timer_chain.len() == self.timer_chain@.len());
                assert(self.timer_index(i) == k);
            }
            let branch = self.timer_branch(i);
            if last != NULL {
                self.lemma_branch_links(last);
                let before = self.timer_branch(last);
                assert(branch == before.push(i));
                assert forall|a: int, b: int| 0 <= a && b == a + 1 && b < branch.len() implies
                    self.node(#[trigger] branch[b]).last_timer_block_arena_index
                    == #[trigger] branch[a] by {
                    if b < before.len() {
                        assert(before[b] == branch[b] && before[a] == branch[a]);
                    } else {
                        assert(before.last() == branch[a]);
                    }
                }
                assert forall|k: int| 0 <= k < branch.len() implies !self.timer_chain@.contains(
                    #[trigger] branch[k],
                ) by {
                    if k < before.len() {
                        assert(before[k] == branch[k]);
                    }
                }
                if before.len() > 0 {
                    assert(branch[0] == before[0]);
                }
            }
        }
    }

    /// Updating the timer chain makes it the one in the view of the block, with the block itself at
    /// the end if it is a timer block that is not partial invalid.
    pub proof fn law_updated_chain_is_the_view(
        &self,
        me: usize,
        t: TimerChainTuple,
    )
        requires
            self.wf(),
            self.timer_wf(),
            self.has(me),
            self.is_timer_tuple(me, Set::empty(), t),
        ensures
            self.updated_timer_chain(me) == (if self.node(me).is_timer && !self.node(
                me,
            ).data.partial_invalid {
                self.chain_in_view(t).push(me)
            } else {
                self.chain_in_view(t)
            }),
    {
        self.lemma_fork_position(me);
    }

    /// The tick that a chain has reached is that of the era genesis and the number of its blocks.
    pub proof fn law_best_tick_counts_blocks(
        &self,
        me: usize,
        anticone: Set<usize>,
        t: &TimerChainTuple,
    )
        requires
            self.wf(),
            self.timer_wf(),
            self.has(me),
            self.is_timer_tuple(me, anticone, *t),
        ensures
            self.best_timer_tick(Some(t)) == self.cur_era_genesis_timer_chain_height
                + self.chain_in_view(*t).len(),
            self.best_timer_tick(None) == self.cur_era_genesis_timer_chain_height
                + self.timer_chain@.len(),
    {
        self.lemma_fork_position(me);
    }

    /// Updating the timer chain keeps it numbered: each of its blocks holds its position. For that the
    /// ticks next before those that are told have to count chain blocks, the blocks of the new chain
    /// have to be timer blocks, each with those before it in its past, and all of them in the past of
    /// the new block; and from where it leaves the old chain on their ticks have to be told.
    pub proof fn law_update_keeps_chain_numbered(&self, after: Self, me: usize, t: TimerChainTuple)
        requires
            self.wf(),
            self.timer_wf(),
            self.timer_chain_numbered(),
            self.has(me),
            self.is_timer_tuple(me, Set::empty(), t),
            self.timer_tuple_ready(me, Set::empty()),
            self.chain_linked(self.chain_in_view(t)),
            self.sees_of_chain(self.chain_in_view(t), me, self.chain_in_view(t).len()),
            forall|i: int|
                0 <= i < t.3@.len() ==> {
                    let n = self.node(#[trigger] t.3@[i]);
                    n.is_timer && !n.data.partial_invalid && self.has(t.3@[i])
                },
            if t.0 - self.cur_era_genesis_timer_chain_height < self.timer_chain@.len() {
                &&& t.1@.contains_key(me)
                &&& forall|i: int| 0 <= i < t.3@.len() ==> t.1@.contains_key(#[trigger] t.3@[i])
                &&& forall|u: usize, p: usize|
                    self.has(u) && t.1@.contains_key(u) && #[trigger] is_pred(self.nodes(), u, p)
                        && !t.1@.contains_key(p) ==> self.tick_counts(t, p)
                &&& self.cur_era_genesis_timer_chain_height == 0 || forall|u: usize|
                    self.has(u) && #[trigger] t.1@.contains_key(u) ==> exists|p: usize| #[trigger]
                        is_pred(self.nodes(), u, p)
            } else {
                t.3@.len() == 0
            },
            after.nodes() == with_heights(self.nodes(), self.changed_ticks(me, Set::empty())),
            after.timer_chain@ == self.updated_timer_chain(me),
            after.cur_era_genesis_timer_chain_height == self.cur_era_genesis_timer_chain_height,
        ensures
            after.timer_chain_numbered(),
    {
        let chain = self.chain_in_view(t);
        let geth = self.cur_era_genesis_timer_chain_height;
        let f = t.0 - geth;
        self.lemma_fork_position(me);
        self.law_updated_chain_is_the_view(me, t);
        assert forall|i: int| 0 <= i < after.timer_chain@.len() implies {
            let n = after.node(#[trigger] after.timer_chain@[i]);
            &&& n.is_timer
            &&& !n.data.partial_invalid
            &&& n.timer_chain_height == after.cur_era_genesis_timer_chain_height + i
        } by {
            let x = after.timer_chain@[i];
            if i < f {
                assert(chain[i] == self.timer_chain@[i]);
                assert(self.nodes().contains_key(self.timer_chain@[i]));
            } else if i < chain.len() {
                assert(chain[i] == t.3@[i - f]);
            }
            assert(self.has(x));
            self.law_update_keeps_told_ticks(after, me, t, x);
            if t.1@.contains_key(x) && f < self.timer_chain@.len() {
                self.law_ticks_count_chain_blocks(me, Set::empty(), t, x);
                let k = choose|k: nat| #[trigger]
                    self.sees_of_chain(chain, x, k) && geth + k == t.1@[x];
                assert(k == i) by {
                    lemma_past_closed(self.nodes(), x);
                    if i < chain.len() {
                        assert(x == chain[i]);
                        if k < i {
                            assert(past_of(self.nodes(), chain[i]).contains(chain[k as int]));
                            assert(chain[k as int] != chain[i]);
                        }
                    } else if k < chain.len() {
                        assert(past_of(self.nodes(), me).contains(chain[k as int]));
                    }
                }
            } else if t.1@.contains_key(x) {
                assert(x == me);
                if i < chain.len() {
                    assert(chain[i] != me);
                }
            }
        }
    }

    /// The tick of a block in a view is the one that the view tells, and where it tells none, or there is
    /// no view, the one that is kept with the block.
    pub proof fn law_tick_of_a_block(&self, x: usize, t: &TimerChainTuple)
        ensures
            t.1@.contains_key(x) ==> self.timer_tick(x, Some(t)) == t.1@[x],
            !t.1@.contains_key(x) ==> self.timer_tick(x, Some(t)) == self.node(
                x,
            ).timer_chain_height,
            self.timer_tick(x, None) == self.node(x).timer_chain_height,
    {
    }

    /// Updating the timer chain keeps with each block the tick that the view of the new block tells for
    /// it, and leaves all others, and all else, as they were.
    pub proof fn law_update_keeps_told_ticks(
        &self,
        after: Self,
        me: usize,
        t: TimerChainTuple,
        x: usize,
    )
        requires
            self.has(x),
            self.is_timer_tuple(me, Set::empty(), t),
            after.nodes() == with_heights(self.nodes(), self.changed_ticks(me, Set::empty())),
        ensures
            after.nodes().dom() == self.nodes().dom(),
            t.1@.contains_key(x) ==> after.node(x).timer_chain_height == t.1@[x],
            !t.1@.contains_key(x) ==> after.node(x) == self.node(x),
            after.node(x) == (ConsensusGraphNode {
                timer_chain_height: after.node(x).timer_chain_height,
                ..self.node(x)
            }),
    {
        assert(after.nodes().dom() =~= self.nodes().dom());
        assert(self.nodes().contains_key(x));
        assert(after.nodes().contains_key(x));
    }

    /// Where the timer chain is numbered, a block that it holds is found at its position, and a block that
    /// it does not hold is not found.
    pub proof fn law_position_in_timer_chain(&self, x: usize, i: int)
        requires
            self.timer_chain_numbered(),
            0 <= i < self.timer_chain@.len() <= usize::MAX,
        ensures
            self.timer_chain@[i] == x ==> self.timer_index(x) == i,
            !self.timer_chain@.contains(x) ==> self.timer_index(x) == usize::MAX,
    {
    }
}

} // verus!
