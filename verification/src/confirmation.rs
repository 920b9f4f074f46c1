//! The rule by which the timer chain force confirms blocks.
use vstd::prelude::*;

use crate::graph::ConsensusGraphInner;
use crate::lineage::{
    ancestor, lca_of, lemma_ancestor_add, lemma_ancestor_prefix, lemma_ancestor_ranked,
    lemma_lca_exists, lemma_on_path_trans, on_path, parent_of,
};
use crate::timer::TimerChainTuple;
use crate::timer_chain::with_heights;
use crate::types::NULL;

verus! {

impl ConsensusGraphInner {
    /// Whether the `timer_chain_beta` consecutive blocks of a timer chain that end at position `j`
    /// are all in the subtree of `x`.
    pub open spec fn confirmed_at(&self, chain: Seq<usize>, x: usize, j: int) -> bool {
        let beta = self.inner_conf.timer_chain_beta as int;
        &&& beta - 1 <= j < chain.len()
        &&& forall|k: int|
            j + 1 - beta <= k <= j ==> on_path(
                self.weight_tree.parents(),
                x,
                #[trigger] chain[k],
            )
    }

    /// Whether `x` is the era genesis, or is confirmed at a position not after `last`.
    pub open spec fn confirmed_by(&self, chain: Seq<usize>, x: usize, last: int) -> bool {
        x == self.cur_era_genesis_block_arena_index || exists|j: int|
            j <= last && #[trigger] self.confirmed_at(chain, x, j)
    }

    /// Whether the accumulative lowest common ancestors of a timer chain are confirmed by it: there
    /// is one for each block that has `timer_chain_beta` blocks after it, and each is the era
    /// genesis, or has `timer_chain_beta` consecutive blocks not after its position below it.
    pub open spec fn lcas_confirmed(&self, chain: Seq<usize>, lcas: Seq<usize>) -> bool {
        &&& lcas.len() == (if chain.len() > self.inner_conf.timer_chain_beta {
            chain.len() - self.inner_conf.timer_chain_beta
        } else {
            0
        })
        &&& forall|i: int|
            0 <= i < lcas.len() ==> self.confirmed_by(chain, #[trigger] lcas[i], i)
    }

    /// Whether the accumulative lowest common ancestors of a timer chain are the highest blocks that
    /// it confirms: their heights do not fall, from that of the era genesis on, and no block that is
    /// confirmed at a position is higher than the one for that position.
    pub open spec fn lcas_highest(&self, chain: Seq<usize>, lcas: Seq<usize>) -> bool {
        &&& forall|i: int, j: int|
            0 <= i <= j < lcas.len() ==> self.node(#[trigger] lcas[i]).height <= self.node(
                #[trigger] lcas[j],
            ).height
        &&& forall|i: int|
            0 <= i < lcas.len() ==> self.node(self.cur_era_genesis_block_arena_index).height
                <= self.node(#[trigger] lcas[i]).height
        &&& self.inner_conf.timer_chain_beta > 0 ==> forall|x: usize, j: int|
            #[trigger] self.confirmed_at(chain, x, j) && 0 <= j < lcas.len() && self.has(x)
                ==> self.node(x).height <= self.node(lcas[j]).height
    }

    /// Whether the blocks of a list were received one after the other.
    pub open spec fn in_age_order(&self, list: Seq<usize>) -> bool {
        forall|i: int, j: int|
            0 <= i < j < list.len() ==> self.age(#[trigger] list[i]) < self.age(#[trigger] list[j])
    }

    /// Whether the accumulative lowest common ancestors of a timer chain are what it confirms: each
    /// is confirmed, and no confirmed block is higher.
    pub open spec fn confirms(&self, chain: Seq<usize>, lcas: Seq<usize>) -> bool {
        &&& self.in_age_order(chain)
        &&& self.lcas_confirmed(chain, lcas)
        &&& self.lcas_highest(chain, lcas)
    }

    /// Whether only blocks of the era are linked in the weight tree.
    pub open spec fn tree_in_era(&self) -> bool {
        forall|v: usize|
            #[trigger] parent_of(self.weight_tree.parents(), v) != NULL ==> !self.legacy(v)
                && !self.legacy(parent_of(self.weight_tree.parents(), v))
    }

    /// The lowest common ancestor of blocks is above each of them.
    pub proof fn lemma_common_ancestor(&self, a: usize, b: usize)
        requires
            self.wf(),
            self.has(a),
            self.has(b),
            self.in_tree_or_legacy(a),
            self.in_tree_or_legacy(b),
            self.common_ancestor(a, b) != NULL,
        ensures
            on_path(self.weight_tree.parents(), self.common_ancestor(a, b), a),
            on_path(self.weight_tree.parents(), self.common_ancestor(a, b), b),
            self.has(self.common_ancestor(a, b)),
            self.weight_tree.has(self.common_ancestor(a, b)),
    {
        let tree = self.weight_tree;
        tree.lemma_ranked();
        tree.lemma_parents(a);
        tree.lemma_parents(b);
        let rank = tree.ranks();
        lemma_lca_exists(tree.parents(), rank, a, b);
        let r = lca_of(tree.parents(), a, b);
        let k = choose|k: nat| #[trigger] ancestor(tree.parents(), a, k) == r;
        lemma_ancestor_ranked(tree.parents(), rank, a, k);
        tree.lemma_parents(r);
    }

    /// The lowest common ancestor of a block and a list is above the block and each of the list.
    proof fn lemma_lca_with_all(&self, start: usize, list: Seq<usize>)
        requires
            self.wf(),
            self.has(start),
            list.len() > 0 ==> self.in_tree_or_legacy(start),
            self.lca_ready(list),
            self.lca_with_all(start, list) != NULL,
        ensures
            self.has(self.lca_with_all(start, list)),
            self.in_tree_or_legacy(start) ==> self.in_tree_or_legacy(
                self.lca_with_all(start, list),
            ),
            on_path(self.weight_tree.parents(), self.lca_with_all(start, list), start),
            forall|k: int|
                0 <= k < list.len() ==> on_path(
                    self.weight_tree.parents(),
                    self.lca_with_all(start, list),
                    #[trigger] list[k],
                ),
        decreases list.len(),
    {
        let parents = self.weight_tree.parents();
        let r = self.lca_with_all(start, list);
        if list.len() == 0 {
            assert(ancestor(parents, start, 0) == start);
        } else {
            let init = list.drop_last();
            assert(self.lca_ready(init)) by {
                assert forall|k: int| 0 <= k < init.len() implies self.has(#[trigger] init[k])
                    && self.in_tree_or_legacy(init[k]) by {
                    assert(self.has(list[k]));
                }
            }
            let acc = self.lca_with_all(start, init);
            self.lemma_lca_with_all(start, init);
            assert(self.has(list[list.len() - 1]));
            self.lemma_common_ancestor(acc, list.last());
            lemma_on_path_trans(parents, r, acc, start);
            assert forall|k: int| 0 <= k < list.len() implies on_path(
                parents,
                r,
                #[trigger] list[k],
            ) by {
                if k < init.len() {
                    assert(on_path(parents, acc, init[k]));
                    lemma_on_path_trans(parents, r, acc, list[k]);
                }
            }
        }
    }

    /// The timer chain as it is after leaving the longest one at a position for a branch.
    pub open spec fn with_branch(&self, f: int, branch: Seq<usize>) -> Seq<usize> {
        self.timer_chain@.take(f) + branch
    }

    /// What the lowest common ancestor of a window is above.
    proof fn lemma_window_confirms(&self, f: int, branch: Seq<usize>, i: int)
        requires
            self.wf(),
            self.inner_conf.timer_chain_beta > 0,
            0 <= f <= self.timer_chain@.len(),
            0 <= i < branch.len(),
            self.inner_conf.timer_chain_beta <= f + i + 1,
            self.windows_ready(branch, 0, i + 1),
            self.windows_ready(self.timer_chain@, f + 1 - self.inner_conf.timer_chain_beta, f),
            self.window_lca(f, branch, i) != NULL,
        ensures
            self.confirmed_at(self.with_branch(f, branch), self.window_lca(f, branch, i), f + i),
    {
        let beta = self.inner_conf.timer_chain_beta as int;
        let chain = self.with_branch(f, branch);
        let parents = self.weight_tree.parents();
        let r = self.window_lca(f, branch, i);
        assert(self.has(branch[i]));
        if i + 1 >= beta {
            let part = branch.subrange(i + 1 - beta, i);
            self.lemma_windows_ready(branch, 0, i + 1, i + 1 - beta, i);
            self.lemma_lca_with_all(branch[i], part);
            assert forall|k: int| f + i + 1 - beta <= k <= f + i implies on_path(
                parents,
                r,
                #[trigger] chain[k],
            ) by {
                if k < f + i {
                    assert(part[k - f - (i + 1 - beta)] == chain[k]);
                }
            }
        } else {
            let part = branch.subrange(0, i);
            let rest = self.timer_chain@.subrange(f + i + 1 - beta, f);
            self.lemma_windows_ready(branch, 0, i + 1, 0, i);
            self.lemma_windows_ready(self.timer_chain@, f + 1 - beta, f, f + i + 1 - beta, f);
            let acc = self.lca_with_all(branch[i], part);
            self.lemma_lca_with_all(branch[i], part);
            self.lemma_lca_with_all(acc, rest);
            assert forall|k: int| f + i + 1 - beta <= k <= f + i implies on_path(
                parents,
                r,
                #[trigger] chain[k],
            ) by {
                if k < f {
                    assert(rest[k - (f + i + 1 - beta)] == chain[k]);
                } else {
                    if k < f + i {
                        assert(part[k - f] == chain[k]);
                    }
                    lemma_on_path_trans(parents, r, acc, chain[k]);
                }
            }
        }
    }

    /// What a timer chain confirms is confirmed by any other one with the same start.
    proof fn lemma_confirmed_prefix(
        &self,
        chain: Seq<usize>,
        other: Seq<usize>,
        n: int,
        x: usize,
        last: int,
    )
        requires
            last < n <= chain.len(),
            n <= other.len(),
            other.take(n) == chain.take(n),
            self.confirmed_by(chain, x, last),
        ensures
            self.confirmed_by(other, x, last),
    {
        if x != self.cur_era_genesis_block_arena_index {
            let j = choose|j: int| j <= last && #[trigger] self.confirmed_at(chain, x, j);
            let beta = self.inner_conf.timer_chain_beta as int;
            assert(self.confirmed_at(chain, x, j));
            assert forall|k: int| j + 1 - beta <= k <= j implies on_path(
                self.weight_tree.parents(),
                x,
                #[trigger] other[k],
            ) by {
                assert(0 <= k < n);
                assert(other.take(n)[k] == other[k]);
                assert(chain.take(n)[k] == chain[k]);
            }
            assert(self.confirmed_at(other, x, j));
        }
    }

    /// The accumulative lowest common ancestor after some blocks of a branch is confirmed by
    /// them and what is before them.
    proof fn lemma_accumulative_confirmed(&self, f: int, branch: Seq<usize>, n: nat)
        requires
            self.wf(),
            self.lcas_confirmed(self.timer_chain@, self.timer_chain_accumulative_lca@),
            0 <= f <= self.timer_chain@.len(),
            branch.len() > self.inner_conf.timer_chain_beta,
            self.branch_lcas_ready(f, branch),
            n <= branch.len() - self.inner_conf.timer_chain_beta,
        ensures
            self.confirmed_by(
                self.with_branch(f, branch),
                self.accumulative_lca(f, branch, n),
                f + n - 1,
            ),
        decreases n,
    {
        let chain = self.with_branch(f, branch);
        let x = self.accumulative_lca(f, branch, n);
        if n == 0 {
            if f > 0 {
                assert(self.confirmed_by(
                    self.timer_chain@,
                    self.timer_chain_accumulative_lca@[f - 1],
                    f - 1,
                ));
                assert(chain.take(f) =~= self.timer_chain@.take(f));
                self.lemma_confirmed_prefix(self.timer_chain@, chain, f, x, f - 1);
            }
        } else {
            let last = self.accumulative_lca(f, branch, (n - 1) as nat);
            self.lemma_accumulative_confirmed(f, branch, (n - 1) as nat);
            if x == last {
                if x != self.cur_era_genesis_block_arena_index {
                    let j = choose|j: int|
                        j <= f + n - 2 && #[trigger] self.confirmed_at(chain, x, j);
                    assert(self.confirmed_at(chain, x, j));
                }
            } else {
                self.lemma_window_confirms(f, branch, n - 1);
                assert(self.confirmed_at(chain, x, f + n - 1));
            }
        }
    }

    /// Where the timer chain of the past of a block leaves the longest one, it is in it.
    proof fn lemma_fork_index(&self, i: usize)
        ensures
            self.timer_branch_base(i) == NULL || self.timer_index(self.timer_branch_base(i))
                != NULL,
        decreases self.age(i),
    {
        let last = self.node(i).last_timer_block_arena_index;
        if !(i == NULL || self.timer_index(i) != NULL) && last != NULL && self.age(last)
            < self.age(i) {
            self.lemma_fork_index(last);
        }
    }

    proof fn lemma_past_confirmed(&self, me: usize)
        requires
            self.wf(),
            self.lcas_confirmed(self.timer_chain@, self.timer_chain_accumulative_lca@),
            self.branch_lcas_ready(self.fork_index_of(me), self.branch_of(me)),
            self.lcas_cover_fork(me),
        ensures
            self.lcas_confirmed(
                self.with_branch(self.fork_index_of(me), self.branch_of(me)),
                self.updated_past_lcas(me),
            ),
    {
        let f = self.fork_index_of(me);
        let branch = self.branch_of(me);
        let beta = self.inner_conf.timer_chain_beta as int;
        let chain = self.with_branch(f, branch);
        let extra = self.branch_lcas(f, branch);
        let lcas = self.updated_past_lcas(me);
        self.lemma_fork_index(self.node(me).last_timer_block_arena_index);
        assert(0 <= f <= self.timer_chain@.len());
        let kept = lcas.len() - extra.len();
        assert(kept <= f);
        assert forall|i: int| 0 <= i < lcas.len() implies self.confirmed_by(
            chain,
            #[trigger] lcas[i],
            i,
        ) by {
            if i < kept {
                assert(lcas[i] == self.timer_chain_accumulative_lca@[i]);
                assert(self.confirmed_by(
                    self.timer_chain@,
                    self.timer_chain_accumulative_lca@[i],
                    i,
                ));
                assert(chain.take(f) =~= self.timer_chain@.take(f));
                self.lemma_confirmed_prefix(self.timer_chain@, chain, f, lcas[i], i);
            } else {
                assert(kept == f);
                self.lemma_accumulative_confirmed(f, branch, (i - f + 1) as nat);
            }
        }
    }

    /// In the past of a block the accumulative lowest common ancestors are what the timer chain of
    /// that past confirms, if they are in the whole graph.
    pub proof fn law_past_keeps_confirmations(&self, me: usize)
        requires
            self.wf(),
            self.timer_wf(),
            self.heights_wf(),
            self.tree_in_era(),
            self.has(me),
            self.confirms(self.timer_chain@, self.timer_chain_accumulative_lca@),
            self.branch_lcas_ready(self.fork_index_of(me), self.branch_of(me)),
            self.lcas_cover_fork(me),
        ensures
            self.confirms(
                self.with_branch(self.fork_index_of(me), self.branch_of(me)),
                self.updated_past_lcas(me),
            ),
    {
        self.lemma_past_confirmed(me);
        self.lemma_past_ages(me);
        self.lemma_past_highest(me);
    }

    /// Every update of the longest timer chain keeps the accumulative lowest common ancestors what
    /// it confirms.
    pub proof fn law_update_keeps_confirmations(&self, me: usize, after: Self)
        requires
            self.wf(),
            self.timer_wf(),
            self.heights_wf(),
            self.tree_in_era(),
            self.has(me),
            self.confirms(self.timer_chain@, self.timer_chain_accumulative_lca@),
            self.branch_lcas_ready(self.fork_index_of(me), self.branch_of(me)),
            self.lcas_cover_fork(me),
            self.new_window_ready(me),
            after.nodes() == with_heights(self.nodes(), self.changed_ticks(me, Set::empty())),
            after.timer_chain@ == self.updated_timer_chain(me),
            after.timer_chain_accumulative_lca@ == self.updated_lcas(me),
            after == (ConsensusGraphInner {
                arena: after.arena,
                timer_chain: after.timer_chain,
                timer_chain_accumulative_lca: after.timer_chain_accumulative_lca,
                ..*self
            }),
        ensures
            after.confirms(after.timer_chain@, after.timer_chain_accumulative_lca@),
    {
        self.lemma_updated_confirmed(me);
        self.lemma_updated_ages(me);
        self.lemma_updated_highest(me);
        let chain = after.timer_chain@;
        let lcas = after.timer_chain_accumulative_lca@;
        assert(self.confirms(chain, lcas));
        assert forall|i: int| 0 <= i < lcas.len() implies after.confirmed_by(
            chain,
            #[trigger] lcas[i],
            i,
        ) by {
            assert(self.confirmed_by(chain, lcas[i], i));
            if lcas[i] != self.cur_era_genesis_block_arena_index {
                let j = choose|j: int| j <= i && #[trigger] self.confirmed_at(chain, lcas[i], j);
                assert(self.confirmed_at(chain, lcas[i], j));
                assert(after.confirmed_at(chain, lcas[i], j));
            }
        }
        // Heights and ages are as they were.
        assert forall|x: usize| #[trigger] self.has(x) implies after.node(x).height == self.node(
            x,
        ).height && after.age(x) == self.age(x) by {
            assert(self.nodes().contains_key(x));
        }
        assert forall|k: int| 0 <= k < chain.len() implies self.has(#[trigger] chain[k]) by {
            self.lemma_branch(self.node(me).last_timer_block_arena_index);
            self.lemma_fork_index(self.node(me).last_timer_block_arena_index);
            let f = self.fork_index_of(me);
            let branch = self.branch_of(me);
            if k < f {
                assert(self.nodes().contains_key(self.timer_chain@[k]));
            } else if k < f + branch.len() {
                assert(self.nodes().contains_key(branch[k - f]));
            }
        }
        assert forall|k: int| 0 <= k < lcas.len() implies self.has(#[trigger] lcas[k]) by {
            self.lemma_confirmed_has(chain, lcas[k], k);
        }
        assert(after.in_age_order(chain)) by {
            assert forall|i: int, j: int| 0 <= i < j < chain.len() implies after.age(
                #[trigger] chain[i],
            ) < after.age(#[trigger] chain[j]) by {
                assert(self.age(chain[i]) < self.age(chain[j]));
            }
        }
        assert forall|i: int, j: int| 0 <= i <= j < lcas.len() implies after.node(
            #[trigger] lcas[i],
        ).height <= after.node(#[trigger] lcas[j]).height by {
            assert(self.node(lcas[i]).height <= self.node(lcas[j]).height);
        }
        assert forall|x: usize, j: int|
            #[trigger] after.confirmed_at(chain, x, j) && 0 <= j < lcas.len() && after.has(x)
                && self.inner_conf.timer_chain_beta > 0 implies after.node(x).height <= after.node(
            lcas[j],
        ).height by {
            assert(self.confirmed_at(chain, x, j));
            assert(self.has(x));
            assert(self.has(lcas[j]));
        }
    }

    /// What is confirmed is a block.
    proof fn lemma_confirmed_has(&self, chain: Seq<usize>, x: usize, last: int)
        requires
            self.wf(),
            self.inner_conf.timer_chain_beta > 0 || self.has(x),
            forall|k: int| 0 <= k < chain.len() ==> self.has(#[trigger] chain[k]),
            self.confirmed_by(chain, x, last),
        ensures
            self.has(x),
    {
        if x != self.cur_era_genesis_block_arena_index && self.inner_conf.timer_chain_beta > 0 {
            let j = choose|j: int| j <= last && #[trigger] self.confirmed_at(chain, x, j);
            assert(self.confirmed_at(chain, x, j));
            assert(on_path(self.weight_tree.parents(), x, chain[j]));
            self.lemma_tree_height(x, chain[j]);
        }
    }

    /// What is above a block in the tree is a block that is not higher.
    proof fn lemma_tree_height(&self, x: usize, v: usize)
        requires
            self.wf(),
            self.has(v),
            on_path(self.weight_tree.parents(), x, v),
        ensures
            self.has(x),
            self.heights_wf() ==> self.node(x).height <= self.node(v).height,
    {
        let k = choose|k: nat| #[trigger] ancestor(self.weight_tree.parents(), v, k) == x;
        self.lemma_tree_height_in(x, v, k);
    }

    proof fn lemma_tree_height_in(&self, x: usize, v: usize, k: nat)
        requires
            self.wf(),
            self.has(v),
            x != NULL,
            ancestor(self.weight_tree.parents(), v, k) == x,
        ensures
            self.has(x),
            self.heights_wf() ==> self.node(x).height + k == self.node(v).height,
        decreases k,
    {
        let tp = self.weight_tree.parents();
        if k > 0 {
            let c = ancestor(tp, v, (k - 1) as nat);
            self.weight_tree.lemma_ranked();
            if c == NULL {
                assert(parent_of(tp, c) == NULL);
            }
            self.lemma_tree_height_in(c, v, (k - 1) as nat);
            self.weight_tree.lemma_parents(c);
            assert(self.weight_tree.has(c));
            assert(self.node(c).parent == x);
            assert(self.nodes().contains_key(c));
        }
    }

    /// Below a block of the era stand only blocks of the era, and below another one nothing.
    proof fn lemma_tree_era(&self, x: usize, v: usize)
        requires
            self.wf(),
            self.tree_in_era(),
            on_path(self.weight_tree.parents(), x, v),
        ensures
            !self.legacy(x) ==> !self.legacy(v),
            self.legacy(x) ==> v == x,
    {
        let tp = self.weight_tree.parents();
        let k = choose|k: nat| #[trigger] ancestor(tp, v, k) == x;
        self.weight_tree.lemma_ranked();
        if k > 0 {
            lemma_ancestor_prefix(tp, v, 1, k);
            assert(ancestor(tp, v, 0) == v);
            assert(parent_of(tp, v) == ancestor(tp, v, 1));
            let c = ancestor(tp, v, (k - 1) as nat);
            assert(parent_of(tp, c) == x);
        }
    }

    /// A common ancestor of blocks is above their lowest common ancestor.
    proof fn lemma_lca_with_all_lowest(&self, start: usize, list: Seq<usize>, x: usize)
        requires
            self.wf(),
            self.tree_in_era(),
            self.has(start),
            list.len() > 0 ==> self.in_tree_or_legacy(start),
            self.lca_ready(list),
            !self.legacy(x) || list.len() == 0,
            on_path(self.weight_tree.parents(), x, start),
            forall|k: int|
                0 <= k < list.len() ==> on_path(
                    self.weight_tree.parents(),
                    x,
                    #[trigger] list[k],
                ),
        ensures
            self.lca_with_all(start, list) != NULL,
            on_path(self.weight_tree.parents(), x, self.lca_with_all(start, list)),
        decreases list.len(),
    {
        let tp = self.weight_tree.parents();
        if list.len() > 0 {
            let init = list.drop_last();
            assert(self.lca_ready(init)) by {
                assert forall|k: int| 0 <= k < init.len() implies self.has(#[trigger] init[k])
                    && self.in_tree_or_legacy(init[k]) by {
                    assert(self.has(list[k]));
                }
            }
            assert forall|k: int| 0 <= k < init.len() implies on_path(tp, x, #[trigger] init[k]) by {
                assert(on_path(tp, x, list[k]));
            }
            self.lemma_lca_with_all_lowest(start, init, x);
            self.lemma_lca_with_all(start, init);
            let acc = self.lca_with_all(start, init);
            let last = list[list.len() - 1];
            assert(self.has(last) && on_path(tp, x, last));
            self.lemma_tree_era(x, acc);
            self.lemma_tree_era(x, last);
            self.weight_tree.lemma_ranked();
            self.weight_tree.lemma_parents(acc);
            self.weight_tree.lemma_parents(last);
            lemma_lca_exists(tp, self.weight_tree.ranks(), acc, last);
        } else {
            self.lemma_has_not_null(start);
        }
    }

    proof fn lemma_has_not_null(&self, v: usize)
        requires
            self.wf(),
            self.has(v),
        ensures
            v != NULL,
    {
        assert(self.nodes().contains_key(v));
    }

    /// A block that a window of several blocks confirms is in the era.
    proof fn lemma_confirmed_in_era(&self, chain: Seq<usize>, x: usize, j: int)
        requires
            self.wf(),
            self.tree_in_era(),
            self.in_age_order(chain),
            self.inner_conf.timer_chain_beta > 1,
            self.confirmed_at(chain, x, j),
        ensures
            !self.legacy(x),
    {
        let beta = self.inner_conf.timer_chain_beta as int;
        assert(on_path(self.weight_tree.parents(), x, chain[j]));
        assert(on_path(self.weight_tree.parents(), x, chain[j - 1]));
        self.lemma_tree_era(x, chain[j]);
        self.lemma_tree_era(x, chain[j - 1]);
        assert(self.age(chain[j - 1]) < self.age(chain[j]));
    }

    /// No block that is confirmed at the end of a window is higher than the lowest common ancestor
    /// of the window.
    proof fn lemma_window_highest(&self, f: int, branch: Seq<usize>, i: int, x: usize)
        requires
            self.wf(),
            self.heights_wf(),
            self.tree_in_era(),
            self.inner_conf.timer_chain_beta > 0,
            0 <= f <= self.timer_chain@.len(),
            0 <= i < branch.len(),
            self.windows_ready(branch, 0, i + 1),
            self.windows_ready(self.timer_chain@, f + 1 - self.inner_conf.timer_chain_beta, f),
            self.in_age_order(self.with_branch(f, branch)),
            self.confirmed_at(self.with_branch(f, branch), x, f + i),
        ensures
            self.window_lca(f, branch, i) != NULL,
            self.node(x).height <= self.node(self.window_lca(f, branch, i)).height,
    {
        let beta = self.inner_conf.timer_chain_beta as int;
        let chain = self.with_branch(f, branch);
        let tp = self.weight_tree.parents();
        assert(self.has(branch[i]));
        assert(on_path(tp, x, chain[f + i]));
        if beta > 1 {
            self.lemma_confirmed_in_era(chain, x, f + i);
        }
        if i + 1 >= beta {
            let part = branch.subrange(i + 1 - beta, i);
            self.lemma_windows_ready(branch, 0, i + 1, i + 1 - beta, i);
            assert forall|k: int| 0 <= k < part.len() implies on_path(tp, x, #[trigger] part[k]) by {
                assert(on_path(tp, x, chain[f + i + 1 - beta + k]));
            }
            self.lemma_lca_with_all_lowest(branch[i], part, x);
            self.lemma_lca_with_all(branch[i], part);
        } else {
            let part = branch.subrange(0, i);
            let rest = self.timer_chain@.subrange(f + i + 1 - beta, f);
            self.lemma_windows_ready(branch, 0, i + 1, 0, i);
            self.lemma_windows_ready(self.timer_chain@, f + 1 - beta, f, f + i + 1 - beta, f);
            assert forall|k: int| 0 <= k < part.len() implies on_path(tp, x, #[trigger] part[k]) by {
                assert(on_path(tp, x, chain[f + k]));
            }
            assert forall|k: int| 0 <= k < rest.len() implies on_path(tp, x, #[trigger] rest[k]) by {
                assert(on_path(tp, x, chain[f + i + 1 - beta + k]));
            }
            self.lemma_lca_with_all_lowest(branch[i], part, x);
            self.lemma_lca_with_all(branch[i], part);
            let acc = self.lca_with_all(branch[i], part);
            self.lemma_lca_with_all_lowest(acc, rest, x);
            self.lemma_lca_with_all(acc, rest);
        }
        self.lemma_tree_height(x, self.window_lca(f, branch, i));
    }

    /// Before there are enough timer blocks for a window, nothing but the era genesis is there.
    proof fn lemma_early_lca(&self, f: int, branch: Seq<usize>, n: nat)
        requires
            self.lcas_confirmed(self.timer_chain@, self.timer_chain_accumulative_lca@),
            0 <= f <= self.timer_chain_accumulative_lca@.len(),
            f + n < self.inner_conf.timer_chain_beta,
        ensures
            self.accumulative_lca(f, branch, n) == self.cur_era_genesis_block_arena_index,
        decreases n,
    {
        if n > 0 {
            self.lemma_early_lca(f, branch, (n - 1) as nat);
        } else if f > 0 {
            assert(self.confirmed_by(
                self.timer_chain@,
                self.timer_chain_accumulative_lca@[f - 1],
                f - 1,
            ));
        }
    }

    /// Heights do not fall along a branch.
    proof fn lemma_accumulative_grows(&self, f: int, branch: Seq<usize>, m: nat, n: nat)
        requires
            m <= n,
        ensures
            self.node(self.accumulative_lca(f, branch, m)).height <= self.node(
                self.accumulative_lca(f, branch, n),
            ).height,
        decreases n,
    {
        if m < n {
            self.lemma_accumulative_grows(f, branch, m, (n - 1) as nat);
        }
    }

    proof fn lemma_past_highest(&self, me: usize)
        requires
            self.wf(),
            self.heights_wf(),
            self.tree_in_era(),
            self.confirms(self.timer_chain@, self.timer_chain_accumulative_lca@),
            self.branch_lcas_ready(self.fork_index_of(me), self.branch_of(me)),
            self.lcas_cover_fork(me),
            self.in_age_order(self.with_branch(self.fork_index_of(me), self.branch_of(me))),
        ensures
            self.lcas_highest(
                self.with_branch(self.fork_index_of(me), self.branch_of(me)),
                self.updated_past_lcas(me),
            ),
    {
        let f = self.fork_index_of(me);
        let branch = self.branch_of(me);
        let beta = self.inner_conf.timer_chain_beta as int;
        let chain = self.with_branch(f, branch);
        let old = self.timer_chain_accumulative_lca@;
        let extra = self.branch_lcas(f, branch);
        let lcas = self.updated_past_lcas(me);
        let g = self.cur_era_genesis_block_arena_index;
        self.lemma_fork_index(self.node(me).last_timer_block_arena_index);
        let kept = lcas.len() - extra.len();
        assert(0 <= kept <= f <= self.timer_chain@.len());
        assert forall|i: int| 0 <= i < extra.len() implies #[trigger] extra[i]
            == self.accumulative_lca(f, branch, (i + 1) as nat) by {
            if f + i + 1 < beta {
                self.lemma_early_lca(f, branch, (i + 1) as nat);
            }
        }
        assert forall|i: int| 0 <= i < kept implies #[trigger] lcas[i] == old[i] by {}
        assert forall|i: int| kept <= i < lcas.len() implies #[trigger] lcas[i]
            == self.accumulative_lca(f, branch, (i - f + 1) as nat) by {
            assert(kept == f);
            assert(lcas[i] == extra[i - kept]);
        }
        assert forall|i: int| 0 <= i < lcas.len() implies self.node(g).height <= self.node(
            #[trigger] lcas[i],
        ).height by {
            if i < kept {
                assert(self.node(g).height <= self.node(old[i]).height);
            } else {
                self.lemma_accumulative_grows(f, branch, 0, (i - f + 1) as nat);
                if f > 0 {
                    assert(self.node(g).height <= self.node(old[f - 1]).height);
                }
            }
        }
        assert forall|i: int, j: int| 0 <= i <= j < lcas.len() implies self.node(
            #[trigger] lcas[i],
        ).height <= self.node(#[trigger] lcas[j]).height by {
            if j < kept {
                assert(self.node(old[i]).height <= self.node(old[j]).height);
            } else if i < kept {
                assert(self.node(old[i]).height <= self.node(old[f - 1]).height);
                self.lemma_accumulative_grows(f, branch, 0, (j - f + 1) as nat);
            } else {
                self.lemma_accumulative_grows(f, branch, (i - f + 1) as nat, (j - f + 1) as nat);
            }
        }
        assert forall|x: usize, j: int|
            #[trigger] self.confirmed_at(chain, x, j) && 0 <= j < lcas.len() && self.has(x)
                && beta > 0 implies self.node(x).height <= self.node(lcas[j]).height by {
            if j < kept {
                assert forall|k: int| j + 1 - beta <= k <= j implies on_path(
                    self.weight_tree.parents(),
                    x,
                    #[trigger] self.timer_chain@[k],
                ) by {
                    assert(chain[k] == self.timer_chain@[k]);
                }
                assert(self.confirmed_at(self.timer_chain@, x, j));
            } else {
                let i = j - f;
                assert(self.confirmed_at(chain, x, f + i));
                self.lemma_window_highest(f, branch, i, x);
                assert(f + i + 1 >= beta);
                assert(self.accumulative_lca(f, branch, (i + 1) as nat) == self.deeper(
                    self.accumulative_lca(f, branch, i as nat),
                    self.window_lca(f, branch, i),
                ));
            }
        }
    }

    /// The timer blocks of a branch were received one after the other, after the block of the
    /// longest timer chain that they follow.
    proof fn lemma_branch_ages(&self, i: usize)
        requires
            self.timer_wf(),
            i != NULL ==> self.has(i),
        ensures
            self.in_age_order(self.timer_branch(i)),
            forall|k: int|
                0 <= k < self.timer_branch(i).len() ==> self.age(
                    #[trigger] self.timer_branch(i)[k],
                ) <= self.age(i),
            self.timer_branch_base(i) != NULL ==> {
                &&& self.age(self.timer_branch_base(i)) <= self.age(i)
                &&& forall|k: int|
                    0 <= k < self.timer_branch(i).len() ==> self.age(self.timer_branch_base(i))
                        < self.age(#[trigger] self.timer_branch(i)[k])
            },
        decreases self.age(i),
    {
        let last = self.node(i).last_timer_block_arena_index;
        if !(i == NULL || self.timer_index(i) != NULL) && last != NULL && self.age(last)
            < self.age(i) {
            assert(self.has(i));
            self.lemma_branch_ages(last);
            let before = self.timer_branch(last);
            let branch = self.timer_branch(i);
            assert(branch == before.push(i));
            assert forall|a: int, b: int| 0 <= a < b < branch.len() implies self.age(
                #[trigger] branch[a],
            ) < self.age(#[trigger] branch[b]) by {
                if b < before.len() {
                    assert(self.age(before[a]) < self.age(before[b]));
                } else {
                    assert(self.age(before[a]) <= self.age(last));
                }
            }
            assert forall|k: int| 0 <= k < branch.len() implies self.age(#[trigger] branch[k])
                <= self.age(i) by {
                if k < before.len() {
                    assert(self.age(before[k]) <= self.age(last));
                }
            }
            if self.timer_branch_base(i) != NULL {
                assert forall|k: int| 0 <= k < branch.len() implies self.age(
                    self.timer_branch_base(i),
                ) < self.age(#[trigger] branch[k]) by {
                    if k < before.len() {
                        assert(self.age(self.timer_branch_base(last)) < self.age(before[k]));
                    }
                }
            }
        }
    }

    proof fn lemma_past_ages(&self, me: usize)
        requires
            self.wf(),
            self.timer_wf(),
            self.has(me),
            self.in_age_order(self.timer_chain@),
        ensures
            self.in_age_order(self.with_branch(self.fork_index_of(me), self.branch_of(me))),
            forall|k: int|
                0 <= k < self.with_branch(self.fork_index_of(me), self.branch_of(me)).len()
                    ==> self.age(
                    #[trigger] self.with_branch(self.fork_index_of(me), self.branch_of(me))[k],
                ) < self.age(me),
    {
        let last = self.node(me).last_timer_block_arena_index;
        let f = self.fork_index_of(me);
        let branch = self.branch_of(me);
        let chain = self.with_branch(f, branch);
        self.lemma_branch_ages(last);
        self.lemma_fork_index(last);
        assert(0 <= f <= self.timer_chain@.len());
        let base = self.branch_base_of(me);
        if f > 0 {
            let d = self.node(base).timer_chain_height - self.cur_era_genesis_timer_chain_height;
            assert(self.timer_chain.len() == self.timer_chain@.len());
            assert(0 <= d < self.timer_chain@.len());
            assert(f - 1 == d);
            assert(self.timer_chain@[f - 1] == base);
        }
        assert forall|k: int| 0 <= k < f implies self.age(#[trigger] self.timer_chain@[k])
            <= self.age(base) by {
            if k < f - 1 {
                assert(self.age(self.timer_chain@[k]) < self.age(self.timer_chain@[f - 1]));
            }
        }
        if last == NULL {
            assert(branch.len() == 0 && f == 0);
        } else {
            assert(self.age(last) < self.age(me));
        }
        assert forall|a: int, b: int| 0 <= a < b < chain.len() implies self.age(
            #[trigger] chain[a],
        ) < self.age(#[trigger] chain[b]) by {
            if b < f {
                assert(self.age(self.timer_chain@[a]) < self.age(self.timer_chain@[b]));
            } else if a < f {
                assert(self.age(self.timer_chain@[a]) <= self.age(base));
                assert(self.age(base) < self.age(branch[b - f]));
            } else {
                assert(self.age(branch[a - f]) < self.age(branch[b - f]));
            }
        }
        assert forall|k: int| 0 <= k < chain.len() implies self.age(#[trigger] chain[k]) < self.age(
            me,
        ) by {
            if k < f {
                assert(self.age(self.timer_chain@[k]) <= self.age(base));
            } else {
                assert(self.age(branch[k - f]) <= self.age(last));
            }
        }
    }

    proof fn lemma_updated_ages(&self, me: usize)
        requires
            self.wf(),
            self.timer_wf(),
            self.has(me),
            self.in_age_order(self.timer_chain@),
        ensures
            self.in_age_order(self.updated_timer_chain(me)),
    {
        self.lemma_past_ages(me);
        let past_chain = self.with_branch(self.fork_index_of(me), self.branch_of(me));
        let chain = self.updated_timer_chain(me);
        assert forall|a: int, b: int| 0 <= a < b < chain.len() implies self.age(
            #[trigger] chain[a],
        ) < self.age(#[trigger] chain[b]) by {
            assert(chain[a] == past_chain[a]);
            if b < past_chain.len() {
                assert(chain[b] == past_chain[b]);
                assert(self.age(past_chain[a]) < self.age(past_chain[b]));
            } else {
                assert(self.age(past_chain[a]) < self.age(me));
            }
        }
    }

    proof fn lemma_updated_highest(&self, me: usize)
        requires
            self.wf(),
            self.timer_wf(),
            self.heights_wf(),
            self.tree_in_era(),
            self.has(me),
            self.confirms(self.timer_chain@, self.timer_chain_accumulative_lca@),
            self.branch_lcas_ready(self.fork_index_of(me), self.branch_of(me)),
            self.lcas_cover_fork(me),
            self.new_window_ready(me),
        ensures
            self.lcas_highest(self.updated_timer_chain(me), self.updated_lcas(me)),
    {
        let chain = self.updated_timer_chain(me);
        let past_chain = self.with_branch(self.fork_index_of(me), self.branch_of(me));
        let past = self.updated_past_lcas(me);
        let lcas = self.updated_lcas(me);
        let beta = self.inner_conf.timer_chain_beta as int;
        let tp = self.weight_tree.parents();
        let g = self.cur_era_genesis_block_arena_index;
        self.law_past_keeps_confirmations(me);
        self.lemma_updated_ages(me);
        if self.counts_as_timer(me) {
            let m = past.len() as int;
            if m > 0 && lcas.len() > m {
                assert(self.node(g).height <= self.node(past[m - 1]).height);
                if chain.len() < 2 * beta {
                    assert(self.confirmed_by(past_chain, past[m - 1], m - 1));
                    assert(past[m - 1] == g);
                }
            }
            assert forall|i: int| 0 <= i < lcas.len() implies self.node(g).height <= self.node(
                #[trigger] lcas[i],
            ).height by {
                if i < m {
                    assert(self.node(g).height <= self.node(past[i]).height);
                }
            }
            assert forall|i: int, j: int| 0 <= i <= j < lcas.len() implies self.node(
                #[trigger] lcas[i],
            ).height <= self.node(#[trigger] lcas[j]).height by {
                if j < m {
                    assert(self.node(past[i]).height <= self.node(past[j]).height);
                } else if i < m {
                    assert(self.node(past[i]).height <= self.node(past[m - 1]).height);
                }
            }
            assert forall|x: usize, j: int|
                #[trigger] self.confirmed_at(chain, x, j) && 0 <= j < lcas.len() && self.has(x)
                    && beta > 0 implies self.node(x).height <= self.node(lcas[j]).height by {
                if j < m {
                    assert forall|k: int| j + 1 - beta <= k <= j implies on_path(
                        tp,
                        x,
                        #[trigger] past_chain[k],
                    ) by {
                        assert(chain[k] == past_chain[k]);
                    }
                    assert(self.confirmed_at(past_chain, x, j));
                } else {
                    let e = chain.len() - beta;
                    assert(j == e - 1);
                    let part = chain.subrange(e - beta, e - 1);
                    assert(self.has(chain[e - 1]));
                    assert(on_path(tp, x, chain[e - 1]));
                    self.lemma_windows_ready(chain, e - beta, e, e - beta, e - 1);
                    assert forall|k: int| 0 <= k < part.len() implies on_path(
                        tp,
                        x,
                        #[trigger] part[k],
                    ) by {
                        assert(on_path(tp, x, chain[e - beta + k]));
                    }
                    if beta > 1 {
                        self.lemma_confirmed_in_era(chain, x, j);
                    }
                    self.lemma_lca_with_all_lowest(chain[e - 1], part, x);
                    self.lemma_lca_with_all(chain[e - 1], part);
                    self.lemma_tree_height(x, self.lca_with_all(chain[e - 1], part));
                }
            }
        } else {
            assert(chain =~= past_chain);
        }
    }

    proof fn lemma_updated_confirmed(&self, me: usize)
        requires
            self.wf(),
            self.lcas_confirmed(self.timer_chain@, self.timer_chain_accumulative_lca@),
            self.branch_lcas_ready(self.fork_index_of(me), self.branch_of(me)),
            self.lcas_cover_fork(me),
            self.new_window_ready(me),
        ensures
            self.lcas_confirmed(self.updated_timer_chain(me), self.updated_lcas(me)),
    {
        let chain = self.updated_timer_chain(me);
        let past_chain = self.with_branch(self.fork_index_of(me), self.branch_of(me));
        let past = self.updated_past_lcas(me);
        let lcas = self.updated_lcas(me);
        let beta = self.inner_conf.timer_chain_beta as int;
        let parents = self.weight_tree.parents();
        self.lemma_past_confirmed(me);
        if self.counts_as_timer(me) {
            let n = past_chain.len() as int;
            assert(chain.take(n) =~= past_chain.take(n));
            assert forall|i: int| 0 <= i < lcas.len() implies self.confirmed_by(
                chain,
                #[trigger] lcas[i],
                i,
            ) by {
                if i < past.len() {
                    assert(self.confirmed_by(past_chain, past[i], i));
                    self.lemma_confirmed_prefix(past_chain, chain, n, past[i], i);
                } else if chain.len() >= 2 * beta {
                    let e = chain.len() - beta;
                    assert(i == e - 1);
                    let last = if past.len() > 0 {
                        past.last()
                    } else {
                        self.cur_era_genesis_block_arena_index
                    };
                    if lcas[i] == last {
                        if past.len() > 0 {
                            assert(self.confirmed_by(past_chain, past[i - 1], i - 1));
                            self.lemma_confirmed_prefix(past_chain, chain, n, last, i - 1);
                            if last != self.cur_era_genesis_block_arena_index {
                                let j = choose|j: int|
                                    j <= i - 1 && #[trigger] self.confirmed_at(chain, last, j);
                                assert(self.confirmed_at(chain, last, j));
                            }
                        }
                    } else if beta > 0 {
                        let part = chain.subrange(e - beta, e - 1);
                        assert(self.has(chain[e - 1]));
                        self.lemma_windows_ready(chain, e - beta, e, e - beta, e - 1);
                        self.lemma_lca_with_all(chain[e - 1], part);
                        assert forall|k: int| e - beta <= k <= e - 1 implies on_path(
                            parents,
                            lcas[i],
                            #[trigger] chain[k],
                        ) by {
                            if k < e - 1 {
                                assert(part[k - (e - beta)] == chain[k]);
                            }
                        }
                        assert(self.confirmed_at(chain, lcas[i], e - 1));
                    } else {
                        assert(self.confirmed_at(chain, lcas[i], e - 1));
                    }
                }
            }
        } else {
            assert(chain =~= past_chain);
        }
    }

    /// Whether a block is force confirmed by a timer chain: it is the era genesis, or
    /// `timer_chain_beta` consecutive blocks of the chain are in its subtree and at least
    /// `timer_chain_beta` blocks of the chain come after these.
    pub open spec fn force_confirmed(&self, chain: Seq<usize>, x: usize) -> bool {
        x == self.cur_era_genesis_block_arena_index || exists|j: int|
            #[trigger] self.confirmed_at(chain, x, j) && j + self.inner_conf.timer_chain_beta
                < chain.len()
    }

    /// The block that a list of accumulative lowest common ancestors ends in, or the era genesis, is
    /// force confirmed, and no force confirmed block is higher.
    proof fn lemma_last_is_highest(&self, chain: Seq<usize>, lcas: Seq<usize>, r: usize)
        requires
            self.confirms(chain, lcas),
            r == (if lcas.len() > 0 {
                lcas.last()
            } else {
                self.cur_era_genesis_block_arena_index
            }),
        ensures
            self.force_confirmed(chain, r),
            self.inner_conf.timer_chain_beta > 0 ==> forall|x: usize|
                self.has(x) && #[trigger] self.force_confirmed(chain, x) ==> self.node(x).height
                    <= self.node(r).height,
    {
        let n = lcas.len() as int;
        if n > 0 {
            assert(self.confirmed_by(chain, lcas[n - 1], n - 1));
            if r != self.cur_era_genesis_block_arena_index {
                let j = choose|j: int| j <= n - 1 && #[trigger] self.confirmed_at(chain, r, j);
                assert(self.confirmed_at(chain, r, j));
            }
            assert(self.node(self.cur_era_genesis_block_arena_index).height <= self.node(
                lcas[n - 1],
            ).height);
        }
        assert forall|x: usize|
            self.inner_conf.timer_chain_beta > 0 && self.has(x)
                && #[trigger] self.force_confirmed(chain, x) implies self.node(x).height
            <= self.node(r).height by {
            if x != self.cur_era_genesis_block_arena_index {
                let j = choose|j: int|
                    #[trigger] self.confirmed_at(chain, x, j) && j
                        + self.inner_conf.timer_chain_beta < chain.len();
                assert(self.confirmed_at(chain, x, j));
                assert(self.node(x).height <= self.node(lcas[j]).height);
                assert(self.node(lcas[j]).height <= self.node(lcas[n - 1]).height);
            }
        }
    }

    /// The block that is taken as force confirmed is force confirmed by the longest timer chain, and
    /// no block that is force confirmed by it is higher.
    pub proof fn law_force_confirm(&self)
        requires
            self.confirms(self.timer_chain@, self.timer_chain_accumulative_lca@),
            self.inner_conf.timer_chain_beta > 0,
        ensures
            self.force_confirmed(self.timer_chain@, self.force_confirm(None)),
            forall|x: usize|
                self.has(x) && #[trigger] self.force_confirmed(self.timer_chain@, x) ==> self.node(
                    x,
                ).height <= self.node(self.force_confirm(None)).height,
    {
        self.lemma_last_is_highest(
            self.timer_chain@,
            self.timer_chain_accumulative_lca@,
            self.force_confirm(None),
        );
    }

    /// Whether a block is the lowest common ancestor of the `timer_chain_beta` consecutive blocks of a
    /// timer chain that end at a position.
    pub open spec fn lowest_at(&self, chain: Seq<usize>, x: usize, j: int) -> bool {
        &&& self.confirmed_at(chain, x, j)
        &&& forall|y: usize| #[trigger]
            self.confirmed_at(chain, y, j) ==> on_path(self.weight_tree.parents(), y, x)
    }

    /// The block that is taken as force confirmed is the era genesis, or the lowest common ancestor
    /// of `timer_chain_beta` consecutive blocks of the longest timer chain that at least
    /// `timer_chain_beta` blocks of it come after.
    pub proof fn law_force_confirm_is_lowest(&self)
        requires
            self.wf(),
            self.heights_wf(),
            self.confirms(self.timer_chain@, self.timer_chain_accumulative_lca@),
            self.inner_conf.timer_chain_beta > 0,
        ensures
            self.force_confirm(None) == self.cur_era_genesis_block_arena_index || exists|j: int|
                #[trigger] self.lowest_at(self.timer_chain@, self.force_confirm(None), j) && j
                    + self.inner_conf.timer_chain_beta < self.timer_chain@.len(),
    {
        let chain = self.timer_chain@;
        let tp = self.weight_tree.parents();
        let x = self.force_confirm(None);
        self.law_force_confirm();
        if x != self.cur_era_genesis_block_arena_index {
            let j = choose|j: int|
                #[trigger] self.confirmed_at(chain, x, j) && j + self.inner_conf.timer_chain_beta
                    < chain.len();
            assert(self.confirmed_at(chain, x, j));
            let v = chain[j];
            assert(self.nodes().contains_key(chain[j]));
            assert(on_path(tp, x, v));
            assert forall|y: usize| #[trigger] self.confirmed_at(chain, y, j) implies on_path(
                tp,
                y,
                x,
            ) by {
                assert(on_path(tp, y, v));
                let a = choose|k: nat| #[trigger] ancestor(tp, v, k) == x;
                let b = choose|k: nat| #[trigger] ancestor(tp, v, k) == y;
                self.lemma_tree_height_in(x, v, a);
                self.lemma_tree_height_in(y, v, b);
                assert(self.force_confirmed(chain, y));
                lemma_ancestor_add(tp, v, a, (b - a) as nat);
                assert(ancestor(tp, x, (b - a) as nat) == y);
            }
            assert(self.lowest_at(chain, x, j));
        }
    }

    /// The block that is taken as force confirmed in the view of the past of a block is force
    /// confirmed by the timer chain of that past, and no block that is force confirmed by it is
    /// higher.
    pub proof fn law_force_confirm_in_past(
        &self,
        me: usize,
        anticone: Set<usize>,
        t: &TimerChainTuple,
    )
        requires
            self.wf(),
            self.timer_wf(),
            self.heights_wf(),
            self.tree_in_era(),
            self.has(me),
            self.inner_conf.timer_chain_beta > 0,
            self.confirms(self.timer_chain@, self.timer_chain_accumulative_lca@),
            self.branch_lcas_ready(self.fork_index_of(me), self.branch_of(me)),
            self.lcas_cover_fork(me),
            self.is_timer_tuple(me, anticone, *t),
        ensures
            ({
                let chain = self.with_branch(self.fork_index_of(me), self.branch_of(me));
                &&& self.force_confirmed(chain, self.force_confirm(Some(t)))
                &&& forall|x: usize|
                    self.has(x) && #[trigger] self.force_confirmed(chain, x) ==> self.node(x).height
                        <= self.node(self.force_confirm(Some(t))).height
            }),
    {
        let chain = self.with_branch(self.fork_index_of(me), self.branch_of(me));
        let lcas = self.updated_past_lcas(me);
        self.law_past_keeps_confirmations(me);
        self.lemma_fork_index(self.node(me).last_timer_block_arena_index);
        self.lemma_last_is_highest(chain, lcas, self.force_confirm(Some(t)));
    }

    /// Updating the timer chain keeps the links between timer blocks.
    pub proof fn law_update_keeps_timer_links(&self, me: usize, after: Self)
        requires
            self.timer_wf(),
            after.nodes() == with_heights(self.nodes(), self.changed_ticks(me, Set::empty())),
            after.cur_era_genesis_timer_chain_height == self.cur_era_genesis_timer_chain_height,
            after.cur_era_genesis_timer_chain_height + after.timer_chain@.len() <= u64::MAX,
        ensures
            after.timer_wf(),
    {
        assert forall|i: usize| #[trigger]
            after.has(i) && after.node(i).last_timer_block_arena_index != NULL implies after.has(
            after.node(i).last_timer_block_arena_index,
        ) && after.age(after.node(i).last_timer_block_arena_index) < after.age(i) by {
            assert(self.nodes().contains_key(i));
            assert(self.has(i));
            assert(self.nodes().contains_key(self.node(i).last_timer_block_arena_index));
        }
    }
}

} // verus!
