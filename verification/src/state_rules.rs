//! What evaluations of states, votes and recovered evaluations stand for.
use vstd::prelude::*;

use crate::block_data::EpochExecutionCommitment;
use crate::graph::ConsensusGraphInner;
use crate::lineage::{ancestor, depth, lemma_ancestor_null, lemma_ancestor_prefix};
use crate::node::{ConsensusGraphNode, ConsensusGraphNodeData};
use crate::state::{validity, with_validity};
use crate::types::{H256, DEFERRED_STATE_EPOCH_COUNT, NULL};

verus! {

impl ConsensusGraphInner {
    /// Whether `k` blocks from `x` back have wrong states and the one before them a right one.
    pub open spec fn run_of_wrong(&self, x: usize, k: nat) -> bool {
        forall|i: nat|
            i <= k ==> self.node(#[trigger] self.back(x, i)).data.state_valid == Some(i == k)
    }

    proof fn lemma_run_of_wrong(&self, x: usize, k: nat)
        requires
            self.wf(),
            self.has(x),
            self.right_after_wrong_known(x, k),
        ensures
            self.right_after_wrong(x, k) <==> self.run_of_wrong(x, k),
        decreases k,
    {
        assert(self.back(x, 0) == x);
        if k > 0 && self.node(x).data.state_valid == Some(false) {
            let p = self.node(x).parent;
            assert(self.nodes().contains_key(x));
            assert(self.has(p));
            self.lemma_run_of_wrong(p, (k - 1) as nat);
            if self.run_of_wrong(x, k) {
                assert forall|i: nat| i <= k - 1 implies self.node(
                    #[trigger] self.back(p, i),
                ).data.state_valid == Some(i == k - 1) by {
                    self.lemma_back_from_parent(x, i);
                    assert(self.node(self.back(x, i + 1)).data.state_valid == Some(i + 1 == k));
                }
            }
            if self.run_of_wrong(p, (k - 1) as nat) {
                assert forall|i: nat| i <= k implies self.node(
                    #[trigger] self.back(x, i),
                ).data.state_valid == Some(i == k) by {
                    if i > 0 {
                        self.lemma_back_from_parent(x, (i - 1) as nat);
                        assert(self.node(self.back(p, (i - 1) as nat)).data.state_valid == Some(
                            i - 1 == k - 1,
                        ));
                    }
                }
            }
        } else if k > 0 {
            assert(self.node(self.back(x, 0)).data.state_valid != Some(false));
        }
    }

    /// The vote of a block for a fork that was not computed yet. If the blame in its header does not
    /// reach the fork, it votes as the block that it does not blame: the one that many steps and one
    /// more above it. If the blame reaches the fork or beyond, it votes for exactly if the states on
    /// the line of the fork are as the blame says: wrong from the fork on as far as it blames them,
    /// and right at the block before those.
    pub proof fn law_vote_by_blame(&self, lca: usize, x: usize)
        requires
            self.wf(),
            self.has(lca),
            self.has(x),
            self.tree_at_heights(),
            self.vote_known(lca, x),
            self.node(x).data.vote_valid_lca_height != self.node(lca).height,
        ensures
            ({
                let blame = self.data_man.headers@[self.node(x).hash].blame;
                let unblamed = self.node(x).height - blame - 1;
                let fork = self.node(lca).height;
                let next = ancestor(self.weight_tree.parents(), x, (blame + 1) as nat);
                &&& unblamed > fork ==> self.blames_correctly(lca, x) == self.blames_correctly(
                    lca,
                    next,
                )
                &&& unblamed <= fork ==> self.blames_correctly(lca, x) == self.run_of_wrong(
                    lca,
                    (fork - unblamed) as nat,
                )
            }),
    {
        let tp = self.weight_tree.parents();
        let blame = self.data_man.headers@[self.node(x).hash].blame;
        let unblamed = self.node(x).height - blame - 1;
        let fork = self.node(lca).height;
        if unblamed > fork {
            let at = (unblamed - self.cur_era_genesis_height) as nat;
            assert(self.weight_tree.has(x));
            assert(depth(tp, x) - at == blame + 1);
        } else {
            self.lemma_run_of_wrong(lca, (fork - unblamed) as nat);
        }
    }

    /// The vote of a block that was computed for a fork is the one that is kept with it.
    pub proof fn law_kept_vote_is_told(&self, lca: usize, x: usize)
        requires
            self.node(x).data.vote_valid_lca_height == self.node(lca).height,
        ensures
            self.blames_correctly(lca, x) == self.node(x).data.vote_valid,
    {
    }

    /// Computing a vote keeps votes alone: with each block all else stays as it was, and where the
    /// kept vote changes, it is the vote of the block for that fork. The vote of the block that was
    /// asked for is kept, and where it follows from that of an unblamed block, that one too.
    pub proof fn law_computed_votes(&self, after: Self, lca: usize, me: usize, y: usize)
        requires
            self.wf(),
            self.has(lca),
            self.has(me),
            self.has(y),
            self.tree_at_heights(),
            self.vote_known(lca, me),
            after.nodes() == self.voted(lca, me),
        ensures
            after.nodes().dom() == self.nodes().dom(),
            after.node(y) == (ConsensusGraphNode {
                data: ConsensusGraphNodeData {
                    vote_valid_lca_height: after.node(y).data.vote_valid_lca_height,
                    vote_valid: after.node(y).data.vote_valid,
                    ..self.node(y).data
                },
                ..self.node(y)
            }),
            after.node(y) != self.node(y) ==> after.node(y).data.vote_valid_lca_height == self.node(
                lca,
            ).height && after.node(y).data.vote_valid == self.blames_correctly(lca, y),
            after.node(me).data.vote_valid_lca_height == self.node(lca).height,
            after.node(me).data.vote_valid == self.blames_correctly(lca, me),
            ({
                let blame = self.data_man.headers@[self.node(me).hash].blame;
                self.node(me).data.vote_valid_lca_height != self.node(lca).height && self.node(
                    me,
                ).height - blame - 1 > self.node(lca).height && y == ancestor(
                    self.weight_tree.parents(),
                    me,
                    (blame + 1) as nat,
                ) ==> after.node(y).data.vote_valid_lca_height == self.node(lca).height
            }),
    {
        let tp = self.weight_tree.parents();
        assert(after.nodes().dom() =~= self.nodes().dom());
        assert(self.nodes().contains_key(y));
        assert(self.nodes().contains_key(me));
        assert(after.nodes().contains_key(y));
        assert(after.nodes().contains_key(me));
        if self.votes_on_way(lca, me, y) {
            self.law_votes_on_way_agree(lca, me, y);
        }
        let blame = self.data_man.headers@[self.node(me).hash].blame;
        let unblamed = self.node(me).height - blame - 1;
        if self.node(me).data.vote_valid_lca_height != self.node(lca).height && unblamed
            > self.node(lca).height {
            let at = (unblamed - self.cur_era_genesis_height) as nat;
            assert(self.weight_tree.has(me));
            assert(depth(tp, me) - at == blame + 1);
            let next = ancestor(tp, me, (blame + 1) as nat);
            if y == next {
                assert(self.votes_on_way(lca, next, next) || self.vote_computed(
                    next,
                    self.node(lca).height,
                ));
            }
        }
    }

    /// How many blocks more are blamed at the block `k` steps before a trusted one.
    spec fn still_blamed(&self, t: usize, k: nat) -> nat
        decreases k,
    {
        if k == 0 {
            0
        } else {
            let before = self.still_blamed(t, (k - 1) as nat);
            if before == 0 {
                self.blame(self.back(t, (k - 1) as nat)) as nat
            } else {
                (before - 1) as nat
            }
        }
    }

    proof fn lemma_recovered_at(&self, t: usize, j: nat, k: nat)
        requires
            self.wf(),
            self.has(t),
            j <= k,
            self.back(t, k) != NULL,
        ensures
            self.recovered(t, 0, self.back(t, k)) == self.recovered(
                self.back(t, j),
                self.still_blamed(t, j),
                self.back(t, k),
            ),
        decreases j,
    {
        assert(self.back(t, 0) == t);
        if j > 0 {
            let i = (j - 1) as nat;
            self.lemma_recovered_at(t, i, k);
            if self.nodes().contains_key(NULL) {
                assert(self.has(NULL));
            }
            lemma_ancestor_prefix(self.parents(), t, i, k);
            lemma_ancestor_prefix(self.parents(), t, j, k);
            let x = self.back(t, i);
            let y = self.back(t, k);
            if i > 0 {
                self.lemma_back_older(t, i);
            }
            assert(self.has(x));
            assert(self.nodes().contains_key(x));
            assert(self.back(t, j) == self.node(x).parent);
            crate::lineage::lemma_ancestor_add(self.parents(), t, i, (k - i) as nat);
            self.lemma_back_older(x, (k - i) as nat);
        }
    }

    /// A run of blamed blocks.
    proof fn lemma_still_blamed(&self, t: usize, k: nat, i: nat)
        requires
            self.still_blamed(t, k) == 0,
            1 <= i <= self.blame(self.back(t, k)) + 1,
        ensures
            self.still_blamed(t, k + i) == self.blame(self.back(t, k)) + 1 - i,
        decreases i,
    {
        if i > 1 {
            self.lemma_still_blamed(t, k, (i - 1) as nat);
        }
    }

    /// Recovering from a trusted block evaluates every block from it back, and no other. The trusted
    /// block is right; and before each right one the blocks that its header blames are wrong, and
    /// the one before those is right again.
    pub proof fn law_recovered_line(&self, after: Self, trusted: H256)
        requires
            self.wf(),
            self.hash_to_arena_indices@.contains_key(trusted),
            after.nodes() == with_validity(self.nodes(), self.recovered_validity(Some(trusted))),
        ensures
            ({
                let t = self.hash_to_arena_indices@[trusted];
                &&& after.node(t).data.state_valid == Some(true)
                &&& forall|k: nat|
                    #[trigger] self.back(t, k) != NULL ==> after.node(
                        self.back(t, k),
                    ).data.state_valid is Some
                &&& forall|k: nat, i: nat|
                    #[trigger] self.back(t, k) != NULL && #[trigger] self.back(t, i) != NULL
                        && after.node(self.back(t, k)).data.state_valid == Some(true) && k < i <= k
                        + self.blame(self.back(t, k)) + 1 ==> after.node(
                        self.back(t, i),
                    ).data.state_valid == Some(i == k + self.blame(self.back(t, k)) + 1)
                &&& forall|y: usize| #[trigger]
                    self.has(y) && (forall|k: nat| #[trigger] self.back(t, k) != y) ==> after.node(
                        y,
                    ) == self.node(y)
            }),
    {
        let t = self.hash_to_arena_indices@[trusted];
        assert(self.has(t));
        assert(self.back(t, 0) == t);
        assert forall|k: nat| #[trigger] self.back(t, k) != NULL implies after.node(
            self.back(t, k),
        ).data.state_valid == Some(self.still_blamed(t, k) == 0) by {
            self.lemma_recovered_at(t, k, k);
            let y = self.back(t, k);
            if k > 0 {
                self.lemma_back_older(t, k);
            }
            assert(self.has(y));
            assert(self.nodes().contains_key(y));
            assert(after.nodes().contains_key(y));
        }
        assert(t != NULL) by {
            if self.nodes().contains_key(NULL) {
                assert(self.has(NULL));
            }
        }
        assert(after.node(self.back(t, 0)).data.state_valid == Some(self.still_blamed(t, 0) == 0));
        assert forall|k: nat, i: nat|
            #[trigger] self.back(t, k) != NULL && #[trigger] self.back(t, i) != NULL && after.node(
                self.back(t, k),
            ).data.state_valid == Some(true) && k < i <= k + self.blame(self.back(t, k))
                + 1 implies after.node(self.back(t, i)).data.state_valid == Some(
            i == k + self.blame(self.back(t, k)) + 1,
        ) by {
            self.lemma_still_blamed(t, k, (i - k) as nat);
        }
        assert forall|y: usize| #[trigger]
            self.has(y) && (forall|k: nat| #[trigger] self.back(t, k) != y) implies after.node(y)
            == self.node(y) by {
            self.lemma_not_recovered(t, 0, y);
            assert(self.nodes().contains_key(y));
            assert(after.nodes().contains_key(y));
        }
    }

    proof fn lemma_not_recovered(&self, x: usize, rest: nat, y: usize)
        requires
            self.wf(),
            x == NULL || self.has(x),
            forall|k: nat| #[trigger] self.back(x, k) != y,
        ensures
            self.recovered(x, rest, y) is None,
        decreases (if x == NULL { 0 } else { self.age(x) as int + 1 }),
    {
        assert(self.back(x, 0) == x);
        if x != NULL {
            let p = self.node(x).parent;
            assert(self.nodes().contains_key(x));
            assert forall|k: nat| #[trigger] self.back(p, k) != y by {
                self.lemma_back_from_parent(x, k);
            }
            if !(p != NULL && self.age(p) >= self.age(x)) {
                self.lemma_not_recovered(
                    p,
                    if rest == 0 {
                        self.blame(x) as nat
                    } else {
                        (rest - 1) as nat
                    },
                    y,
                );
            }
        }
    }

    /// Recovery that found no trusted block leaves all as it was.
    pub proof fn law_nothing_to_recover(&self, after: Self)
        requires
            after.nodes() == with_validity(self.nodes(), self.recovered_validity(None)),
        ensures
            after.nodes() == self.nodes(),
    {
        assert forall|y: usize| #[trigger] self.nodes().contains_key(y) implies after.nodes()[y]
            == self.nodes()[y] by {
            assert(self.has(y));
        }
        assert(after.nodes() =~= self.nodes());
    }

    /// Recovery starts at the trusted block for the pivot block at the boundary of available states,
    /// and there is none where the pivot chain ends before that.
    pub proof fn law_recovery_starts_at_boundary(&self)
        requires
            self.wf(),
            self.cur_era_genesis_height <= self.data_man.state_boundary_height,
        ensures
            forall|i: int|
                0 <= i < self.pivot_chain@.len() && self.cur_era_genesis_height + i
                    == self.data_man.state_boundary_height ==> self.recovery_block()
                    == self.trusted_blame_block(
                    self.node(#[trigger] self.pivot_chain@[i]).hash,
                    0,
                ),
            self.cur_era_genesis_height + self.pivot_chain@.len()
                <= self.data_man.state_boundary_height ==> self.recovery_block() is None,
    {
    }

    /// What has to be executed before the state of a block can be evaluated: the blocks from the one
    /// that its header defers to back, the oldest first, whose epochs are not committed to and
    /// that are above the boundary of available states. The block before them is committed to, or
    /// not above the boundary.
    pub proof fn law_missing_reaches_commitment(&self, x: usize)
        requires
            self.wf(),
            self.has(x),
            self.missing_known(x),
        ensures
            ({
                let list = self.missing_from(x);
                let n = list.len();
                let end = self.back(x, n);
                &&& self.has(end)
                &&& self.data_man.commitments@.contains_key(self.node(end).hash) || self.node(
                    end,
                ).height <= self.data_man.state_boundary_height
                &&& forall|i: nat|
                    i < n ==> {
                        let y = #[trigger] self.back(x, i);
                        &&& self.has(y)
                        &&& list[n - 1 - i] == self.node(y).hash
                        &&& !self.data_man.commitments@.contains_key(self.node(y).hash)
                        &&& self.node(y).height > self.data_man.state_boundary_height
                    }
            }),
        decreases self.age(x),
    {
        assert(self.back(x, 0) == x);
        assert(self.nodes().contains_key(x));
        if !(self.committed(x) || self.node(x).height <= self.data_man.state_boundary_height) {
            let p = self.node(x).parent;
            assert(self.has(p));
            self.law_missing_reaches_commitment(p);
            let list = self.missing_from(x);
            let rest = self.missing_from(p);
            assert(list == rest.push(self.node(x).hash));
            self.lemma_back_from_parent(x, rest.len());
            assert forall|i: nat| i < list.len() implies {
                let y = #[trigger] self.back(x, i);
                &&& self.has(y)
                &&& list[list.len() - 1 - i] == self.node(y).hash
                &&& !self.data_man.commitments@.contains_key(self.node(y).hash)
                &&& self.node(y).height > self.data_man.state_boundary_height
            } by {
                if i > 0 {
                    self.lemma_back_from_parent(x, (i - 1) as nat);
                    assert(self.has(self.back(p, (i - 1) as nat)));
                    assert(list[list.len() - 1 - i] == rest[rest.len() - 1 - (i - 1)]);
                }
            }
        }
    }

    /// What is blamed from a block back depends on the evaluations of the block and older ones.
    proof fn lemma_blamed_agrees(
        &self,
        a: Map<usize, Option<bool>>,
        b: Map<usize, Option<bool>>,
        x: usize,
    )
        requires
            self.wf(),
            self.has(x),
            forall|y: usize| #[trigger]
                self.has(y) && self.age(y) <= self.age(x) ==> a[y] == b[y],
        ensures
            self.blamed(a, x) == self.blamed(b, x),
        decreases self.age(x),
    {
        let p = self.node(x).parent;
        assert(self.nodes().contains_key(x));
        if p != NULL && self.age(p) < self.age(x) {
            assert(self.has(p));
            self.lemma_blamed_agrees(a, b, p);
        }
    }

    /// Evaluations of younger blocks leave those of older ones alone.
    proof fn lemma_evaluated_below(&self, valid: Map<usize, Option<bool>>, x: usize, k: nat, y: usize)
        requires
            self.wf(),
            self.has(x),
            self.evaluation_known(valid, x),
            self.evaluated(valid, x).2 is Ok,
            forall|j: nat| j < k ==> valid[#[trigger] self.back(x, j)] is None,
            self.age(y) <= self.age(self.back(x, k)),
        ensures
            self.has(self.back(x, k)),
            self.evaluation_known(valid, self.back(x, k)),
            self.evaluated(valid, self.back(x, k)).2 is Ok,
            self.evaluated(valid, x).0[y] == self.evaluated(valid, self.back(x, k)).0[y],
        decreases k,
    {
        assert(self.back(x, 0) == x);
        if k > 0 {
            let p = self.node(x).parent;
            assert(valid[self.back(x, 0)] is None);
            assert(self.nodes().contains_key(x));
            assert(self.has(p));
            self.lemma_back_from_parent(x, (k - 1) as nat);
            assert forall|j: nat| j < k - 1 implies valid[#[trigger] self.back(p, j)] is None by {
                self.lemma_back_from_parent(x, j);
                assert(valid[self.back(x, j + 1)] is None);
            }
            self.lemma_evaluated_below(valid, p, (k - 1) as nat, y);
            if self.back(x, k) != p {
                assert(k > 1);
                if self.nodes().contains_key(NULL) {
                    assert(self.has(NULL));
                }
                self.lemma_back_older(p, (k - 1) as nat);
            }
        }
    }

    /// Each evaluation that is made on the way to a block is the judgement of the header, by the
    /// evaluations that stand in the end. The header is judged right exactly if it carries the blame
    /// and the roots that are computed, and the state that it commits to is that of the block five
    /// steps before; so that one is wrong exactly if it carries anything else.
    pub proof fn law_evaluated_as_judged(&self, after: Self, me: usize, k: nat)
        requires
            self.wf(),
            self.has(me),
            self.evaluation_known(validity(self.nodes()), me),
            self.evaluated(validity(self.nodes()), me).2 is Ok,
            after.nodes() == with_validity(
                self.nodes(),
                self.evaluated(validity(self.nodes()), me).0,
            ),
            forall|j: nat|
                j <= k ==> self.node(#[trigger] self.back(me, j)).data.state_valid is None,
        ensures
            ({
                let x = self.back(me, k);
                let header = self.data_man.headers@[self.node(x).hash];
                let d = self.deferred(x, 5);
                &&& self.has(x)
                &&& d is Ok
                &&& self.expected_roots(
                    validity(after.nodes()),
                    self.node(x).parent,
                    self.data_man.commitments@[self.node(d->Ok_0).hash],
                ) matches Ok(r) && after.node(x).data.state_valid == Some(
                    header.blame == r.0 && header.deferred_state_root == r.1
                        && header.deferred_receipts_root == r.2 && header.deferred_logs_bloom_hash
                        == r.3,
                )
            }),
    {
        let valid = validity(self.nodes());
        let x = self.back(me, k);
        assert(self.back(me, 0) == me);
        assert(self.node(self.back(me, 0)).data.state_valid is None);
        self.lemma_unevaluated(me, k);
        self.lemma_evaluated_below(valid, me, k, x);
        assert(self.nodes().contains_key(x));
        assert(valid[x] is None) by {
            assert(self.node(self.back(me, k)).data.state_valid is None);
        }
        let p = self.node(x).parent;
        assert(self.has(p));
        let before = self.evaluated(valid, p).0;
        let last = validity(after.nodes());
        assert(after.nodes().contains_key(x));
        assert forall|y: usize| #[trigger]
            self.has(y) && self.age(y) <= self.age(p) implies before[y] == last[y] by {
            self.lemma_evaluated_below(valid, me, k, y);
            assert(self.nodes().contains_key(y));
            assert(after.nodes().contains_key(y));
        }
        self.lemma_blamed_agrees(before, last, p);
    }

    proof fn lemma_unevaluated(&self, me: usize, k: nat)
        requires
            self.wf(),
            self.has(me),
            self.evaluation_known(validity(self.nodes()), me),
            self.evaluated(validity(self.nodes()), me).2 is Ok,
            forall|j: nat|
                j <= k ==> self.node(#[trigger] self.back(me, j)).data.state_valid is None,
        ensures
            forall|j: nat|
                j <= k ==> self.has(#[trigger] self.back(me, j)) && validity(
                    self.nodes(),
                )[self.back(me, j)] is None,
        decreases k,
    {
        let valid = validity(self.nodes());
        if k > 0 {
            self.lemma_unevaluated(me, (k - 1) as nat);
        }
        assert(self.back(me, 0) == me);
        if k == 0 {
            assert(self.nodes().contains_key(me));
            assert(self.node(self.back(me, 0)).data.state_valid is None);
        } else {
            let y = self.back(me, (k - 1) as nat);
            assert(self.has(y));
            self.lemma_evaluated_below(valid, me, (k - 1) as nat, y);
            assert(self.nodes().contains_key(y));
            assert(self.back(me, k) == self.node(y).parent);
            assert(self.nodes().contains_key(self.back(me, k)));
            assert(self.node(self.back(me, k)).data.state_valid is None);
        }
    }

    /// Where states are to be exposed, the evaluation of a block exposes its hash, the commitment of
    /// the block five steps before, and whether its header is right; else it exposes nothing.
    pub proof fn law_exposed_evaluation(&self, me: usize, state_valid: bool)
        requires
            self.deferred(me, 5) is Ok,
        ensures
            ({
                let list = self.exposure(me, state_valid);
                let c = self.data_man.commitments@[self.node(self.deferred(me, 5)->Ok_0).hash];
                if self.inner_conf.enable_state_expose {
                    &&& list.len() == 1
                    &&& list[0].block_hash == self.node(me).hash
                    &&& list[0].deferred_state_root == c.state_root
                    &&& list[0].deferred_receipt_root == c.receipts_root
                    &&& list[0].deferred_logs_bloom_hash == c.logs_bloom_hash
                    &&& list[0].state_valid == state_valid
                } else {
                    list.len() == 0
                }
            }),
    {
    }

    /// Evaluating the states up to a block that was not evaluated exposes what evaluating those up to
    /// its parent exposes, and then the evaluation of the block.
    pub proof fn law_exposed_in_order(&self, me: usize)
        requires
            self.wf(),
            self.has(me),
            self.evaluation_known(validity(self.nodes()), me),
            self.evaluated(validity(self.nodes()), me).2 is Ok,
        ensures
            ({
                let r = self.evaluated(validity(self.nodes()), me);
                if self.node(me).data.state_valid is Some {
                    r.1.len() == 0
                } else {
                    r.0[me] is Some && r.1 == self.evaluated(
                        validity(self.nodes()),
                        self.node(me).parent,
                    ).1 + self.exposure(me, r.0[me]->0)
                }
            }),
    {
        assert(self.nodes().contains_key(me));
    }

    /// Evaluating up to a block stops where a header cannot be judged: if that is before the block, all is
    /// as after evaluating up to its parent; and if it is the block, its parent is evaluated and it is
    /// not. The reason is the one why the header cannot be judged.
    pub proof fn law_evaluation_stops(&self, valid: Map<usize, Option<bool>>, me: usize)
        requires
            self.wf(),
            self.has(me),
            self.evaluation_known(valid, me),
            self.evaluated(valid, me).2 is Err,
        ensures
            ({
                let r = self.evaluated(valid, me);
                let before = self.evaluated(valid, self.node(me).parent);
                &&& valid[me] is None
                &&& r.0 == before.0 && r.1 == before.1
                &&& before.2 is Err ==> r.2 == before.2
                &&& before.2 is Ok ==> self.judged(before.0, me) == Err::<bool, Seq<char>>(
                    r.2->Err_0,
                )
            }),
    {
    }

    /// What is said where the block that a header defers to cannot be told.
    pub proof fn law_deferred_refusals(&self, x: usize, n: nat, m: Seq<char>)
        requires
            self.wf(),
            self.has(x),
            self.deferred(x, n) == Err::<usize, Seq<char>>(m),
        ensures
            (exists|j: nat|
                j < n && #[trigger] self.back(x, j) == self.cur_era_genesis_block_arena_index)
                ==> m == "Parent is too old for computing the deferred state"@,
            (forall|j: nat|
                j < n ==> #[trigger] self.back(x, j) != self.cur_era_genesis_block_arena_index)
                ==> m == "Parent is NULL, possibly out of era?"@,
        decreases n,
    {
        let g = self.cur_era_genesis_block_arena_index;
        assert(self.back(x, 0) == x);
        assert(self.nodes().contains_key(x));
        if n > 0 && x != g && self.node(x).parent != NULL {
            let p = self.node(x).parent;
            self.law_deferred_refusals(p, (n - 1) as nat, m);
            if exists|j: nat| j < n && #[trigger] self.back(x, j) == g {
                let j = choose|j: nat| j < n && #[trigger] self.back(x, j) == g;
                self.lemma_back_from_parent(x, (j - 1) as nat);
                assert(self.back(p, (j - 1) as nat) == g);
            }
            if forall|j: nat| j < n ==> #[trigger] self.back(x, j) != g {
                assert forall|j: nat| j < n - 1 implies #[trigger] self.back(p, j) != g by {
                    self.lemma_back_from_parent(x, j);
                    assert(self.back(x, j + 1) != g);
                }
            }
        } else if n > 0 && x != g {
            if self.nodes().contains_key(NULL) {
                assert(self.has(NULL));
            }
            assert(self.nodes().contains_key(g));
            assert forall|j: nat| j < n implies #[trigger] self.back(x, j) != g by {
                if j > 0 {
                    self.lemma_back_from_parent(x, (j - 1) as nat);
                    lemma_ancestor_null(self.parents(), (j - 1) as nat);
                }
            }
        } else if n > 0 {
            assert(self.back(x, 0) == g);
        }
    }

    /// What is said where what a child has to answer for cannot be told: why the first of the blocks from
    /// its parent back that is not right, and at which that fails, fails.
    pub proof fn law_blame_refusals(&self, valid: Map<usize, Option<bool>>, x: usize)
        requires
            self.wf(),
            self.has(x),
            self.blame_known(valid, x),
            valid[x] != Some(true),
        ensures
            match self.deferred(x, 5) {
                Err(m) => self.blamed(valid, x) == Err::<
                    Seq<EpochExecutionCommitment>,
                    Seq<char>,
                >(m),
                Ok(d) => if !self.data_man.commitments@.contains_key(self.node(d).hash) {
                    self.blamed(valid, x) == Err::<Seq<EpochExecutionCommitment>, Seq<char>>(
                        "State block commitment missing"@,
                    )
                } else if self.node(x).height == self.cur_era_genesis_height {
                    self.blamed(valid, x) == Err::<Seq<EpochExecutionCommitment>, Seq<char>>(
                        "Failed to compute blame and state due to out of era"@,
                    )
                } else {
                    self.blamed(valid, self.node(x).parent) matches Err(m) ==> self.blamed(
                        valid,
                        x,
                    ) == Err::<Seq<EpochExecutionCommitment>, Seq<char>>(m)
                },
            },
    {
        let r = self.deferred(x, DEFERRED_STATE_EPOCH_COUNT as nat);
        assert(self.deferred(x, 5) == r);
        assert(self.nodes().contains_key(x));
        assert(valid[x] == Some(false));
        if r is Ok && self.committed(r->Ok_0) && self.node(x).height != self.cur_era_genesis_height {
            assert(self.node(x).parent != NULL);
            assert(self.age(self.node(x).parent) < self.age(x));
        }
    }

    /// A header is judged wrong exactly if what it has to say can be computed, and it says something
    /// else; and it cannot be judged exactly if that cannot be computed.
    pub proof fn law_wrong_header_differs(
        &self,
        valid: Map<usize, Option<bool>>,
        me: usize,
        d: usize,
    )
        requires
            self.deferred(me, 5) == Ok::<usize, Seq<char>>(d),
        ensures
            ({
                let header = self.data_man.headers@[self.node(me).hash];
                let r = self.expected_roots(
                    valid,
                    self.node(me).parent,
                    self.data_man.commitments@[self.node(d).hash],
                );
                &&& self.judged(valid, me) is Err <==> r is Err
                &&& self.judged(valid, me) == Ok::<bool, Seq<char>>(false) <==> r is Ok && (
                header.blame != r->Ok_0.0 || header.deferred_state_root != r->Ok_0.1
                    || header.deferred_receipts_root != r->Ok_0.2
                    || header.deferred_logs_bloom_hash != r->Ok_0.3)
            }),
    {
    }

    /// What a child has to answer for can be told exactly if for each of the blocks from its parent
    /// back, up to the last one with a right state, the block five steps before is there and its epoch
    /// committed to, and none of them is at the height of the era genesis.
    pub proof fn law_blame_can_be_told(&self, valid: Map<usize, Option<bool>>, parent: usize, k: nat)
        requires
            self.wf(),
            self.has(parent),
            self.blame_known(valid, parent),
            self.back(parent, k) != NULL,
            valid[self.back(parent, k)] == Some(true),
            forall|j: nat| j < k ==> valid[#[trigger] self.back(parent, j)] != Some(true),
        ensures
            self.blamed(valid, parent) is Ok <==> forall|j: nat|
                j < k ==> {
                    let y = #[trigger] self.back(parent, j);
                    &&& self.deferred(y, 5) matches Ok(d) && self.data_man.commitments@.contains_key(
                        self.node(d).hash,
                    )
                    &&& self.node(y).height != self.cur_era_genesis_height
                },
            self.blamed(valid, parent) matches Ok(list) ==> list.len() == k,
        decreases k,
    {
        assert(self.back(parent, 0) == parent);
        assert(self.nodes().contains_key(parent));
        if k > 0 {
            let p = self.node(parent).parent;
            assert(valid[self.back(parent, 0)] != Some(true));
            self.lemma_back_from_parent(parent, (k - 1) as nat);
            if p == NULL {
                if self.nodes().contains_key(NULL) {
                    assert(self.has(NULL));
                }
                lemma_ancestor_null(self.parents(), (k - 1) as nat);
            }
            assert(self.has(p));
            assert forall|j: nat| j < k - 1 implies valid[#[trigger] self.back(p, j)] != Some(
                true,
            ) by {
                self.lemma_back_from_parent(parent, j);
                assert(valid[self.back(parent, j + 1)] != Some(true));
            }
            let told = |y: usize|
                (self.deferred(y, 5) matches Ok(d) && self.data_man.commitments@.contains_key(
                    self.node(d).hash,
                )) && self.node(y).height != self.cur_era_genesis_height;
            assert(valid[parent] == Some(false));
            if told(parent) {
                let d = self.deferred(parent, DEFERRED_STATE_EPOCH_COUNT as nat)->Ok_0;
                assert(self.committed(d));
                assert(self.blame_known(valid, p));
                self.law_blame_can_be_told(valid, p, (k - 1) as nat);
                if self.blamed(valid, p) is Ok {
                    assert forall|j: nat| j < k implies told(#[trigger] self.back(parent, j)) by {
                        if j > 0 {
                            self.lemma_back_from_parent(parent, (j - 1) as nat);
                            assert(told(self.back(p, (j - 1) as nat)));
                        }
                    }
                } else {
                    let j = choose|j: nat| j < k - 1 && !told(#[trigger] self.back(p, j));
                    self.lemma_back_from_parent(parent, j);
                    assert(!told(self.back(parent, j + 1)));
                }
            } else {
                assert(!told(self.back(parent, 0)));
            }
        }
    }
}

} // verus!
