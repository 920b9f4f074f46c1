//! What blame means: how the headers of the chain, the evaluation of states and votes fit together.
use vstd::prelude::*;

use crate::block_data::EpochExecutionCommitment;
use crate::graph::{ConsensusGraphBlockExecutionState, ConsensusGraphInner};
use crate::lineage::{lemma_ancestor_add, lemma_ancestor_null, lemma_ancestor_prefix};
use crate::node::ConsensusGraphNode;
use crate::keccak::{concat_bytes, keccak256};
use crate::state::{
    blame_and_roots, bloom_hashes, receipts_roots, state_roots, validity, with_validity,
};
use crate::types::{hash_of_bytes, DEFERRED_STATE_EPOCH_COUNT, H256, NULL};

verus! {

impl ConsensusGraphInner {
    /// Stepping back from the parent is stepping back once more.
    pub proof fn lemma_back_from_parent(&self, x: usize, k: nat)
        requires
            self.has(x),
        ensures
            self.back(x, 0) == x,
            self.back(x, k + 1) == self.back(self.node(x).parent, k),
    {
        assert(self.nodes().contains_key(x));
        lemma_ancestor_add(self.parents(), x, 1, k);
        assert(self.back(x, 0) == x);
        assert(self.back(x, 1) == self.node(x).parent);
    }

    /// The blame that a child of `parent` has to carry is the distance to the last block with a
    /// right state: all blocks nearer than that have wrong states, and the commitments that the
    /// child answers for are theirs.
    pub proof fn law_blame_is_distance(&self, valid: Map<usize, Option<bool>>, parent: usize)
        requires
            self.wf(),
            self.has(parent),
            self.blame_known(valid, parent),
            self.blamed(valid, parent) is Ok,
        ensures
            ({
                let list = self.blamed(valid, parent)->Ok_0;
                &&& valid[self.back(parent, list.len())] == Some(true)
                &&& forall|j: nat|
                    j < list.len() ==> {
                        &&& valid[#[trigger] self.back(parent, j)] == Some(false)
                        &&& self.deferred(
                            self.back(parent, j),
                            DEFERRED_STATE_EPOCH_COUNT as nat,
                        ) matches Ok(d) && list[j as int] == self.commitment(d)
                    }
            }),
        decreases self.age(parent),
    {
        let list = self.blamed(valid, parent)->Ok_0;
        self.lemma_back_from_parent(parent, 0);
        if valid[parent] != Some(true) {
            let p = self.node(parent).parent;
            assert(self.nodes().contains_key(parent));
            assert(valid[parent] == Some(false));
            self.law_blame_is_distance(valid, p);
            let rest = self.blamed(valid, p)->Ok_0;
            let d = self.deferred(parent, DEFERRED_STATE_EPOCH_COUNT as nat)->Ok_0;
            assert(list =~= seq![self.commitment(d)] + rest);
            self.lemma_back_from_parent(parent, rest.len());
            assert forall|j: nat| j < list.len() implies {
                &&& valid[#[trigger] self.back(parent, j)] == Some(false)
                &&& self.deferred(
                    self.back(parent, j),
                    DEFERRED_STATE_EPOCH_COUNT as nat,
                ) matches Ok(d) && list[j as int] == self.commitment(d)
            } by {
                if j > 0 {
                    let i = (j - 1) as nat;
                    self.lemma_back_from_parent(parent, i);
                    assert(valid[self.back(p, i)] == Some(false));
                    assert(list[j as int] == rest[i as int]);
                }
            }
        }
    }

    proof fn lemma_right_after_wrong(&self, x: usize)
        requires
            self.wf(),
            self.has(x),
            self.blame_known(validity(self.nodes()), x),
            self.blamed(validity(self.nodes()), x) is Ok,
        ensures
            self.right_after_wrong(x, self.blamed(validity(self.nodes()), x)->Ok_0.len()),
        decreases self.age(x),
    {
        let valid = validity(self.nodes());
        assert(self.nodes().contains_key(x));
        assert(valid[x] == self.node(x).data.state_valid);
        if valid[x] != Some(true) {
            let p = self.node(x).parent;
            assert(valid[x] == Some(false));
            self.lemma_right_after_wrong(p);
            let rest = self.blamed(valid, p)->Ok_0;
            assert(self.blamed(valid, x)->Ok_0.len() == rest.len() + 1);
        }
    }

    /// A header is judged right exactly if it carries the blame and the roots that are computed for
    /// a child of its parent.
    pub proof fn law_right_header_is_the_computed_one(
        &self,
        valid: Map<usize, Option<bool>>,
        me: usize,
        d: usize,
    )
        requires
            self.deferred(me, DEFERRED_STATE_EPOCH_COUNT as nat) == Ok::<usize, Seq<char>>(d),
        ensures
            self.judged(valid, me) == Ok::<bool, Seq<char>>(true) <==> ({
                let header = self.data_man.headers@[self.node(me).hash];
                self.expected_roots(valid, self.node(me).parent, self.commitment(d)) == Ok::<
                    (u32, H256, H256, H256),
                    Seq<char>,
                >(
                    (
                        header.blame,
                        header.deferred_state_root,
                        header.deferred_receipts_root,
                        header.deferred_logs_bloom_hash,
                    ),
                )
            }),
    {
    }

    /// A block whose header is right blames exactly the blocks with wrong states before it, up to
    /// the last one with a right state.
    pub proof fn law_right_header_blames_right(&self, me: usize)
        requires
            self.wf(),
            self.has(me),
            self.judge_known(validity(self.nodes()), me),
            self.judged(validity(self.nodes()), me) == Ok::<bool, Seq<char>>(true),
            self.blamed(validity(self.nodes()), self.node(me).parent) matches Ok(list)
                ==> list.len() <= u32::MAX,
        ensures
            self.right_after_wrong(self.node(me).parent, self.blame(me) as nat),
    {
        let valid = validity(self.nodes());
        let p = self.node(me).parent;
        assert(self.nodes().contains_key(me));
        self.lemma_right_after_wrong(p);
        let d = self.deferred(me, DEFERRED_STATE_EPOCH_COUNT as nat)->Ok_0;
        let list = self.blamed(valid, p)->Ok_0;
        assert((seq![self.commitment(d)] + list).len() == list.len() + 1);
    }

    /// A block before another one is older.
    pub proof fn lemma_back_older(&self, x: usize, k: nat)
        requires
            self.wf(),
            self.has(x),
            k > 0,
            self.back(x, k) != NULL,
        ensures
            self.has(self.back(x, k)),
            self.age(self.back(x, k)) < self.age(x),
        decreases k,
    {
        assert(self.nodes().contains_key(x));
        self.lemma_back_from_parent(x, (k - 1) as nat);
        let p = self.node(x).parent;
        if p == NULL {
            if self.nodes().contains_key(NULL) {
                assert(self.has(NULL));
            }
            lemma_ancestor_null(self.parents(), (k - 1) as nat);
        } else if k > 1 {
            self.lemma_back_older(p, (k - 1) as nat);
        } else {
            self.lemma_back_from_parent(p, 0);
        }
    }

    /// Of the blocks that are met going back, those at a distance up to `rest` are wrong, but for
    /// the last one.
    proof fn lemma_recovered_run(&self, x: usize, rest: nat, k: nat)
        requires
            self.wf(),
            self.has(x),
            k <= rest,
            self.back(x, k) != NULL,
        ensures
            self.recovered(x, rest, self.back(x, k)) == Some(k == rest),
        decreases k,
    {
        assert(self.nodes().contains_key(x));
        self.lemma_back_from_parent(x, 0);
        if k > 0 {
            let p = self.node(x).parent;
            self.lemma_back_older(x, k);
            self.lemma_back_from_parent(x, (k - 1) as nat);
            if p == NULL {
                if self.nodes().contains_key(NULL) {
                    assert(self.has(NULL));
                }
                lemma_ancestor_null(self.parents(), (k - 1) as nat);
            }
            self.lemma_recovered_run(p, (rest - 1) as nat, (k - 1) as nat);
        }
    }

    /// The blocks from `x` back are right after `k` wrong ones if each of them is as it should be.
    proof fn lemma_run_is_right_after_wrong(&self, x: usize, k: nat)
        requires
            self.wf(),
            self.has(x),
            self.back(x, k) != NULL,
            forall|i: nat|
                i <= k ==> self.node(#[trigger] self.back(x, i)).data.state_valid == Some(i == k),
        ensures
            self.right_after_wrong(x, k),
        decreases k,
    {
        self.lemma_back_from_parent(x, 0);
        assert(self.node(self.back(x, 0)).data.state_valid == Some(0 == k));
        if k > 0 {
            let p = self.node(x).parent;
            assert(self.nodes().contains_key(x));
            self.lemma_back_from_parent(x, (k - 1) as nat);
            if p == NULL {
                if self.nodes().contains_key(NULL) {
                    assert(self.has(NULL));
                }
                lemma_ancestor_null(self.parents(), (k - 1) as nat);
            }
            assert forall|i: nat| i <= k - 1 implies self.node(
                #[trigger] self.back(p, i),
            ).data.state_valid == Some(i == k - 1) by {
                self.lemma_back_from_parent(x, i);
                assert(self.node(self.back(x, i + 1)).data.state_valid == Some(i + 1 == k));
            }
            self.lemma_run_is_right_after_wrong(p, (k - 1) as nat);
        }
    }

    /// Recovering evaluations from a trusted block takes that block as right, and believes the
    /// blame that it carries: the blocks that it blames are wrong and the one before them is right.
    pub proof fn law_recovered_follows_blame(&self, after: Self, trusted: H256)
        requires
            self.wf(),
            after.wf(),
            self.hash_to_arena_indices@.contains_key(trusted),
            after == (ConsensusGraphInner { arena: after.arena, ..*self }),
            after.nodes() == with_validity(self.nodes(), self.recovered_validity(Some(trusted))),
            self.back(
                self.hash_to_arena_indices@[trusted],
                (self.blame(self.hash_to_arena_indices@[trusted]) + 1) as nat,
            ) != NULL,
        ensures
            ({
                let t = self.hash_to_arena_indices@[trusted];
                &&& after.node(t).data.state_valid == Some(true)
                &&& after.right_after_wrong(self.node(t).parent, self.blame(t) as nat)
            }),
    {
        let t = self.hash_to_arena_indices@[trusted];
        let p = self.node(t).parent;
        let k = self.blame(t) as nat;
        assert(self.has(t));
        assert(self.nodes().contains_key(t));
        assert(after.nodes().contains_key(t));
        self.lemma_back_from_parent(t, k);
        if p == NULL {
            if self.nodes().contains_key(NULL) {
                assert(self.has(NULL));
            }
            lemma_ancestor_null(self.parents(), k);
        }
        assert(self.has(p));
        assert(after.parents() =~= self.parents());
        assert(after.has(p));
        assert forall|i: nat| i <= k implies after.node(
            #[trigger] after.back(p, i),
        ).data.state_valid == Some(i == k) by {
            let y = self.back(p, i);
            assert(after.back(p, i) == y);
            if self.nodes().contains_key(NULL) {
                assert(self.has(NULL));
            }
            lemma_ancestor_prefix(self.parents(), p, i, k);
            self.lemma_back_from_parent(t, i);
            self.lemma_back_older(t, i + 1);
            self.lemma_recovered_run(p, k, i);
            assert(self.nodes().contains_key(y));
            assert(self.recovered(t, 0, y) == self.recovered(p, k, y));
        }
        after.lemma_run_is_right_after_wrong(p, k);
    }

    /// Once the vote of a block is computed for a fork, it is kept: it is known for the block, and
    /// is what it was computed to be.
    pub proof fn law_votes_are_kept(&self, after: Self, lca: usize, me: usize)
        requires
            self.has(lca),
            self.has(me),
            after.nodes() == self.voted(lca, me),
        ensures
            after.vote_computed(me, self.node(lca).height),
            after.blames_correctly(lca, me) == self.blames_correctly(lca, me),
    {
        assert(after.nodes().contains_key(me));
        assert(after.nodes().contains_key(lca));
    }

    /// The vote that is kept for a block on the way is its own.
    pub proof fn law_votes_on_way_agree(&self, lca: usize, me: usize, y: usize)
        requires
            self.votes_on_way(lca, me, y),
        ensures
            self.blames_correctly(lca, y) == self.blames_correctly(lca, me),
        decreases self.age(me),
    {
        let next = self.ancestor_at_height(me, self.unblamed_height(me));
        if me != y {
            self.law_votes_on_way_agree(lca, next, y);
        }
    }

    /// Evaluations that were made are kept.
    proof fn lemma_evaluations_kept(&self, valid: Map<usize, Option<bool>>, x: usize, y: usize)
        requires
            valid[y] is Some,
        ensures
            self.evaluated(valid, x).0[y] == valid[y],
        decreases self.age(x),
    {
        let parent = self.node(x).parent;
        if !(valid[x] is Some || parent == NULL || self.age(parent) >= self.age(x)) {
            self.lemma_evaluations_kept(valid, parent, y);
        }
    }

    /// Where all goes well, each block back to the first that was evaluated is evaluated.
    proof fn lemma_evaluations_made(&self, valid: Map<usize, Option<bool>>, x: usize, k: nat)
        requires
            self.wf(),
            self.has(x),
            self.evaluation_known(valid, x),
            self.evaluated(valid, x).2 is Ok,
            forall|j: nat| j < k ==> valid[#[trigger] self.back(x, j)] is None,
        ensures
            self.evaluated(valid, x).0[self.back(x, k)] is Some,
        decreases self.age(x),
    {
        assert(self.back(x, 0) == x);
        let parent = self.node(x).parent;
        if valid[x] is Some {
            assert(k == 0);
        } else {
            assert(self.nodes().contains_key(x));
            assert(self.has(parent));
            if k > 0 {
                self.lemma_back_from_parent(x, (k - 1) as nat);
                assert forall|j: nat| j < k - 1 implies valid[#[trigger] self.back(
                    parent,
                    j,
                )] is None by {
                    self.lemma_back_from_parent(x, j);
                    assert(valid[self.back(x, j + 1)] is None);
                }
                self.lemma_evaluations_made(valid, parent, (k - 1) as nat);
            }
        }
    }

    /// Evaluating the states up to a block keeps every evaluation that was made before. If it goes
    /// well, the block is evaluated, and so is each block before it back to the first that had
    /// been; evaluating once more then changes nothing.
    pub proof fn law_states_are_evaluated_once(&self, after: Self, me: usize)
        requires
            self.wf(),
            self.has(me),
            self.evaluation_known(validity(self.nodes()), me),
            after.nodes() == with_validity(
                self.nodes(),
                self.evaluated(validity(self.nodes()), me).0,
            ),
        ensures
            forall|y: usize| #[trigger]
                self.has(y) && self.node(y).data.state_valid is Some
                    ==> after.node(y).data.state_valid == self.node(y).data.state_valid,
            self.evaluated(validity(self.nodes()), me).2 is Ok ==> {
                &&& after.node(me).data.state_valid is Some
                &&& forall|k: nat|
                    (forall|j: nat|
                        j < k ==> self.node(
                            #[trigger] self.back(me, j),
                        ).data.state_valid is None) ==> after.node(
                        #[trigger] self.back(me, k),
                    ).data.state_valid is Some
                &&& after.evaluated(validity(after.nodes()), me) == (
                    validity(after.nodes()),
                    Seq::<ConsensusGraphBlockExecutionState>::empty(),
                    Ok::<(), Seq<char>>(()),
                )
                &&& with_validity(after.nodes(), validity(after.nodes())) == after.nodes()
            },
            self.node(me).data.state_valid is Some ==> after.nodes() == self.nodes()
                && self.evaluated(validity(self.nodes()), me).2 is Ok,
    {
        let valid = validity(self.nodes());
        assert(self.nodes().contains_key(me));
        assert forall|y: usize| #[trigger]
            self.has(y) && self.node(y).data.state_valid is Some implies after.node(
            y,
        ).data.state_valid == self.node(y).data.state_valid by {
            assert(self.nodes().contains_key(y));
            assert(after.nodes().contains_key(y));
            assert(valid[y] == self.node(y).data.state_valid);
            self.lemma_evaluations_kept(valid, me, y);
        }
        lemma_own_validity(self.nodes());
        lemma_own_validity(after.nodes());
        if self.evaluated(valid, me).2 is Ok {
            assert forall|k: nat|
                (forall|j: nat|
                    j < k ==> self.node(
                        #[trigger] self.back(me, j),
                    ).data.state_valid is None) implies after.node(
                #[trigger] self.back(me, k),
            ).data.state_valid is Some by {
                self.lemma_unevaluated_line(valid, me, k);
                assert forall|j: nat| j < k implies valid[#[trigger] self.back(me, j)] is None by {
                    self.lemma_unevaluated_line(valid, me, j);
                    assert(self.nodes().contains_key(self.back(me, j)));
                    assert(self.node(self.back(me, j)).data.state_valid is None);
                }
                assert(self.nodes().contains_key(self.back(me, k)));
                assert(after.nodes().contains_key(self.back(me, k)));
                self.lemma_evaluations_made(valid, me, k);
            }
            assert(self.back(me, 0) == me);
            assert(after.node(self.back(me, 0)).data.state_valid is Some);
            assert(after.nodes().contains_key(me));
            assert(validity(after.nodes())[me] is Some);
        }
    }

    /// Going back over blocks that are not evaluated stays in the graph.
    proof fn lemma_unevaluated_line(&self, valid: Map<usize, Option<bool>>, x: usize, k: nat)
        requires
            self.wf(),
            self.has(x),
            valid == validity(self.nodes()),
            self.evaluation_known(valid, x),
            forall|j: nat|
                j < k ==> self.node(#[trigger] self.back(x, j)).data.state_valid is None,
        ensures
            self.has(self.back(x, k)),
        decreases k,
    {
        assert(self.back(x, 0) == x);
        if k > 0 {
            let parent = self.node(x).parent;
            assert(self.nodes().contains_key(x));
            assert(self.node(self.back(x, 0)).data.state_valid is None);
            assert(valid[x] is None);
            assert(self.has(parent));
            self.lemma_back_from_parent(x, (k - 1) as nat);
            assert forall|j: nat| j < k - 1 implies self.node(
                #[trigger] self.back(parent, j),
            ).data.state_valid is None by {
                self.lemma_back_from_parent(x, j);
                assert(self.node(self.back(x, j + 1)).data.state_valid is None);
            }
            self.lemma_unevaluated_line(valid, parent, (k - 1) as nat);
        }
    }

    /// The block that a header defers to is the one that many steps before. The era genesis stops the
    /// way back: it takes the place of what would be before it if it is the original genesis, and
    /// otherwise there is no such block, as there is none where the graph ends.
    pub proof fn law_deferred_is_steps_back(&self, x: usize, n: nat)
        requires
            self.wf(),
            self.has(x),
        ensures
            ({
                let g = self.cur_era_genesis_block_arena_index;
                if exists|j: nat| j < n && #[trigger] self.back(x, j) == g {
                    if self.node(g).height == 0 {
                        self.deferred(x, n) == Ok::<usize, Seq<char>>(g)
                    } else {
                        self.deferred(x, n) is Err
                    }
                } else if self.back(x, n) == NULL {
                    self.deferred(x, n) is Err
                } else {
                    self.deferred(x, n) == Ok::<usize, Seq<char>>(self.back(x, n))
                }
            }),
        decreases n,
    {
        let g = self.cur_era_genesis_block_arena_index;
        assert(self.back(x, 0) == x);
        assert(self.nodes().contains_key(x));
        assert(x != NULL);
        if n > 0 {
            let p = self.node(x).parent;
            self.lemma_back_from_parent(x, (n - 1) as nat);
            if x == g {
                assert(self.back(x, 0) == g);
            } else if p == NULL {
                if self.nodes().contains_key(NULL) {
                    assert(self.has(NULL));
                }
                lemma_ancestor_null(self.parents(), (n - 1) as nat);
                assert(self.nodes().contains_key(g));
                assert forall|j: nat| j < n implies #[trigger] self.back(x, j) != g by {
                    if j > 0 {
                        self.lemma_back_from_parent(x, (j - 1) as nat);
                        lemma_ancestor_null(self.parents(), (j - 1) as nat);
                    }
                }
            } else {
                self.law_deferred_is_steps_back(p, (n - 1) as nat);
                if exists|j: nat| j < n && #[trigger] self.back(x, j) == g {
                    let j = choose|j: nat| j < n && #[trigger] self.back(x, j) == g;
                    assert(j > 0);
                    self.lemma_back_from_parent(x, (j - 1) as nat);
                    assert(self.back(p, (j - 1) as nat) == g);
                }
                if exists|j: nat| j < n - 1 && #[trigger] self.back(p, j) == g {
                    let j = choose|j: nat| j < n - 1 && #[trigger] self.back(p, j) == g;
                    self.lemma_back_from_parent(x, j);
                    assert(self.back(x, j + 1) == g);
                }
            }
        }
    }

    /// Whether `roots` are the roots of a kind that a child of `parent` answers for with a blame: that
    /// of the commitment that it defers to, and those of the commitments that the blamed blocks from
    /// `parent` back defer to.
    pub open spec fn answered_roots(
        &self,
        parent: usize,
        blame: nat,
        own: EpochExecutionCommitment,
        kind: spec_fn(EpochExecutionCommitment) -> H256,
        roots: Seq<H256>,
    ) -> bool {
        &&& roots.len() == blame + 1
        &&& roots[0] == kind(own)
        &&& forall|j: nat|
            j < blame ==> (self.deferred(
                #[trigger] self.back(parent, j),
                DEFERRED_STATE_EPOCH_COUNT as nat,
            ) matches Ok(d) && roots[j as int + 1] == kind(
                self.data_man.commitments@[self.node(d).hash],
            ))
    }

    /// What a header has to say, in terms of the blocks before it. The blame is the number of blocks
    /// with wrong states up to the last one with a right state. Without blame the roots are those of
    /// the commitment that the header defers to. With any blame each of them is the Keccak-256 hash
    /// of the bytes, one root after the other, of that root and of those of all blamed blocks.
    pub proof fn law_roots_with_blame_are_hashed(
        &self,
        valid: Map<usize, Option<bool>>,
        parent: usize,
        own: EpochExecutionCommitment,
    )
        requires
            self.wf(),
            self.has(parent),
            self.blame_known(valid, parent),
            self.expected_roots(valid, parent, own) is Ok,
            self.blamed(valid, parent)->Ok_0.len() <= u32::MAX,
        ensures
            ({
                let r = self.expected_roots(valid, parent, own)->Ok_0;
                let k = r.0 as nat;
                &&& valid[self.back(parent, k)] == Some(true)
                &&& forall|j: nat| j < k ==> valid[#[trigger] self.back(parent, j)] == Some(false)
                &&& k == 0 ==> r.1 == own.state_root && r.2 == own.receipts_root && r.3
                    == own.logs_bloom_hash
                &&& k > 0 ==> {
                    &&& exists|roots: Seq<H256>|
                        self.answered_roots(
                            parent,
                            k,
                            own,
                            |c: EpochExecutionCommitment| c.state_root,
                            roots,
                        ) && #[trigger] hashes_joined(r.1, roots)
                    &&& exists|roots: Seq<H256>|
                        self.answered_roots(
                            parent,
                            k,
                            own,
                            |c: EpochExecutionCommitment| c.receipts_root,
                            roots,
                        ) && #[trigger] hashes_joined(r.2, roots)
                    &&& exists|roots: Seq<H256>|
                        self.answered_roots(
                            parent,
                            k,
                            own,
                            |c: EpochExecutionCommitment| c.logs_bloom_hash,
                            roots,
                        ) && #[trigger] hashes_joined(r.3, roots)
                }
            }),
    {
        self.law_blame_is_distance(valid, parent);
        let list = self.blamed(valid, parent)->Ok_0;
        let all = seq![own] + list;
        let r = self.expected_roots(valid, parent, own)->Ok_0;
        assert(r == blame_and_roots(all));
        assert(r.0 == list.len());
        let a = state_roots(all);
        let b = receipts_roots(all);
        let c = bloom_hashes(all);
        lemma_joined(a);
        lemma_joined(b);
        lemma_joined(c);
        if list.len() > 0 {
            assert forall|j: nat| j < list.len() implies (self.deferred(
                #[trigger] self.back(parent, j),
                DEFERRED_STATE_EPOCH_COUNT as nat,
            ) matches Ok(d) && all[j as int + 1] == self.data_man.commitments@[self.node(d).hash]) by {
                assert(all[j as int + 1] == list[j as int]);
            }
            assert(hashes_joined(r.1, a));
            assert(hashes_joined(r.2, b));
            assert(hashes_joined(r.3, c));
        }
    }
}

/// Whether a hash is the Keccak-256 hash of the bytes of other hashes, one after the other.
pub open spec fn hashes_joined(hash: H256, roots: Seq<H256>) -> bool {
    exists|bytes: Seq<u8>| #[trigger]
        joined(bytes, roots) && hash == hash_of_bytes(keccak256(bytes))
}

/// Whether bytes are those of hashes, one after the other.
pub open spec fn joined(bytes: Seq<u8>, roots: Seq<H256>) -> bool {
    &&& bytes.len() == 32 * roots.len()
    &&& forall|i: int|
        0 <= i < roots.len() ==> bytes.subrange(32 * i, 32 * i + 32) == (
        #[trigger] roots[i]).bytes()
}

/// The bytes that are hashed are those of the roots.
proof fn lemma_joined(roots: Seq<H256>)
    ensures
        joined(concat_bytes(roots), roots),
    decreases roots.len(),
{
    if roots.len() > 0 {
        let init = roots.drop_last();
        lemma_joined(init);
        let bytes = concat_bytes(roots);
        let before = concat_bytes(init);
        assert(roots.last().bytes().len() == 32);
        assert forall|i: int| 0 <= i < roots.len() implies bytes.subrange(32 * i, 32 * i + 32) == (
        #[trigger] roots[i]).bytes() by {
            if i < init.len() {
                assert(before.subrange(32 * i, 32 * i + 32) == init[i].bytes());
                assert(bytes.subrange(32 * i, 32 * i + 32) =~= before.subrange(
                    32 * i,
                    32 * i + 32,
                ));
            } else {
                assert(bytes.subrange(32 * i, 32 * i + 32) =~= roots.last().bytes());
            }
        }
    }
}

/// Nodes with their own evaluations are as they are.
proof fn lemma_own_validity(nodes: Map<usize, ConsensusGraphNode>)
    ensures
        with_validity(nodes, validity(nodes)) == nodes,
{
    let other = with_validity(nodes, validity(nodes));
    assert(other =~= nodes) by {
        assert forall|i: usize| #[trigger] nodes.contains_key(i) implies other[i] == nodes[i] by {
            assert(validity(nodes)[i] == nodes[i].data.state_valid);
        }
    }
}

} // verus!
