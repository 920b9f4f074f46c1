//! Whether the states in the headers of blocks are right.
use vstd::prelude::*;

use crate::block_data::{BlockHeader, EpochExecutionCommitment};
use crate::graph::{all_nodes, same_graph, ConsensusGraphBlockExecutionState, ConsensusGraphInner};
use crate::index_set::index_limit;
use crate::keccak::{compute_blame_state_root_vec_root, vec_root};
use crate::node::{arena_get, arena_get_mut, ConsensusGraphNode, ConsensusGraphNodeData};
use crate::reach::lemma_nodes_count;
use crate::types::{DEFERRED_STATE_EPOCH_COUNT, H256, NULL};

verus! {

/// What a header has to say of the states before it: the blame and the three roots.
pub type BlameAndRoots = (u32, H256, H256, H256);

/// Whether each block has a right state, as far as that was evaluated.
pub open spec fn validity(nodes: Map<usize, ConsensusGraphNode>) -> Map<usize, Option<bool>> {
    nodes.map_values(|n: ConsensusGraphNode| n.data.state_valid)
}

/// The nodes with other evaluations.
pub open spec fn with_validity(
    nodes: Map<usize, ConsensusGraphNode>,
    valid: Map<usize, Option<bool>>,
) -> Map<usize, ConsensusGraphNode> {
    Map::new(
        |i: usize| nodes.contains_key(i),
        |i: usize|
            ConsensusGraphNode {
                data: ConsensusGraphNodeData { state_valid: valid[i], ..nodes[i].data },
                ..nodes[i]
            },
    )
}

/// The state roots of commitments.
pub open spec fn state_roots(list: Seq<EpochExecutionCommitment>) -> Seq<H256> {
    list.map_values(|c: EpochExecutionCommitment| c.state_root)
}

/// The receipts roots of commitments.
pub open spec fn receipts_roots(list: Seq<EpochExecutionCommitment>) -> Seq<H256> {
    list.map_values(|c: EpochExecutionCommitment| c.receipts_root)
}

/// The logs bloom hashes of commitments.
pub open spec fn bloom_hashes(list: Seq<EpochExecutionCommitment>) -> Seq<H256> {
    list.map_values(|c: EpochExecutionCommitment| c.logs_bloom_hash)
}

/// What a header has to say if these are the commitments that it answers for: its own first, then
/// those of the blamed blocks. Without blame the roots are its own; with blame they are hashes of
/// the lists of roots.
pub open spec fn blame_and_roots(list: Seq<EpochExecutionCommitment>) -> BlameAndRoots {
    if list.len() == 1 {
        (0, list[0].state_root, list[0].receipts_root, list[0].logs_bloom_hash)
    } else {
        (
            (list.len() - 1) as u32,
            vec_root(state_roots(list)),
            vec_root(receipts_roots(list)),
            vec_root(bloom_hashes(list)),
        )
    }
}

impl ConsensusGraphInner {
    /// The block whose state a header `n` blocks further on commits to, or why there is none.
    pub open spec fn deferred(&self, x: usize, n: nat) -> Result<usize, Seq<char>>
        decreases n,
    {
        if n == 0 {
            Ok(x)
        } else if x == self.cur_era_genesis_block_arena_index {
            if self.node(x).height == 0 {
                Ok(x)
            } else {
                Err("Parent is too old for computing the deferred state"@)
            }
        } else if self.node(x).parent == NULL {
            Err("Parent is NULL, possibly out of era?"@)
        } else {
            self.deferred(self.node(x).parent, (n - 1) as nat)
        }
    }

    /// The block whose state the header of `me` commits to.
    pub fn get_deferred_state_arena_index(&self, me: usize) -> (r: Result<usize, String>)
        requires
            self.wf(),
            self.has(me),
        ensures
            match r {
                Ok(i) => self.deferred(me, DEFERRED_STATE_EPOCH_COUNT as nat) == Ok::<
                    usize,
                    Seq<char>,
                >(i) && self.has(i),
                Err(e) => self.deferred(me, DEFERRED_STATE_EPOCH_COUNT as nat) == Err::<
                    usize,
                    Seq<char>,
                >(e@),
            },
    {
        let mut idx: usize = me;
        let mut i: u64 = 0;
        while i < DEFERRED_STATE_EPOCH_COUNT
            invariant
                i <= DEFERRED_STATE_EPOCH_COUNT,
                self.wf(),
                self.has(idx),
                self.deferred(me, DEFERRED_STATE_EPOCH_COUNT as nat) == self.deferred(
                    idx,
                    (DEFERRED_STATE_EPOCH_COUNT - i) as nat,
                ),
            decreases DEFERRED_STATE_EPOCH_COUNT - i,
        {
            assert(self.nodes().contains_key(idx));
            if idx == self.cur_era_genesis_block_arena_index {
                if arena_get(&self.arena, idx).height == 0 {
                    return Ok(idx);
                } else {
                    return Err("Parent is too old for computing the deferred state".to_owned());
                }
            }
            idx = arena_get(&self.arena, idx).parent;
            if idx == NULL {
                return Err("Parent is NULL, possibly out of era?".to_owned());
            }
            i = i + 1;
        }
        Ok(idx)
    }

    /// Whether the execution of the epoch of a block is committed to.
    pub open spec fn committed(&self, i: usize) -> bool {
        self.data_man.commitments@.contains_key(self.node(i).hash)
    }

    /// What the execution of the epoch of a block is committed to.
    pub open spec fn commitment(&self, i: usize) -> EpochExecutionCommitment {
        self.data_man.commitments@[self.node(i).hash]
    }

    /// The hashes of the blocks from `x` back, the oldest first, up to one that is committed to or
    /// at the boundary of available states.
    pub open spec fn missing_from(&self, x: usize) -> Seq<H256>
        decreases self.age(x),
    {
        let parent = self.node(x).parent;
        if self.committed(x) || self.node(x).height <= self.data_man.state_boundary_height || parent
            == NULL || self.age(parent) >= self.age(x) {
            seq![]
        } else {
            self.missing_from(parent).push(self.node(x).hash)
        }
    }

    /// Whether the way back from `x` to a block that is committed to is in the graph.
    pub open spec fn missing_known(&self, x: usize) -> bool
        decreases self.age(x),
    {
        let parent = self.node(x).parent;
        self.committed(x) || self.node(x).height <= self.data_man.state_boundary_height || (parent
            != NULL && self.age(parent) < self.age(x) && self.missing_known(parent))
    }

    /// The hashes of the blocks that have to be executed before the state of `me` can be
    /// evaluated, the oldest first.
    pub fn collect_defer_blocks_missing_execution_commitments(&self, me: usize) -> (r: Result<
        Vec<H256>,
        String,
    >)
        requires
            self.wf(),
            self.has(me),
            self.deferred(me, DEFERRED_STATE_EPOCH_COUNT as nat) matches Ok(i)
                ==> self.missing_known(i),
        ensures
            match (r, self.deferred(me, DEFERRED_STATE_EPOCH_COUNT as nat)) {
                (Ok(hashes), Ok(i)) => hashes@ == self.missing_from(i),
                (Err(e), Err(s)) => e@ == s,
                _ => false,
            },
    {
        let mut cur: usize = match self.get_deferred_state_arena_index(me) {
            Ok(i) => i,
            Err(e) => {
                return Err(e);
            },
        };
        let ghost first = cur;
        let state_boundary_height: u64 = self.data_man.state_boundary_height;
        let mut back: Vec<H256> = Vec::new();
        loop
            invariant
                self.wf(),
                self.has(cur),
                state_boundary_height == self.data_man.state_boundary_height,
                self.missing_known(cur),
                self.missing_from(first) == self.missing_from(cur) + back@.reverse(),
            ensures
                self.missing_from(first) == back@.reverse(),
            decreases self.age(cur),
        {
            assert(self.nodes().contains_key(cur));
            let hash: H256 = arena_get(&self.arena, cur).hash;
            if self.data_man.get_epoch_execution_commitment(&hash).is_some() || arena_get(
                &self.arena,
                cur,
            ).height <= state_boundary_height {
                assert(self.missing_from(cur) + back@.reverse() =~= back@.reverse());
                break;
            }
            let ghost before = back@;
            back.push(hash);
            let parent: usize = arena_get(&self.arena, cur).parent;
            assert(back@.reverse() =~= seq![hash] + before.reverse());
            assert(self.missing_from(cur) + before.reverse() =~= self.missing_from(parent)
                + back@.reverse());
            cur = parent;
        }
        let mut waiting_blocks: Vec<H256> = Vec::new();
        let mut i: usize = back.len();
        while i > 0
            invariant
                i <= back.len(),
                waiting_blocks@ == back@.skip(i as int).reverse(),
            decreases i,
        {
            i = i - 1;
            waiting_blocks.push(back[i]);
            assert(waiting_blocks@ =~= back@.skip(i as int).reverse());
        }
        assert(back@.skip(0) =~= back@);
        Ok(waiting_blocks)
    }

    /// The commitments of the blamed blocks from `x` back, up to the first block with a right
    /// state; or why they cannot be told.
    pub open spec fn blamed(&self, valid: Map<usize, Option<bool>>, x: usize) -> Result<
        Seq<EpochExecutionCommitment>,
        Seq<char>,
    >
        decreases self.age(x),
    {
        let parent = self.node(x).parent;
        if valid[x] == Some(true) {
            Ok(seq![])
        } else {
            match self.deferred(x, DEFERRED_STATE_EPOCH_COUNT as nat) {
                Err(e) => Err(e),
                Ok(d) => if !self.committed(d) {
                    Err("State block commitment missing"@)
                } else if self.node(x).height == self.cur_era_genesis_height {
                    Err("Failed to compute blame and state due to out of era"@)
                } else if parent == NULL || self.age(parent) >= self.age(x) {
                    Ok(seq![self.commitment(d)])
                } else {
                    match self.blamed(valid, parent) {
                        Ok(rest) => Ok(seq![self.commitment(d)] + rest),
                        Err(e) => Err(e),
                    }
                },
            }
        }
    }

    /// Whether the blocks from `x` back were evaluated, as far as is needed to tell the blame.
    pub open spec fn blame_known(&self, valid: Map<usize, Option<bool>>, x: usize) -> bool
        decreases self.age(x),
    {
        let parent = self.node(x).parent;
        &&& valid[x] is Some
        &&& (valid[x] == Some(false) && (self.deferred(
            x,
            DEFERRED_STATE_EPOCH_COUNT as nat,
        ) matches Ok(d) && self.committed(d) && self.node(x).height
            != self.cur_era_genesis_height)) ==> parent != NULL && self.age(parent) < self.age(x)
            && self.blame_known(valid, parent)
    }

    /// What the header of a child of `parent` has to say, given the commitment that it defers to.
    pub open spec fn expected_roots(
        &self,
        valid: Map<usize, Option<bool>>,
        parent: usize,
        exec_result: EpochExecutionCommitment,
    ) -> Result<BlameAndRoots, Seq<char>> {
        match self.blamed(valid, parent) {
            Ok(list) => Ok(blame_and_roots(seq![exec_result] + list)),
            Err(e) => Err(e),
        }
    }

    fn collect_blamed(&self, parent: usize, exec_result: &EpochExecutionCommitment) -> (r: Result<
        Vec<EpochExecutionCommitment>,
        String,
    >)
        requires
            self.wf(),
            self.has(parent),
            self.blame_known(validity(self.nodes()), parent),
        ensures
            match (r, self.blamed(validity(self.nodes()), parent)) {
                (Ok(list), Ok(s)) => list@ == seq![*exec_result] + s,
                (Err(e), Err(s)) => e@ == s,
                _ => false,
            },
            r matches Ok(list) ==> 0 < list@.len() <= index_limit() + 1,
    {
        let ghost valid = validity(self.nodes());
        let mut cur: usize = parent;
        let mut list: Vec<EpochExecutionCommitment> = Vec::new();
        list.push(*exec_result);
        let ghost mut path: Seq<usize> = seq![];
        proof {
            if self.blamed(valid, parent) is Ok {
                assert(seq![*exec_result] + self.blamed(valid, parent)->Ok_0 =~= list@
                    + self.blamed(valid, cur)->Ok_0);
            }
        }
        loop
            invariant
                self.wf(),
                self.has(cur),
                valid == validity(self.nodes()),
                self.blame_known(valid, cur),
                match (self.blamed(valid, parent), self.blamed(valid, cur)) {
                    (Ok(a), Ok(b)) => seq![*exec_result] + a == list@ + b,
                    (Err(a), Err(b)) => a == b,
                    _ => false,
                },
                list@.len() == path.len() + 1,
                all_nodes(self.nodes(), path),
                path.no_duplicates(),
                forall|i: int| 0 <= i < path.len() ==> self.age(cur) < self.age(#[trigger] path[i]),
            ensures
                self.blamed(valid, parent) is Ok,
                list@ == seq![*exec_result] + self.blamed(valid, parent)->Ok_0,
                0 < list@.len() <= index_limit() + 1,
            decreases self.age(cur),
        {
            assert(self.nodes().contains_key(cur));
            proof {
                lemma_nodes_count(self.nodes(), path);
            }
            let valid_here: bool = arena_get(&self.arena, cur).data.state_valid.unwrap();
            if valid_here {
                assert(list@ + self.blamed(valid, cur)->Ok_0 =~= list@);
                break;
            }
            let deferred_arena_index: usize = match self.get_deferred_state_arena_index(cur) {
                Ok(i) => i,
                Err(e) => {
                    return Err(e);
                },
            };
            let hash: H256 = arena_get(&self.arena, deferred_arena_index).hash;
            let commitment: EpochExecutionCommitment =
                match self.data_man.get_epoch_execution_commitment(&hash) {
                Some(c) => c,
                None => {
                    return Err("State block commitment missing".to_owned());
                },
            };
            if arena_get(&self.arena, cur).height == self.cur_era_genesis_height {
                return Err("Failed to compute blame and state due to out of era".to_owned());
            }
            let ghost before = list@;
            list.push(commitment);
            let next: usize = arena_get(&self.arena, cur).parent;
            proof {
                let old_path = path;
                path = path.push(cur);
                assert(all_nodes(self.nodes(), path));
                assert forall|i: int| 0 <= i < path.len() implies self.age(next) < self.age(
                    #[trigger] path[i],
                ) by {
                    if i < old_path.len() {
                        assert(self.age(cur) < self.age(old_path[i]));
                    }
                }
                if self.blamed(valid, next) is Ok {
                    assert(before + self.blamed(valid, cur)->Ok_0 =~= list@ + self.blamed(
                        valid,
                        next,
                    )->Ok_0);
                }
            }
            cur = next;
        }
        Ok(list)
    }

    /// The blame and the deferred roots that belong into the header of a child of `parent`, given
    /// the commitment that the header defers to. The blame is the number of blocks before it whose
    /// states are wrong, back to the first one whose state is right.
    pub fn compute_blame_and_state_with_execution_result(
        &self,
        parent: usize,
        exec_result: &EpochExecutionCommitment,
    ) -> (r: Result<BlameAndRoots, String>)
        requires
            self.wf(),
            self.has(parent),
            self.blame_known(validity(self.nodes()), parent),
        ensures
            match (r, self.expected_roots(validity(self.nodes()), parent, *exec_result)) {
                (Ok(x), Ok(s)) => x == s,
                (Err(e), Err(s)) => e@ == s,
                _ => false,
            },
    {
        let list: Vec<EpochExecutionCommitment> = match self.collect_blamed(parent, exec_result) {
            Ok(list) => list,
            Err(e) => {
                return Err(e);
            },
        };
        let n: usize = list.len();
        if n == 1 {
            return Ok((0, list[0].state_root, list[0].receipts_root, list[0].logs_bloom_hash));
        }
        let mut states: Vec<H256> = Vec::new();
        let mut receipts: Vec<H256> = Vec::new();
        let mut blooms: Vec<H256> = Vec::new();
        let mut i: usize = 0;
        while i < n
            invariant
                i <= n,
                n == list@.len(),
                states@ == state_roots(list@.take(i as int)),
                receipts@ == receipts_roots(list@.take(i as int)),
                blooms@ == bloom_hashes(list@.take(i as int)),
            decreases n - i,
        {
            states.push(list[i].state_root);
            receipts.push(list[i].receipts_root);
            blooms.push(list[i].logs_bloom_hash);
            i = i + 1;
            assert(states@ =~= state_roots(list@.take(i as int)));
            assert(receipts@ =~= receipts_roots(list@.take(i as int)));
            assert(blooms@ =~= bloom_hashes(list@.take(i as int)));
        }
        assert(list@.take(i as int) =~= list@);
        Ok(
            (
                (n - 1) as u32,
                compute_blame_state_root_vec_root(&states),
                compute_blame_state_root_vec_root(&receipts),
                compute_blame_state_root_vec_root(&blooms),
            ),
        )
    }

    /// Whether the header of a block says what it has to; or why that cannot be told.
    pub open spec fn judged(&self, valid: Map<usize, Option<bool>>, me: usize) -> Result<
        bool,
        Seq<char>,
    > {
        match self.deferred(me, DEFERRED_STATE_EPOCH_COUNT as nat) {
            Err(e) => Err(e),
            Ok(d) => match self.expected_roots(valid, self.node(me).parent, self.commitment(d)) {
                Err(e) => Err(e),
                Ok(x) => {
                    let header = self.data_man.headers@[self.node(me).hash];
                    Ok(
                        header.blame == x.0 && header.deferred_state_root == x.1
                            && header.deferred_receipts_root == x.2
                            && header.deferred_logs_bloom_hash == x.3,
                    )
                },
            },
        }
    }

    /// Whether what is needed to judge the header of a block is there.
    pub open spec fn judge_known(&self, valid: Map<usize, Option<bool>>, me: usize) -> bool {
        self.deferred(me, DEFERRED_STATE_EPOCH_COUNT as nat) matches Ok(d) ==> {
            &&& self.committed(d)
            &&& self.node(me).parent != NULL
            &&& self.blame_known(valid, self.node(me).parent)
            &&& self.blamed(valid, self.node(me).parent) is Ok ==> self.header_known(me)
        }
    }

    /// What is exposed of the evaluation of a block.
    pub open spec fn exposure(&self, me: usize, state_valid: bool) -> Seq<
        ConsensusGraphBlockExecutionState,
    > {
        if self.inner_conf.enable_state_expose {
            let d = self.deferred(me, DEFERRED_STATE_EPOCH_COUNT as nat)->Ok_0;
            seq![
                ConsensusGraphBlockExecutionState {
                    block_hash: self.node(me).hash,
                    deferred_state_root: self.commitment(d).state_root,
                    deferred_receipt_root: self.commitment(d).receipts_root,
                    deferred_logs_bloom_hash: self.commitment(d).logs_bloom_hash,
                    state_valid,
                },
            ]
        } else {
            seq![]
        }
    }

    /// Keeping the evaluation of a block changes nothing but that.
    proof fn lemma_evaluation_kept(&self, after: &Self, me: usize, state_valid: bool)
        requires
            self.wf(),
            self.has(me),
            after.nodes() == self.nodes().insert(
                me,
                ConsensusGraphNode {
                    data: ConsensusGraphNodeData {
                        state_valid: Some(state_valid),
                        ..self.node(me).data
                    },
                    ..self.node(me)
                },
            ),
            *after == (ConsensusGraphInner {
                arena: after.arena,
                exposed_states: after.exposed_states,
                ..*self
            }),
        ensures
            after.wf(),
            after.nodes() == with_validity(
                self.nodes(),
                validity(self.nodes()).insert(me, Some(state_valid)),
            ),
    {
        let nodes = self.nodes();
        let v = validity(nodes).insert(me, Some(state_valid));
        assert(nodes.contains_key(me));
        assert(after.nodes() =~= with_validity(nodes, v)) by {
            assert forall|i: usize| #[trigger] nodes.contains_key(i) implies after.nodes()[i]
                == with_validity(nodes, v)[i] by {
                assert(validity(nodes)[i] == nodes[i].data.state_valid);
            }
        }
        assert(after.nodes().dom() =~= nodes.dom());
        assert(same_graph(nodes, after.nodes()));
        self.lemma_wf_same(after);
    }

    /// Evaluates whether the header of a block says what it has to.
    #[verifier::spinoff_prover]
    pub fn compute_state_valid_for_block(&mut self, me: usize) -> (r: Result<(), String>)
        requires
            old(self).wf(),
            old(self).has(me),
            old(self).judge_known(validity(old(self).nodes()), me),
        ensures
            final(self).wf(),
            match (r, old(self).judged(validity(old(self).nodes()), me)) {
                (Ok(_), Ok(b)) => {
                    &&& final(self).nodes() == with_validity(
                        old(self).nodes(),
                        validity(old(self).nodes()).insert(me, Some(b)),
                    )
                    &&& final(self).exposed_states@ == old(self).exposed_states@ + old(
                        self,
                    ).exposure(me, b)
                },
                (Err(e), Err(s)) => e@ == s && *final(self) == *old(self),
                _ => false,
            },
            *final(self) == (ConsensusGraphInner {
                arena: final(self).arena,
                exposed_states: final(self).exposed_states,
                ..*old(self)
            }),
    {
        let deferred_state_arena_index: usize = match self.get_deferred_state_arena_index(me) {
            Ok(i) => i,
            Err(e) => {
                return Err(e);
            },
        };
        let deferred_hash: H256 = arena_get(&self.arena, deferred_state_arena_index).hash;
        let exec_commitment: EpochExecutionCommitment =
            self.data_man.get_epoch_execution_commitment(&deferred_hash).unwrap();
        let parent: usize = arena_get(&self.arena, me).parent;
        assert(self.nodes().contains_key(me));
        let (blame, deferred_state_root, deferred_receipt_root, deferred_logs_bloom_hash) =
            match self.compute_blame_and_state_with_execution_result(parent, &exec_commitment) {
            Ok(x) => x,
            Err(e) => {
                return Err(e);
            },
        };
        let hash: H256 = arena_get(&self.arena, me).hash;
        let header: &BlockHeader = self.data_man.block_header_by_hash(&hash).unwrap();
        let state_valid: bool = header.blame == blame && header.deferred_state_root
            == deferred_state_root && header.deferred_receipts_root == deferred_receipt_root
            && header.deferred_logs_bloom_hash == deferred_logs_bloom_hash;
        arena_get_mut(&mut self.arena, me).data.state_valid = Some(state_valid);
        if self.inner_conf.enable_state_expose {
            self.exposed_states.push(
                ConsensusGraphBlockExecutionState {
                    block_hash: hash,
                    deferred_state_root: exec_commitment.state_root,
                    deferred_receipt_root: exec_commitment.receipts_root,
                    deferred_logs_bloom_hash: exec_commitment.logs_bloom_hash,
                    state_valid,
                },
            );
        }
        proof {
            old(self).lemma_evaluation_kept(self, me, state_valid);
            assert(self.exposed_states@ =~= old(self).exposed_states@ + old(self).exposure(
                me,
                state_valid,
            ));
        }
        Ok(())
    }

    /// The evaluations after those that are missing for `x` and the blocks before it were made in
    /// order, what was exposed meanwhile, and whether that came to an end.
    pub open spec fn evaluated(&self, valid: Map<usize, Option<bool>>, x: usize) -> (
        Map<usize, Option<bool>>,
        Seq<ConsensusGraphBlockExecutionState>,
        Result<(), Seq<char>>,
    )
        decreases self.age(x),
    {
        let parent = self.node(x).parent;
        if valid[x] is Some || parent == NULL || self.age(parent) >= self.age(x) {
            (valid, seq![], Ok(()))
        } else {
            let before = self.evaluated(valid, parent);
            if before.2 is Err {
                before
            } else {
                match self.judged(before.0, x) {
                    Ok(b) => (
                        before.0.insert(x, Some(b)),
                        before.1 + self.exposure(x, b),
                        Ok(()),
                    ),
                    Err(e) => (before.0, before.1, Err(e)),
                }
            }
        }
    }

    /// Whether what is needed for the evaluations that are missing is there.
    pub open spec fn evaluation_known(&self, valid: Map<usize, Option<bool>>, x: usize) -> bool
        decreases self.age(x),
    {
        let parent = self.node(x).parent;
        valid[x] is Some || {
            &&& self.node(x).height >= self.data_man.state_boundary_height
            &&& parent != NULL
            &&& self.age(parent) < self.age(x)
            &&& self.evaluation_known(valid, parent)
            &&& self.evaluated(valid, parent).2 is Ok ==> self.judge_known(
                self.evaluated(valid, parent).0,
                x,
            )
        }
    }

    /// Other evaluations do not change which block a header defers to.
    proof fn lemma_deferred_same(&self, other: &ConsensusGraphInner, x: usize, n: nat)
        requires
            self.wf(),
            self.has(x),
            same_but_validity(*self, *other),
        ensures
            other.deferred(x, n) == self.deferred(x, n),
            self.deferred(x, n) matches Ok(d) ==> self.has(d),
        decreases n,
    {
        assert(self.nodes().contains_key(x));
        if n > 0 && self.node(x).parent != NULL {
            self.lemma_deferred_same(other, self.node(x).parent, (n - 1) as nat);
        }
    }

    /// Judgements depend on the evaluations that they are given alone.
    proof fn lemma_blamed_same(
        &self,
        other: &ConsensusGraphInner,
        valid: Map<usize, Option<bool>>,
        x: usize,
    )
        requires
            self.wf(),
            self.has(x),
            same_but_validity(*self, *other),
        ensures
            other.blamed(valid, x) == self.blamed(valid, x),
            other.blame_known(valid, x) == self.blame_known(valid, x),
        decreases self.age(x),
    {
        assert(self.nodes().contains_key(x));
        self.lemma_deferred_same(other, x, DEFERRED_STATE_EPOCH_COUNT as nat);
        if self.deferred(x, DEFERRED_STATE_EPOCH_COUNT as nat) is Ok {
            let d = self.deferred(x, DEFERRED_STATE_EPOCH_COUNT as nat)->Ok_0;
            assert(self.nodes().contains_key(d));
        }
        if self.node(x).parent != NULL {
            assert(self.nodes().contains_key(self.node(x).parent));
            self.lemma_blamed_same(other, valid, self.node(x).parent);
        }
    }

    proof fn lemma_judged_same(
        &self,
        other: &ConsensusGraphInner,
        valid: Map<usize, Option<bool>>,
        x: usize,
    )
        requires
            self.wf(),
            self.has(x),
            self.node(x).parent != NULL,
            same_but_validity(*self, *other),
        ensures
            other.judged(valid, x) == self.judged(valid, x),
            other.judge_known(valid, x) == self.judge_known(valid, x),
            self.judged(valid, x) matches Ok(b) ==> other.exposure(x, b) == self.exposure(x, b),
    {
        assert(self.nodes().contains_key(x));
        self.lemma_deferred_same(other, x, DEFERRED_STATE_EPOCH_COUNT as nat);
        if self.deferred(x, DEFERRED_STATE_EPOCH_COUNT as nat) is Ok {
            let d = self.deferred(x, DEFERRED_STATE_EPOCH_COUNT as nat)->Ok_0;
            assert(self.nodes().contains_key(d));
        }
        assert(self.nodes().contains_key(self.node(x).parent));
        self.lemma_blamed_same(other, valid, self.node(x).parent);
    }

    /// Evaluations are made of blocks.
    proof fn lemma_evaluated_dom(&self, valid: Map<usize, Option<bool>>, x: usize)
        requires
            self.wf(),
            self.has(x),
            valid.dom() == self.nodes().dom(),
        ensures
            self.evaluated(valid, x).0.dom() == self.nodes().dom(),
        decreases self.age(x),
    {
        assert(self.nodes().contains_key(x));
        let parent = self.node(x).parent;
        if parent != NULL {
            self.lemma_evaluated_dom(valid, parent);
            if self.judged(self.evaluated(valid, parent).0, x) is Ok {
                let b = self.judged(self.evaluated(valid, parent).0, x)->Ok_0;
                assert(self.evaluated(valid, parent).0.insert(x, Some(b)).dom()
                    =~= self.nodes().dom());
            }
        }
    }

    /// Makes the evaluations that are missing for `me` and the blocks before it.
    pub fn compute_state_valid(&mut self, me: usize) -> (r: Result<(), String>)
        requires
            old(self).wf(),
            old(self).has(me),
            old(self).evaluation_known(validity(old(self).nodes()), me),
        ensures
            final(self).wf(),
            final(self).nodes() == with_validity(
                old(self).nodes(),
                old(self).evaluated(validity(old(self).nodes()), me).0,
            ),
            final(self).exposed_states@ == old(self).exposed_states@ + old(self).evaluated(
                validity(old(self).nodes()),
                me,
            ).1,
            match (r, old(self).evaluated(validity(old(self).nodes()), me).2) {
                (Ok(_), Ok(_)) => true,
                (Err(e), Err(s)) => e@ == s,
                _ => false,
            },
            *final(self) == (ConsensusGraphInner {
                arena: final(self).arena,
                exposed_states: final(self).exposed_states,
                ..*old(self)
            }),
    {
        let ghost start = *self;
        let ghost valid = validity(self.nodes());
        let mut blocks_to_compute: Vec<usize> = Vec::new();
        let mut cur: usize = me;
        while arena_get(&self.arena, cur).data.state_valid.is_none()
            invariant
                *self == start,
                start.wf(),
                start.has(cur),
                valid == validity(start.nodes()),
                start.evaluation_known(valid, cur),
                start.evaluation_known(valid, me),
                start.is_way_back(valid, me, blocks_to_compute@, cur),
            decreases start.age(cur),
        {
            assert(start.nodes().contains_key(cur));
            let ghost before = blocks_to_compute@;
            blocks_to_compute.push(cur);
            cur = arena_get(&self.arena, cur).parent;
        }
        proof {
            assert(start.nodes().contains_key(cur));
            assert(valid[cur] is Some);
            assert(self.exposed_states@ =~= start.exposed_states@ + start.evaluated(valid, cur).1);
            assert(self.nodes() =~= with_validity(start.nodes(), start.evaluated(valid, cur).0))
                by {
                assert forall|i: usize| #[trigger] start.nodes().contains_key(i) implies
                    start.nodes()[i] == with_validity(start.nodes(), valid)[i] by {
                    assert(valid[i] == start.nodes()[i].data.state_valid);
                }
            }
            assert(valid.dom() =~= start.nodes().dom());
        }
        let ghost last = cur;
        let mut i: usize = blocks_to_compute.len();
        while i > 0
            invariant
                i <= blocks_to_compute.len(),
                start == *old(self),
                start.wf(),
                start.has(me),
                start.has(last),
                self.wf(),
                valid == validity(start.nodes()),
                valid.dom() == start.nodes().dom(),
                start.evaluation_known(valid, me),
                start.is_way_back(valid, me, blocks_to_compute@, last),
                *self == (ConsensusGraphInner {
                    arena: self.arena,
                    exposed_states: self.exposed_states,
                    ..start
                }),
                ({
                    let at = if i < blocks_to_compute@.len() {
                        blocks_to_compute@[i as int]
                    } else {
                        last
                    };
                    let e = start.evaluated(valid, at);
                    &&& e.2 is Ok
                    &&& self.nodes() == with_validity(start.nodes(), e.0)
                    &&& self.exposed_states@ == start.exposed_states@ + e.1
                }),
            decreases i,
        {
            i = i - 1;
            let index: usize = blocks_to_compute[i];
            proof {
                start.lemma_way_back_step(valid, me, blocks_to_compute@, last, i as int);
            }
            match self.evaluate_next(index, Ghost(start), Ghost(valid)) {
                Ok(_) => {},
                Err(err) => {
                    proof {
                        start.lemma_failed_below(valid, me, blocks_to_compute@, last, i as int);
                    }
                    return Err(err);
                },
            }
        }
        Ok(())
    }

    /// Evaluates a block after the blocks before it.
    fn evaluate_next(
        &mut self,
        index: usize,
        Ghost(start): Ghost<ConsensusGraphInner>,
        Ghost(valid): Ghost<Map<usize, Option<bool>>>,
    ) -> (r: Result<(), String>)
        requires
            start.wf(),
            start.has(index),
            valid.dom() == start.nodes().dom(),
            valid[index] is None,
            start.evaluation_known(valid, index),
            old(self).wf(),
            *old(self) == (ConsensusGraphInner {
                arena: old(self).arena,
                exposed_states: old(self).exposed_states,
                ..start
            }),
            start.evaluated(valid, start.node(index).parent).2 is Ok,
            old(self).nodes() == with_validity(
                start.nodes(),
                start.evaluated(valid, start.node(index).parent).0,
            ),
            old(self).exposed_states@ == start.exposed_states@ + start.evaluated(
                valid,
                start.node(index).parent,
            ).1,
        ensures
            final(self).wf(),
            *final(self) == (ConsensusGraphInner {
                arena: final(self).arena,
                exposed_states: final(self).exposed_states,
                ..start
            }),
            final(self).nodes() == with_validity(start.nodes(), start.evaluated(valid, index).0),
            final(self).exposed_states@ == start.exposed_states@ + start.evaluated(valid, index).1,
            match (r, start.evaluated(valid, index).2) {
                (Ok(_), Ok(_)) => true,
                (Err(e), Err(s)) => e@ == s,
                _ => false,
            },
    {
        let ghost parent = start.node(index).parent;
        let ghost e = start.evaluated(valid, parent);
        let ghost mid = *self;
        proof {
            assert(start.nodes().contains_key(index));
            assert(start.nodes().contains_key(parent));
            start.lemma_evaluated_dom(valid, parent);
            assert(validity(self.nodes()) =~= e.0);
            assert(same_but_validity(start, mid));
            start.lemma_judged_same(&mid, e.0, index);
            assert(mid.has(index));
        }
        let r: Result<(), String> = self.compute_state_valid_for_block(index);
        proof {
            if start.judged(e.0, index) is Ok {
                let b = start.judged(e.0, index)->Ok_0;
                assert(self.nodes() =~= with_validity(start.nodes(), e.0.insert(index, Some(b))));
                assert(self.exposed_states@ =~= start.exposed_states@ + start.evaluated(
                    valid,
                    index,
                ).1);
            }
        }
        r
    }

    /// Whether a list is the way from `me` back to `last`, made of blocks that were not evaluated.
    pub open spec fn is_way_back(
        &self,
        valid: Map<usize, Option<bool>>,
        me: usize,
        list: Seq<usize>,
        last: usize,
    ) -> bool {
        &&& list.len() == 0 ==> last == me
        &&& list.len() > 0 ==> list[0] == me && self.node(list.last()).parent == last
        &&& all_nodes(self.nodes(), list)
        &&& forall|i: int| 0 <= i < list.len() ==> valid[#[trigger] list[i]] is None
        &&& forall|i: int|
            0 <= i < list.len() ==> self.evaluation_known(valid, #[trigger] list[i])
        &&& forall|i: int, j: int|
            0 <= i && j == i + 1 && j < list.len() ==> self.node(#[trigger] list[i]).parent
                == #[trigger] list[j]
    }

    proof fn lemma_way_back_step(
        &self,
        valid: Map<usize, Option<bool>>,
        me: usize,
        list: Seq<usize>,
        last: usize,
        i: int,
    )
        requires
            self.wf(),
            self.is_way_back(valid, me, list, last),
            0 <= i < list.len(),
        ensures
            self.has(list[i]),
            valid[list[i]] is None,
            self.evaluation_known(valid, list[i]),
            self.node(list[i]).parent == (if i + 1 < list.len() {
                list[i + 1]
            } else {
                last
            }),
    {
        assert(self.nodes().contains_key(list[i]));
        if i + 1 < list.len() {
            assert(self.node(list[i]).parent == list[i + 1]);
        }
    }

    /// Where an evaluation fails, those after it are not made.
    proof fn lemma_failed_below(
        &self,
        valid: Map<usize, Option<bool>>,
        me: usize,
        list: Seq<usize>,
        last: usize,
        i: int,
    )
        requires
            self.wf(),
            self.is_way_back(valid, me, list, last),
            0 <= i < list.len(),
            self.evaluated(valid, list[i]).2 is Err,
        ensures
            self.evaluated(valid, me) == self.evaluated(valid, list[i]),
        decreases i,
    {
        if i > 0 {
            self.lemma_way_back_step(valid, me, list, last, i - 1);
            self.lemma_failed_below(valid, me, list, last, i - 1);
        }
    }
}

/// Whether two states of the graph differ in evaluations and what was exposed alone.
pub open spec fn same_but_validity(a: ConsensusGraphInner, b: ConsensusGraphInner) -> bool {
    &&& exists|v: Map<usize, Option<bool>>| b.nodes() == #[trigger] with_validity(a.nodes(), v)
    &&& b == (ConsensusGraphInner {
        arena: b.arena,
        exposed_states: b.exposed_states,
        ..a
    })
}

} // verus!
