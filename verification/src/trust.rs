//! Which headers on the pivot chain can be trusted.
use vstd::prelude::*;

use crate::graph::{same_graph, same_links, ConsensusGraphInner};
use crate::node::{arena_get, arena_get_mut, ConsensusGraphNode, ConsensusGraphNodeData};
use crate::state::with_validity;
use crate::types::{DEFERRED_STATE_EPOCH_COUNT, H256, NULL};

verus! {

impl ConsensusGraphInner {
    /// The first position of the pivot chain, not before `from`, that is found from a trusted
    /// position `t` by going back over blamed blocks.
    pub open spec fn trusted_back(&self, from: int, t: int) -> int
        decreases t - from,
    {
        if t <= from {
            t
        } else {
            let p = t - self.blame(self.pivot_chain@[t]) - 1;
            if p < from {
                t
            } else {
                self.trusted_back(from, p)
            }
        }
    }

    /// Whether the headers that are met going back from `t` are known and blame no more blocks
    /// than there are.
    pub open spec fn trusted_back_known(&self, from: int, t: int) -> bool
        decreases t - from,
    {
        t <= from || {
            let p = t - self.blame(self.pivot_chain@[t]) - 1;
            &&& self.header_known(self.pivot_chain@[t])
            &&& p >= 0
            &&& p >= from ==> self.trusted_back_known(from, p)
        }
    }

    /// The first position of the pivot chain from `from` on whose header is trusted, directly or
    /// by a trusted header that does not blame it.
    pub open spec fn first_trusted(&self, from: int, blame_bound: Option<u32>) -> Option<int> {
        match self.first_trusted_from(from, blame_bound) {
            Some(t) => Some(self.trusted_back(from, t)),
            None => None,
        }
    }

    /// Whether the first trusted position can be found.
    pub open spec fn first_trusted_known(&self, from: int, blame_bound: Option<u32>) -> bool {
        &&& self.trust_known_from(from, blame_bound)
        &&& self.first_trusted_from(from, blame_bound) matches Some(t) ==> self.trusted_back_known(
            from,
            t,
        )
    }

    /// The first position of the pivot chain from `from` on whose header is trusted.
    pub fn find_first_trusted_starting_from(&self, from: usize, blame_bound: Option<u32>) -> (r:
        Option<usize>)
        requires
            self.wf(),
            self.first_trusted_known(from as int, blame_bound),
        ensures
            match r {
                Some(t) => self.first_trusted(from as int, blame_bound) == Some(t as int) && from
                    <= t < self.pivot_chain@.len(),
                None => self.first_trusted(from as int, blame_bound) is None,
            },
    {
        let mut trusted_index: usize = match self.find_first_with_trusted_blame_starting_from(
            from,
            blame_bound,
        ) {
            None => {
                return None;
            },
            Some(index) => index,
        };
        let ghost t = trusted_index as int;
        while trusted_index != from
            invariant
                self.wf(),
                from <= trusted_index < self.pivot_chain@.len(),
                self.trusted_back_known(from as int, trusted_index as int),
                self.trusted_back(from as int, t) == self.trusted_back(
                    from as int,
                    trusted_index as int,
                ),
            ensures
                from <= trusted_index < self.pivot_chain@.len(),
                trusted_index == self.trusted_back(from as int, t),
            decreases trusted_index,
        {
            let blame: u32 = self.get_blame_with_pivot_index(trusted_index);
            assert(blame + 1 <= trusted_index);
            let prev_trusted: usize = trusted_index - blame as usize - 1;
            if prev_trusted < from {
                break;
            }
            trusted_index = prev_trusted;
        }
        Some(trusted_index)
    }

    /// The first trusted position from which the state after the pivot block at a position can be
    /// told: states are committed to a few blocks later.
    pub fn find_first_index_with_correct_state_of(
        &self,
        pivot_index: usize,
        blame_bound: Option<u32>,
    ) -> (r: Option<usize>)
        requires
            self.wf(),
            pivot_index + DEFERRED_STATE_EPOCH_COUNT <= usize::MAX,
            self.first_trusted_known(pivot_index + DEFERRED_STATE_EPOCH_COUNT, blame_bound),
        ensures
            match r {
                Some(t) => self.first_trusted(
                    pivot_index + DEFERRED_STATE_EPOCH_COUNT,
                    blame_bound,
                ) == Some(t as int) && pivot_index + DEFERRED_STATE_EPOCH_COUNT <= t
                    < self.pivot_chain@.len(),
                None => self.first_trusted(
                    pivot_index + DEFERRED_STATE_EPOCH_COUNT,
                    blame_bound,
                ) is None,
            },
    {
        let from: usize = pivot_index + DEFERRED_STATE_EPOCH_COUNT as usize;
        self.find_first_trusted_starting_from(from, blame_bound)
    }

    /// Whether a block is where its height puts it on the pivot chain.
    pub open spec fn on_pivot_chain(&self, i: usize) -> bool {
        let p = self.node(i).height - self.cur_era_genesis_height;
        0 <= p < self.pivot_chain@.len() && self.pivot_chain@[p] == i
    }

    /// The position from which a trusted block is searched for a checkpoint.
    pub open spec fn trust_from(&self, checkpoint_hash: H256, plus_depth: usize) -> int {
        self.node(self.hash_to_arena_indices@[checkpoint_hash]).height
            - self.cur_era_genesis_height + plus_depth + DEFERRED_STATE_EPOCH_COUNT
    }

    /// Whether a checkpoint is on the pivot chain.
    pub open spec fn is_checkpoint(&self, checkpoint_hash: H256) -> bool {
        &&& self.hash_to_arena_indices@.contains_key(checkpoint_hash)
        &&& self.on_pivot_chain(self.hash_to_arena_indices@[checkpoint_hash])
    }

    /// The hash of the trusted block for a checkpoint.
    pub open spec fn trusted_blame_block(&self, checkpoint_hash: H256, plus_depth: usize) -> Option<
        H256,
    > {
        if !self.is_checkpoint(checkpoint_hash) {
            None
        } else {
            match self.first_trusted(self.trust_from(checkpoint_hash, plus_depth), None) {
                Some(t) => Some(self.node(self.pivot_chain@[t]).hash),
                None => None,
            }
        }
    }

    /// Whether the trusted block for a checkpoint can be found.
    pub open spec fn trusted_blame_block_known(
        &self,
        checkpoint_hash: H256,
        plus_depth: usize,
    ) -> bool {
        self.hash_to_arena_indices@.contains_key(checkpoint_hash) ==> {
            &&& self.node(self.hash_to_arena_indices@[checkpoint_hash]).height
                >= self.cur_era_genesis_height
            &&& self.is_checkpoint(checkpoint_hash) ==> {
                &&& self.trust_from(checkpoint_hash, plus_depth) <= usize::MAX
                &&& self.first_trusted_known(self.trust_from(checkpoint_hash, plus_depth), None)
            }
        }
    }

    /// The hash of the first pivot block whose header is trusted and tells the state after the
    /// pivot block `plus_depth` blocks after a checkpoint.
    pub fn get_trusted_blame_block(&self, checkpoint_hash: &H256, plus_depth: usize) -> (r: Option<
        H256,
    >)
        requires
            self.wf(),
            self.trusted_blame_block_known(*checkpoint_hash, plus_depth),
        ensures
            r == self.trusted_blame_block(*checkpoint_hash, plus_depth),
    {
        let arena_index: usize = match self.hash_to_arena_indices.get(checkpoint_hash) {
            Some(i) => *i,
            None => {
                return None;
            },
        };
        let distance: u64 = arena_get(&self.arena, arena_index).height
            - self.cur_era_genesis_height;
        let count: usize = self.pivot_chain.len();
        if distance >= count as u64 {
            return None;
        }
        let pivot_index: usize = distance as usize;
        if self.pivot_chain[pivot_index] != arena_index {
            return None;
        }
        match self.find_first_index_with_correct_state_of(pivot_index + plus_depth, None) {
            Some(index) => {
                assert(self.nodes().contains_key(self.pivot_chain@[index as int]));
                Some(arena_get(&self.arena, self.pivot_chain[index]).hash)
            },
            None => None,
        }
    }

    /// The hash of the trusted block for a snapshot.
    pub fn get_trusted_blame_block_for_snapshot(&self, snapshot_epoch_id: &H256) -> (r: Option<
        H256,
    >)
        requires
            self.wf(),
            self.trusted_blame_block_known(
                *snapshot_epoch_id,
                self.data_man.snapshot_blame_plus_depth,
            ),
        ensures
            r == self.trusted_blame_block(
                *snapshot_epoch_id,
                self.data_man.snapshot_blame_plus_depth,
            ),
    {
        self.get_trusted_blame_block(snapshot_epoch_id, self.data_man.snapshot_blame_plus_depth)
    }

    /// The evaluation that `y` gets where `x` is trusted once `rest` blocks, from `x` on, are
    /// blamed: a trusted block is right, the blocks that it blames are wrong, and the one before
    /// those is trusted again.
    pub open spec fn recovered(&self, x: usize, rest: nat, y: usize) -> Option<bool>
        decreases (if x == NULL { 0 } else { self.age(x) as int + 1 }),
    {
        let parent = self.node(x).parent;
        if x == NULL {
            None
        } else if x == y {
            Some(rest == 0)
        } else if parent != NULL && self.age(parent) >= self.age(x) {
            None
        } else {
            self.recovered(
                parent,
                if rest == 0 {
                    self.blame(x) as nat
                } else {
                    (rest - 1) as nat
                },
                y,
            )
        }
    }

    /// Whether the headers of the trusted blocks from `x` back are known.
    pub open spec fn recovery_known(&self, x: usize, rest: nat) -> bool
        decreases (if x == NULL { 0 } else { self.age(x) as int + 1 }),
    {
        let parent = self.node(x).parent;
        x == NULL || {
            &&& rest == 0 ==> self.header_known(x) && self.blame(x) < u32::MAX
            &&& parent != NULL ==> self.age(parent) < self.age(x)
            &&& self.recovery_known(
                parent,
                if rest == 0 {
                    self.blame(x) as nat
                } else {
                    (rest - 1) as nat
                },
            )
        }
    }

    /// Younger blocks are not met going back.
    proof fn lemma_recovered_older(&self, x: usize, rest: nat, y: usize)
        requires
            x != NULL ==> self.age(x) < self.age(y),
        ensures
            self.recovered(x, rest, y) is None,
        decreases (if x == NULL { 0 } else { self.age(x) as int + 1 }),
    {
        let parent = self.node(x).parent;
        if x != NULL && !(parent != NULL && self.age(parent) >= self.age(x)) {
            self.lemma_recovered_older(
                parent,
                if rest == 0 {
                    self.blame(x) as nat
                } else {
                    (rest - 1) as nat
                },
                y,
            );
        }
    }

    /// The evaluations after a trusted block was found; as they were if none was.
    pub open spec fn recovered_validity(&self, trusted: Option<H256>) -> Map<usize, Option<bool>> {
        Map::new(
            |y: usize| self.has(y),
            |y: usize|
                match trusted {
                    Some(h) => match self.recovered(self.hash_to_arena_indices@[h], 0, y) {
                        Some(b) => Some(b),
                        None => self.node(y).data.state_valid,
                    },
                    None => self.node(y).data.state_valid,
                },
        )
    }

    /// Evaluates the blocks from a trusted one back by its blame and that of the trusted blocks
    /// before it.
    fn recover_from(&mut self, start: usize)
        requires
            old(self).wf(),
            old(self).has(start),
            old(self).recovery_known(start, 0),
        ensures
            final(self).wf(),
            final(self).nodes().dom() == old(self).nodes().dom(),
            forall|y: usize| #[trigger]
                old(self).has(y) ==> final(self).node(y) == (ConsensusGraphNode {
                    data: ConsensusGraphNodeData {
                        state_valid: match old(self).recovered(start, 0, y) {
                            Some(b) => Some(b),
                            None => old(self).node(y).data.state_valid,
                        },
                        ..old(self).node(y).data
                    },
                    ..old(self).node(y)
                }),
            *final(self) == (ConsensusGraphInner { arena: final(self).arena, ..*old(self) }),
    {
        let ghost before = *self;
        let mut cur: usize = start;
        let mut rest: u32 = 0;
        while cur != NULL
            invariant
                before == *old(self),
                before.wf(),
                before.has(start),
                cur == NULL || before.has(cur),
                before.recovery_known(cur, rest as nat),
                *self == (ConsensusGraphInner { arena: self.arena, ..before }),
                self.nodes().dom() == before.nodes().dom(),
                forall|y: usize| #[trigger]
                    before.has(y) ==> self.node(y) == (ConsensusGraphNode {
                        data: ConsensusGraphNodeData {
                            state_valid: self.node(y).data.state_valid,
                            ..before.node(y).data
                        },
                        ..before.node(y)
                    }),
                forall|y: usize| #[trigger]
                    before.has(y) ==> (match before.recovered(start, 0, y) {
                        Some(b) => Some(b),
                        None => before.node(y).data.state_valid,
                    }) == (match before.recovered(cur, rest as nat, y) {
                        Some(b) => Some(b),
                        None => self.node(y).data.state_valid,
                    }),
            decreases (if cur == NULL { 0int } else { before.age(cur) as int + 1 }),
        {
            assert(before.has(cur));
            assert(self.nodes().dom().contains(cur));
            let hash: H256 = arena_get(&self.arena, cur).hash;
            let parent: usize = arena_get(&self.arena, cur).parent;
            let next: u32 = if rest == 0 {
                self.data_man.block_header_by_hash(&hash).unwrap().blame
            } else {
                rest - 1
            };
            arena_get_mut(&mut self.arena, cur).data.state_valid = Some(rest == 0);
            proof {
                assert(self.nodes().dom() =~= before.nodes().dom());
                assert(before.nodes().contains_key(cur));
                assert forall|y: usize| #[trigger] before.has(y) implies (
                match before.recovered(start, 0, y) {
                    Some(b) => Some(b),
                    None => before.node(y).data.state_valid,
                }) == (match before.recovered(parent, next as nat, y) {
                    Some(b) => Some(b),
                    None => self.node(y).data.state_valid,
                }) by {
                    if y == cur {
                        before.lemma_recovered_older(parent, next as nat, cur);
                    }
                }
            }
            rest = next;
            cur = parent;
        }
        proof {
            assert(same_graph(before.nodes(), self.nodes())) by {
                assert forall|i: usize| #[trigger] self.nodes().contains_key(i) implies same_links(
                    before.nodes()[i],
                    self.nodes()[i],
                ) by {
                    assert(before.nodes().dom().contains(i));
                    assert(before.has(i));
                }
            }
            before.lemma_wf_same(self);
        }
    }

    /// The trusted block from which evaluations are recovered: that for the pivot block at the
    /// boundary of available states.
    pub open spec fn recovery_block(&self) -> Option<H256> {
        let start = self.data_man.state_boundary_height - self.cur_era_genesis_height;
        if start >= self.pivot_chain@.len() {
            None
        } else {
            self.trusted_blame_block(self.node(self.pivot_chain@[start]).hash, 0)
        }
    }

    /// Finds the first trusted pivot block after the boundary of available states and evaluates it
    /// and the blocks before it by the blame in their headers. Nothing changes if there is none.
    pub fn recover_state_valid(&mut self)
        requires
            old(self).wf(),
            old(self).data_man.state_boundary_height >= old(self).cur_era_genesis_height,
            old(self).data_man.state_boundary_height - old(self).cur_era_genesis_height < old(
                self,
            ).pivot_chain@.len() ==> old(self).trusted_blame_block_known(
                old(self).node(
                    old(self).pivot_chain@[old(self).data_man.state_boundary_height - old(
                        self,
                    ).cur_era_genesis_height],
                ).hash,
                0,
            ),
            old(self).recovery_block() matches Some(h) ==> old(
                self,
            ).hash_to_arena_indices@.contains_key(h) && old(self).recovery_known(
                old(self).hash_to_arena_indices@[h],
                0,
            ),
        ensures
            final(self).wf(),
            final(self).nodes() == with_validity(
                old(self).nodes(),
                old(self).recovered_validity(old(self).recovery_block()),
            ),
            *final(self) == (ConsensusGraphInner { arena: final(self).arena, ..*old(self) }),
    {
        let distance: u64 = self.data_man.state_boundary_height - self.cur_era_genesis_height;
        let count: usize = self.pivot_chain.len();
        if distance >= count as u64 {
            proof {
                old(self).lemma_nothing_recovered();
            }
            return;
        }
        let start_pivot_index: usize = distance as usize;
        assert(self.nodes().contains_key(self.pivot_chain@[start_pivot_index as int]));
        let start_epoch_hash: H256 = arena_get(
            &self.arena,
            self.pivot_chain[start_pivot_index],
        ).hash;
        match self.get_trusted_blame_block(&start_epoch_hash, 0) {
            Some(trusted_blame_block) => {
                let cur: usize = *self.hash_to_arena_indices.get(&trusted_blame_block).unwrap();
                self.recover_from(cur);
                proof {
                    let v = old(self).recovered_validity(old(self).recovery_block());
                    assert(self.nodes() =~= with_validity(old(self).nodes(), v)) by {
                        assert forall|y: usize| #[trigger] old(self).nodes().contains_key(y) implies
                            self.nodes()[y] == with_validity(old(self).nodes(), v)[y] by {
                            assert(old(self).has(y));
                        }
                    }
                }
            },
            None => {
                proof {
                    old(self).lemma_nothing_recovered();
                }
            },
        }
    }

    proof fn lemma_nothing_recovered(&self)
        ensures
            self.nodes() == with_validity(self.nodes(), self.recovered_validity(None)),
    {
        assert(self.nodes() =~= with_validity(self.nodes(), self.recovered_validity(None))) by {
            assert forall|y: usize| #[trigger] self.nodes().contains_key(y) implies self.nodes()[y]
                == with_validity(self.nodes(), self.recovered_validity(None))[y] by {
                assert(self.has(y));
            }
        }
    }

    /// The trusted position that is found is not before the one from which it is searched, and its
    /// header, if it is a later one, blames all blocks from there up to it.
    pub proof fn law_first_trusted_covers(&self, from: int, blame_bound: Option<u32>)
        requires
            0 <= from,
            self.first_trusted(from, blame_bound) is Some,
        ensures
            ({
                let t = self.first_trusted(from, blame_bound)->Some_0;
                &&& from <= t < self.pivot_chain@.len()
                &&& t == from || self.blame(self.pivot_chain@[t]) >= t - from
            }),
    {
        self.lemma_first_trusted_from(from, blame_bound);
        let t = self.first_trusted_from(from, blame_bound)->Some_0;
        self.lemma_trusted_back(from, t);
    }

    proof fn lemma_first_trusted_from(&self, p: int, blame_bound: Option<u32>)
        ensures
            self.first_trusted_from(p, blame_bound) matches Some(t) ==> p <= t
                < self.pivot_chain@.len() && self.trusted_by_votes(
                self.pivot_chain@[t],
                blame_bound,
            ) && forall|q: int|
                p <= q < t ==> !self.trusted_by_votes(
                    #[trigger] self.pivot_chain@[q],
                    blame_bound,
                ),
            self.first_trusted_from(p, blame_bound) is None ==> forall|q: int|
                p <= q < self.pivot_chain@.len() ==> !self.trusted_by_votes(
                    #[trigger] self.pivot_chain@[q],
                    blame_bound,
                ),
        decreases self.pivot_chain@.len() - p,
    {
        if p < self.pivot_chain@.len() {
            self.lemma_first_trusted_from(p + 1, blame_bound);
        }
    }

    proof fn lemma_trusted_back(&self, from: int, t: int)
        requires
            0 <= from <= t,
        ensures
            from <= self.trusted_back(from, t) <= t,
            self.trusted_back(from, t) == from || self.blame(
                self.pivot_chain@[self.trusted_back(from, t)],
            ) >= self.trusted_back(from, t) - from,
        decreases t,
    {
        if t > from {
            let p = t - self.blame(self.pivot_chain@[t]) - 1;
            if p >= from {
                self.lemma_trusted_back(from, p);
            }
        }
    }

    /// The position that votes find is the first one that less than two fifths of the subtree vote
    /// against.
    pub proof fn law_votes_find_first(&self, p: int, blame_bound: Option<u32>)
        requires
            0 <= p,
        ensures
            self.first_trusted_from(p, blame_bound) matches Some(t) ==> p <= t
                < self.pivot_chain@.len() && self.trusted_by_votes(
                self.pivot_chain@[t],
                blame_bound,
            ) && forall|q: int|
                p <= q < t ==> !self.trusted_by_votes(
                    #[trigger] self.pivot_chain@[q],
                    blame_bound,
                ),
            self.first_trusted_from(p, blame_bound) is None ==> forall|q: int|
                p <= q < self.pivot_chain@.len() ==> !self.trusted_by_votes(
                    #[trigger] self.pivot_chain@[q],
                    blame_bound,
                ),
    {
        self.lemma_first_trusted_from(p, blame_bound);
    }
}

} // verus!
