//! What the answers to queries stand for.
use vstd::prelude::*;

use crate::block_data::{result_of_epoch, BlockExecutionResultWithEpoch};
use crate::graph::ConsensusGraphInner;
use crate::text::decimal;
use crate::types::H256;

verus! {

impl ConsensusGraphInner {
    /// The epoch of a position of the pivot chain is the height of the era genesis and the position;
    /// asked for it, all ways to ask name the block at that position.
    pub proof fn law_epochs_are_positions(&self, i: int, e: u64)
        requires
            0 <= i < self.pivot_chain@.len(),
            e == self.cur_era_genesis_height + i,
        ensures
            self.pivot_of_epoch(e) == Ok::<usize, Seq<char>>(self.pivot_chain@[i]),
            self.hash_from_epoch_number(e) == Ok::<H256, Seq<char>>(
                self.node(self.pivot_chain@[i]).hash,
            ),
            self.epoch_hash_of(e) == Some(self.node(self.pivot_chain@[i]).hash),
    {
    }

    /// An epoch before the era or after the tip of the pivot chain has no block here; the hash for one
    /// before the era is that which ends the stored epoch, if there is one.
    pub proof fn law_other_epochs_have_no_pivot(&self, e: u64)
        requires
            e < self.cur_era_genesis_height || self.cur_era_genesis_height + self.pivot_chain@.len()
                <= e,
        ensures
            self.pivot_of_epoch(e) is Err,
            self.epoch_hash_of(e) is None,
            ({
                let sets = self.data_man.epoch_sets@;
                if e < self.cur_era_genesis_height && sets.contains_key(e) && sets[e]@.len() > 0 {
                    self.hash_from_epoch_number(e) == Ok::<H256, Seq<char>>(sets[e]@.last())
                } else {
                    self.hash_from_epoch_number(e) is Err
                }
            }),
    {
    }

    /// The epoch of a block that the graph holds is the number that the block carries, unless it
    /// carries none; of any other block there is none. The hash that goes with it is that of the
    /// pivot block at the position of the epoch, if there is one.
    pub proof fn law_epoch_of_a_block(&self, hash: H256)
        ensures
            ({
                let known = self.hash_to_arena_indices@.contains_key(hash);
                let e = self.node(self.hash_to_arena_indices@[hash]).data.epoch_number;
                let i = e - self.cur_era_genesis_height;
                &&& known && e != u64::MAX ==> self.epoch_of_block(hash) == Some(e)
                &&& !known || e == u64::MAX ==> self.epoch_of_block(hash) is None
                    && self.epoch_hash_of_block(hash) is None
                &&& known && e != u64::MAX ==> self.epoch_hash_of_block(hash) == (if 0 <= i
                    < self.pivot_chain@.len() {
                    Some(self.node(self.pivot_chain@[i]).hash)
                } else {
                    None
                })
            }),
    {
    }

    /// The result of a block in an epoch here is the first one that was kept for it in the view of the pivot
    /// block of that epoch; there is none exactly if none was kept for that view. Of a block that is
    /// in no epoch here, it is the stored one.
    pub proof fn law_result_is_for_the_epoch(&self, hash: H256)
        ensures
            ({
                let kept = self.data_man.execution_results@;
                let stored = self.data_man.stored_results@;
                match self.epoch_hash_of_block(hash) {
                    Some(p) => match self.execution_result(hash) {
                        Some(r) => {
                            &&& r.0 == p
                            &&& kept.contains_key(hash)
                            &&& exists|k: int|
                                0 <= k < kept[hash]@.len() && (#[trigger] kept[hash]@[k]).0 == p
                                    && kept[hash]@[k].1 == r.1 && forall|j: int|
                                    0 <= j < k ==> (#[trigger] kept[hash]@[j]).0 != p
                        },
                        None => kept.contains_key(hash) ==> forall|k: int|
                            0 <= k < kept[hash]@.len() ==> (#[trigger] kept[hash]@[k]).0 != p,
                    },
                    None => if stored.contains_key(hash) {
                        self.execution_result(hash) matches Some(r) && r.0 == stored[hash].0 && r.1
                            == stored[hash].1
                    } else {
                        self.execution_result(hash) is None
                    },
                }
            }),
    {
        let kept = self.data_man.execution_results@;
        if kept.contains_key(hash) {
            if let Some(p) = self.epoch_hash_of_block(hash) {
                lemma_result_of_epoch(kept[hash]@, p);
            }
        }
    }

    /// The result for a transaction is that of the block that it is in.
    pub proof fn law_result_of_a_transaction(&self, tx_hash: H256)
        ensures
            self.data_man.transaction_addresses@.contains_key(tx_hash)
                ==> self.result_with_transaction(tx_hash) == self.execution_result(
                self.data_man.transaction_addresses@[tx_hash].block_hash,
            ),
            !self.data_man.transaction_addresses@.contains_key(tx_hash)
                ==> self.result_with_transaction(tx_hash) is None,
    {
    }

    /// In the list of all blocks each epoch stands whole, in its own order, after all the epochs before
    /// it and before all after it, and nothing else stands there.
    pub proof fn law_epochs_stand_in_order(&self, e: nat, n: nat)
        requires
            e < n <= u64::MAX,
        ensures
            ({
                let before = self.first_epochs(e);
                let own = self.epoch_hashes(e as u64)->Ok_0;
                let all = self.first_epochs(n);
                &&& before.len() + own.len() <= all.len()
                &&& forall|k: int|
                    0 <= k < own.len() ==> #[trigger] own[k] == all[before.len() + k]
                &&& self.first_epochs(0).len() == 0
                &&& n == e + 1 ==> all.len() == before.len() + own.len()
            }),
        decreases n,
    {
        if n > e + 1 {
            self.law_epochs_stand_in_order(e, (n - 1) as nat);
        }
    }

    /// The latest epoch with an executed state that is due: it is not later than five before the length
    /// of the pivot chain tells, it was executed, or is that of the era genesis, and no later one that
    /// is due was executed.
    pub proof fn law_executed_best(&self, best: int, e: int)
        requires
            self.is_executed_best(best),
        ensures
            best >= self.cur_era_genesis_height,
            best == self.cur_era_genesis_height || best + 5 <= self.cur_era_genesis_height
                + self.pivot_chain@.len(),
            best == self.cur_era_genesis_height || self.data_man.executed_epochs@.contains_key(
                self.node(self.pivot_chain@[best - self.cur_era_genesis_height]).hash,
            ),
            self.cur_era_genesis_height < e && e + 5 <= self.cur_era_genesis_height
                + self.pivot_chain@.len() && self.data_man.executed_epochs@.contains_key(
                self.node(self.pivot_chain@[e - self.cur_era_genesis_height]).hash,
            ) ==> e <= best,
    {
        if self.cur_era_genesis_height < e && e + 5 <= self.cur_era_genesis_height
            + self.pivot_chain@.len() && e > best {
            assert(!self.executed_at(e - self.cur_era_genesis_height));
        }
    }

    /// The latest epoch whose state is due is five before the height after the tip, and the first one
    /// if there are not that many.
    pub proof fn law_due_state_is_five_behind(&self)
        ensures
            ({
                let top = self.cur_era_genesis_height + self.pivot_chain@.len();
                &&& top >= 5 ==> self.best_state_epoch() + 5 == top
                &&& top < 5 ==> self.best_state_epoch() == 0
            }),
    {
    }

    /// The state block of a block that is more than a delay below the era genesis, or not below it, is the
    /// one that many steps before.
    pub proof fn law_state_block_is_steps_back(&self, hash: H256, delay: nat)
        requires
            self.hash_to_arena_indices@.contains_key(hash),
            forall|k: nat|
                k < delay ==> #[trigger] self.back(self.hash_to_arena_indices@[hash], k)
                    != self.cur_era_genesis_block_arena_index,
        ensures
            self.state_block_with_delay(hash, delay) == Ok::<H256, Seq<char>>(
                self.node(self.back(self.hash_to_arena_indices@[hash], delay)).hash,
            ),
    {
    }

    /// What is said where an epoch or a state block cannot be told.
    pub proof fn law_refusals(&self, hash: H256, delay: nat, e: u64, m: Seq<char>)
        ensures
            self.pivot_of_epoch(e) == Err::<usize, Seq<char>>(m) ==> m == (if e
                < self.cur_era_genesis_height {
                "Invalid params: epoch number is too old and not maintained by consensus graph"@
            } else {
                "Epoch number larger than the current pivot chain tip"@
            }),
            self.hash_from_epoch_number(e) == Err::<H256, Seq<char>>(m) ==> m == (if e
                >= self.cur_era_genesis_height {
                "Epoch number larger than the current pivot chain tip"@
            } else if self.data_man.epoch_sets@.contains_key(e) {
                "Epoch set is empty"@
            } else {
                "get_hash_from_epoch_number: Epoch hash set not in db, epoch_number="@ + decimal(
                    e as nat,
                )
            }),
            self.state_block_with_delay(hash, delay) == Err::<H256, Seq<char>>(m) ==> m == (
            if self.hash_to_arena_indices@.contains_key(hash) {
                "Parent is too old for computing the deferred state"@
            } else {
                "Parent hash is too old for computing the deferred state"@
            }),
            self.pivot_assumption(hash, e) is Err && self.hash_from_epoch_number(e) is Ok
                ==> self.pivot_assumption(hash, e) == Err::<(), Seq<char>>(
                "Error: pivot chain assumption failed"@,
            ),
            self.hash_from_epoch_number(e) == Err::<H256, Seq<char>>(m) ==> self.pivot_assumption(
                hash,
                e,
            ) == Err::<(), Seq<char>>(m),
    {
    }

    /// Blocks are told by their hashes, in the same order.
    pub proof fn law_hashes_in_order(&self, list: Seq<usize>)
        ensures
            self.hashes_of(list).len() == list.len(),
            forall|k: int|
                0 <= k < list.len() ==> #[trigger] self.hashes_of(list)[k] == self.node(list[k]).hash,
    {
    }

    /// A pivot assumption holds exactly of the hash that is found for the epoch.
    pub proof fn law_assumed_pivot_is_found(&self, hash: H256, e: u64)
        ensures
            self.pivot_assumption(hash, e) is Ok <==> self.hash_from_epoch_number(e) == Ok::<
                H256,
                Seq<char>,
            >(hash),
    {
    }
}

/// The result that is found for a view is one that was kept for it, and none is found exactly if none
/// was kept.
proof fn lemma_result_of_epoch(list: Seq<BlockExecutionResultWithEpoch>, p: H256)
    ensures
        match result_of_epoch(list, p) {
            Some(r) => exists|k: int|
                0 <= k < list.len() && (#[trigger] list[k]).0 == p && list[k].1 == r && forall|
                    j: int,
                |
                    0 <= j < k ==> (#[trigger] list[j]).0 != p,
            None => forall|k: int| 0 <= k < list.len() ==> (#[trigger] list[k]).0 != p,
        },
    decreases list.len(),
{
    if list.len() > 0 && list[0].0 != p {
        let rest = list.drop_first();
        lemma_result_of_epoch(rest, p);
        if result_of_epoch(list, p) is Some {
            let k = choose|k: int|
                0 <= k < rest.len() && (#[trigger] rest[k]).0 == p && Some(rest[k].1)
                    == result_of_epoch(rest, p) && forall|j: int|
                    0 <= j < k ==> (#[trigger] rest[j]).0 != p;
            assert(list[k + 1].0 == p && Some(list[k + 1].1) == result_of_epoch(list, p));
            assert forall|j: int| 0 <= j < k + 1 implies (#[trigger] list[j]).0 != p by {
                if j > 0 {
                    assert(rest[j - 1].0 != p);
                }
            }
        } else {
            assert forall|k: int| 0 <= k < list.len() implies (#[trigger] list[k]).0 != p by {
                if k > 0 {
                    assert(rest[k - 1].0 != p);
                }
            }
        }
    }
}

} // verus!
