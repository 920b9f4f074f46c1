//! What the graph answers about epochs and blocks.
use vstd::prelude::*;

use crate::block_data::{
    result_of_epoch, BlockDataManager, BlockExecutionResult, Receipt, TransactionAddress,
};
use crate::graph::ConsensusGraphInner;
use crate::lineage::{lemma_ancestor_add, lemma_ancestor_null};
use crate::node::arena_get;
use crate::past::epochs_end;
use crate::text::{append_decimal, decimal};
use crate::types::{DEFERRED_STATE_EPOCH_COUNT, H256, NULL, NULLU64};

verus! {

broadcast use vstd::std_specs::hash::group_hash_axioms;

/// What a result says, with its message as characters.
pub open spec fn outcome<T>(r: Result<T, String>) -> Result<T, Seq<char>> {
    match r {
        Ok(x) => Ok(x),
        Err(e) => Err(e@),
    }
}

/// What a result that is a list says, with its message as characters.
pub open spec fn outcome_list(r: Result<Vec<H256>, String>) -> Result<Seq<H256>, Seq<char>> {
    match r {
        Ok(x) => Ok(x@),
        Err(e) => Err(e@),
    }
}

impl ConsensusGraphInner {
    /// The hash of the tip of the pivot chain.
    pub fn best_block_hash(&self) -> (r: H256)
        requires
            self.wf(),
        ensures
            r == self.node(self.pivot_chain@.last()).hash,
    {
        let tip: usize = self.pivot_chain[self.pivot_chain.len() - 1];
        arena_get(&self.arena, tip).hash
    }

    /// Whether the epoch at a position of the pivot chain has been executed.
    pub open spec fn executed_at(&self, i: int) -> bool {
        self.data_man.executed_epochs@.contains_key(self.node(self.pivot_chain@[i]).hash)
    }

    /// Whether an epoch is the latest one with an executed state, among those whose states are due.
    /// That of the era genesis always counts.
    pub open spec fn is_executed_best(&self, epoch: int) -> bool {
        let index = epoch - self.cur_era_genesis_height;
        let due = if self.pivot_chain@.len() < DEFERRED_STATE_EPOCH_COUNT {
            0
        } else {
            self.pivot_chain@.len() - DEFERRED_STATE_EPOCH_COUNT
        };
        &&& 0 <= index <= due
        &&& index == 0 || self.executed_at(index)
        &&& forall|j: int| index < j <= due ==> !#[trigger] self.executed_at(j)
    }

    /// The latest epoch with an executed state, among those whose states are due. That of the
    /// era genesis always counts.
    pub fn executed_best_state_epoch_number(&self) -> (r: u64)
        requires
            self.wf(),
            self.cur_era_genesis_height + self.pivot_chain@.len() <= u64::MAX,
        ensures
            self.is_executed_best(r as int),
    {
        let pivot_len: usize = self.pivot_chain.len();
        let due: usize = if (pivot_len as u64) < DEFERRED_STATE_EPOCH_COUNT {
            0
        } else {
            pivot_len - DEFERRED_STATE_EPOCH_COUNT as usize
        };
        let mut index: usize = due;
        while index > 0 && !self.data_man.epoch_executed(
            &arena_get(&self.arena, self.pivot_chain[index]).hash,
        )
            invariant
                self.wf(),
                index <= due,
                due == 0 || due < self.pivot_chain@.len(),
                forall|j: int| index < j <= due ==> !#[trigger] self.executed_at(j),
            decreases index,
        {
            assert(!self.executed_at(index as int));
            index = index - 1;
        }
        assert(index == 0 || self.executed_at(index as int));
        self.pivot_index_to_height(index)
    }

    /// The latest epoch whose state is due.
    pub open spec fn best_state_epoch(&self) -> int {
        let pivot_height = self.cur_era_genesis_height + self.pivot_chain@.len();
        if pivot_height < DEFERRED_STATE_EPOCH_COUNT {
            0
        } else {
            pivot_height - DEFERRED_STATE_EPOCH_COUNT
        }
    }

    /// The latest epoch whose state is due. It may not have been executed yet.
    pub fn best_state_epoch_number(&self) -> (r: u64)
        requires
            self.cur_era_genesis_height + self.pivot_chain@.len() <= u64::MAX,
        ensures
            r == self.best_state_epoch(),
    {
        let pivot_height: u64 = self.pivot_index_to_height(self.pivot_chain.len());
        if pivot_height < DEFERRED_STATE_EPOCH_COUNT {
            0
        } else {
            pivot_height - DEFERRED_STATE_EPOCH_COUNT
        }
    }

    /// Whether the pivot block at a height is in the current era.
    pub open spec fn has_pivot_at(&self, height: int) -> bool {
        self.cur_era_genesis_height <= height && height - self.cur_era_genesis_height
            < self.pivot_chain@.len()
    }

    /// The pivot block at a height.
    pub open spec fn pivot_at(&self, height: int) -> usize {
        self.pivot_chain@[height - self.cur_era_genesis_height]
    }

    /// The pivot block of the latest epoch whose state is due.
    pub fn best_state_arena_index(&self) -> (r: usize)
        requires
            self.cur_era_genesis_height + self.pivot_chain@.len() <= u64::MAX,
            self.has_pivot_at(self.best_state_epoch()),
        ensures
            r == self.pivot_at(self.best_state_epoch()),
    {
        self.get_pivot_block_arena_index(self.best_state_epoch_number())
    }

    /// The hash of the pivot block of the latest epoch whose state is due.
    pub fn best_state_block_hash(&self) -> (r: H256)
        requires
            self.wf(),
            self.cur_era_genesis_height + self.pivot_chain@.len() <= u64::MAX,
            self.has_pivot_at(self.best_state_epoch()),
        ensures
            r == self.node(self.pivot_at(self.best_state_epoch())).hash,
    {
        let index: usize = self.best_state_arena_index();
        arena_get(&self.arena, index).hash
    }

    /// Whether the era genesis is fewer than `delay` steps before a block.
    pub open spec fn genesis_within(&self, x: usize, delay: nat) -> bool {
        exists|k: nat|
            k < delay && #[trigger] self.back(x, k) == self.cur_era_genesis_block_arena_index
    }

    /// The hash of the block `delay` steps before a block, which must be in the current era. A
    /// genesis at height zero stands for what would be before it.
    pub open spec fn state_block_with_delay(&self, hash: H256, delay: nat) -> Result<
        H256,
        Seq<char>,
    > {
        if !self.hash_to_arena_indices@.contains_key(hash) {
            Err("Parent hash is too old for computing the deferred state"@)
        } else {
            let x = self.hash_to_arena_indices@[hash];
            if !self.genesis_within(x, delay) {
                Ok(self.node(self.back(x, delay)).hash)
            } else if self.node(self.cur_era_genesis_block_arena_index).height == 0 {
                Ok(self.node(self.cur_era_genesis_block_arena_index).hash)
            } else {
                Err("Parent is too old for computing the deferred state"@)
            }
        }
    }

    /// The hash of the block `delay` steps before a block.
    pub fn get_state_block_with_delay(&self, block_hash: &H256, delay: usize) -> (r: Result<
        H256,
        String,
    >)
        requires
            self.wf(),
            self.hash_to_arena_indices@.contains_key(*block_hash) ==> self.genesis_within(
                self.hash_to_arena_indices@[*block_hash],
                delay as nat,
            ) || self.back(self.hash_to_arena_indices@[*block_hash], delay as nat) != NULL,
        ensures
            outcome(r) == self.state_block_with_delay(*block_hash, delay as nat),
    {
        let x: usize = match self.hash_to_arena_indices.get(block_hash) {
            None => {
                return Err("Parent hash is too old for computing the deferred state".to_owned());
            },
            Some(index) => *index,
        };
        let mut idx: usize = x;
        let mut i: usize = 0;
        while i < delay
            invariant
                i <= delay,
                self.wf(),
                self.hash_to_arena_indices@.contains_key(*block_hash),
                x == self.hash_to_arena_indices@[*block_hash],
                self.has(x),
                self.has(idx),
                idx == self.back(x, i as nat),
                self.genesis_within(x, delay as nat) || self.back(x, delay as nat) != NULL,
                forall|k: nat|
                    k < i ==> #[trigger] self.back(x, k) != self.cur_era_genesis_block_arena_index,
            decreases delay - i,
        {
            if idx == self.cur_era_genesis_block_arena_index {
                assert(self.genesis_within(x, delay as nat));
                if arena_get(&self.arena, idx).height == 0 {
                    return Ok(arena_get(&self.arena, idx).hash);
                } else {
                    return Err("Parent is too old for computing the deferred state".to_owned());
                }
            }
            proof {
                assert(self.nodes().contains_key(idx));
                assert(self.node(idx).parent == self.back(x, (i + 1) as nat));
                if self.node(idx).parent == NULL {
                    self.lemma_back_null(x, (i + 1) as nat, delay as nat);
                    let k = choose|k: nat|
                        k < delay && #[trigger] self.back(x, k)
                            == self.cur_era_genesis_block_arena_index;
                    if k > i {
                        self.lemma_back_null(x, (i + 1) as nat, k);
                        assert(self.nodes().contains_key(NULL));
                    }
                }
            }
            idx = arena_get(&self.arena, idx).parent;
            i = i + 1;
        }
        assert(!self.genesis_within(x, delay as nat));
        Ok(arena_get(&self.arena, idx).hash)
    }

    /// There is nothing before the first block.
    proof fn lemma_back_null(&self, x: usize, j: nat, k: nat)
        requires
            self.wf(),
            j <= k,
            self.back(x, j) == NULL,
        ensures
            self.back(x, k) == NULL,
    {
        if self.nodes().contains_key(NULL) {
            assert(self.has(NULL));
        }
        lemma_ancestor_add(self.parents(), x, j, (k - j) as nat);
        lemma_ancestor_null(self.parents(), (k - j) as nat);
    }

    /// The height of the tip of the pivot chain.
    pub fn best_epoch_number(&self) -> (r: u64)
        requires
            self.wf(),
            self.cur_era_genesis_height + self.pivot_chain@.len() <= u64::MAX,
        ensures
            r == self.cur_era_genesis_height + self.pivot_chain@.len() - 1,
    {
        self.cur_era_genesis_height + self.pivot_chain.len() as u64 - 1
    }

    /// The height of the tip of the timer chain.
    pub fn best_timer_chain_height(&self) -> (r: u64)
        requires
            self.cur_era_genesis_timer_chain_height + self.timer_chain@.len() <= u64::MAX,
            self.cur_era_genesis_timer_chain_height + self.timer_chain@.len() > 0,
        ensures
            r == self.cur_era_genesis_timer_chain_height + self.timer_chain@.len() - 1,
    {
        self.cur_era_genesis_timer_chain_height + self.timer_chain.len() as u64 - 1
    }

    /// The pivot block of an epoch that is kept here.
    pub open spec fn pivot_of_epoch(&self, epoch_number: u64) -> Result<usize, Seq<char>> {
        if epoch_number < self.cur_era_genesis_height {
            Err(
                "Invalid params: epoch number is too old and not maintained by consensus graph"@,
            )
        } else if !self.has_pivot_at(epoch_number as int) {
            Err("Epoch number larger than the current pivot chain tip"@)
        } else {
            Ok(self.pivot_at(epoch_number as int))
        }
    }

    /// The pivot block of an epoch that is kept here.
    pub fn get_arena_index_from_epoch_number(&self, epoch_number: u64) -> (r: Result<
        usize,
        String,
    >)
        ensures
            outcome(r) == self.pivot_of_epoch(epoch_number),
    {
        if epoch_number < self.cur_era_genesis_height {
            Err(
                "Invalid params: epoch number is too old and not maintained by consensus graph".to_owned(),
            )
        } else if epoch_number - self.cur_era_genesis_height >= self.pivot_chain.len() as u64 {
            Err("Epoch number larger than the current pivot chain tip".to_owned())
        } else {
            Ok(self.get_pivot_block_arena_index(epoch_number))
        }
    }

    /// The hashes of a stored epoch.
    pub open spec fn stored_epoch(&self, epoch_number: u64) -> Option<Seq<H256>> {
        if self.data_man.epoch_sets@.contains_key(epoch_number) {
            Some(self.data_man.epoch_sets@[epoch_number]@)
        } else {
            None
        }
    }

    /// The hash of the pivot block of an epoch: from the pivot chain, or for older epochs from
    /// what is stored, where it is the last block of its epoch.
    pub open spec fn hash_from_epoch_number(&self, epoch_number: u64) -> Result<H256, Seq<char>> {
        if epoch_number >= self.cur_era_genesis_height {
            if self.has_pivot_at(epoch_number as int) {
                Ok(self.node(self.pivot_at(epoch_number as int)).hash)
            } else {
                Err("Epoch number larger than the current pivot chain tip"@)
            }
        } else {
            match self.stored_epoch(epoch_number) {
                None => Err(
                    "get_hash_from_epoch_number: Epoch hash set not in db, epoch_number="@
                        + decimal(epoch_number as nat),
                ),
                Some(hashes) => if hashes.len() == 0 {
                    Err("Epoch set is empty"@)
                } else {
                    Ok(hashes.last())
                },
            }
        }
    }

    /// The hash of the pivot block of an epoch.
    pub fn get_hash_from_epoch_number(&self, epoch_number: u64) -> (r: Result<H256, String>)
        requires
            self.wf(),
        ensures
            outcome(r) == self.hash_from_epoch_number(epoch_number),
    {
        if epoch_number >= self.cur_era_genesis_height {
            if epoch_number - self.cur_era_genesis_height >= self.pivot_chain.len() as u64 {
                Err("Epoch number larger than the current pivot chain tip".to_owned())
            } else {
                let index: usize = self.get_pivot_block_arena_index(epoch_number);
                Ok(arena_get(&self.arena, index).hash)
            }
        } else {
            match self.data_man.epoch_set_hashes_from_db(epoch_number) {
                None => {
                    let mut message: String =
                        "get_hash_from_epoch_number: Epoch hash set not in db, epoch_number=".to_owned();
                    append_decimal(&mut message, epoch_number);
                    Err(message)
                },
                Some(hashes) => {
                    if hashes.len() == 0 {
                        Err("Epoch set is empty".to_owned())
                    } else {
                        Ok(hashes[hashes.len() - 1])
                    }
                },
            }
        }
    }

    /// The hashes of the blocks of an epoch in execution order: from the graph for the epochs
    /// after the era genesis, else from what is stored.
    pub open spec fn epoch_hashes(&self, epoch_number: u64) -> Result<Seq<H256>, Seq<char>> {
        match self.pivot_of_epoch(epoch_number) {
            Ok(index) => if index == self.cur_era_genesis_block_arena_index {
                match self.stored_epoch(epoch_number) {
                    Some(hashes) => Ok(hashes),
                    None => Err("Fail to load the epoch set for current era genesis in db"@),
                }
            } else {
                Ok(self.hashes_of(self.node(index).data.ordered_executable_epoch_blocks@))
            },
            Err(e) => match self.stored_epoch(epoch_number) {
                Some(hashes) => Ok(hashes),
                None => Err(
                    "Epoch set not in db epoch_number="@ + decimal(epoch_number as nat)
                        + ", in mem err=\""@ + e + "\""@,
                ),
            },
        }
    }

    /// The hashes of the blocks of an epoch in execution order.
    pub fn block_hashes_by_epoch(&self, epoch_number: u64) -> (r: Result<Vec<H256>, String>)
        requires
            self.wf(),
        ensures
            outcome_list(r) == self.epoch_hashes(epoch_number),
    {
        match self.get_arena_index_from_epoch_number(epoch_number) {
            Ok(pivot_arena_index) => {
                if pivot_arena_index == self.cur_era_genesis_block_arena_index {
                    match self.data_man.epoch_set_hashes_from_db(epoch_number) {
                        Some(hashes) => Ok(hashes),
                        None => Err(
                            "Fail to load the epoch set for current era genesis in db".to_owned(),
                        ),
                    }
                } else {
                    Ok(self.get_epoch_block_hashes(pivot_arena_index))
                }
            },
            Err(e) => {
                match self.data_man.epoch_set_hashes_from_db(epoch_number) {
                    Some(hashes) => Ok(hashes),
                    None => {
                        let mut message: String = "Epoch set not in db epoch_number=".to_owned();
                        append_decimal(&mut message, epoch_number);
                        message.append(", in mem err=\"");
                        message.append(e.as_str());
                        message.append("\"");
                        Err(message)
                    },
                }
            },
        }
    }

    /// The hash of the pivot block of an epoch, if it is on the pivot chain.
    pub open spec fn epoch_hash_of(&self, epoch_number: u64) -> Option<H256> {
        if self.has_pivot_at(epoch_number as int) {
            Some(self.node(self.pivot_at(epoch_number as int)).hash)
        } else {
            None
        }
    }

    /// The hash of the pivot block of an epoch, if it is on the pivot chain.
    pub fn epoch_hash(&self, epoch_number: u64) -> (r: Option<H256>)
        requires
            self.wf(),
        ensures
            r == self.epoch_hash_of(epoch_number),
    {
        match self.get_arena_index_from_epoch_number(epoch_number) {
            Ok(index) => Some(arena_get(&self.arena, index).hash),
            Err(_) => None,
        }
    }

    /// The epoch that a block is in, if it is in one.
    pub open spec fn epoch_of_block(&self, hash: H256) -> Option<u64> {
        if !self.hash_to_arena_indices@.contains_key(hash) {
            None
        } else {
            let epoch_number = self.node(self.hash_to_arena_indices@[hash]).data.epoch_number;
            if epoch_number == NULLU64 {
                None
            } else {
                Some(epoch_number)
            }
        }
    }

    /// The epoch that a block is in, if it is in one.
    pub fn get_block_epoch_number(&self, hash: &H256) -> (r: Option<u64>)
        requires
            self.wf(),
        ensures
            r == self.epoch_of_block(*hash),
    {
        match self.hash_to_arena_indices.get(hash) {
            None => None,
            Some(index) => {
                let epoch_number: u64 = arena_get(&self.arena, *index).data.epoch_number;
                if epoch_number == NULLU64 {
                    None
                } else {
                    Some(epoch_number)
                }
            },
        }
    }

    /// The hash of the pivot block of the epoch that a block is in.
    pub open spec fn epoch_hash_of_block(&self, hash: H256) -> Option<H256> {
        match self.epoch_of_block(hash) {
            None => None,
            Some(epoch_number) => self.epoch_hash_of(epoch_number),
        }
    }

    /// The hash of the pivot block of the epoch that a block is in.
    pub fn get_epoch_hash_for_block(&self, hash: &H256) -> (r: Option<H256>)
        requires
            self.wf(),
        ensures
            r == self.epoch_hash_of_block(*hash),
    {
        match self.get_block_epoch_number(hash) {
            None => None,
            Some(epoch_number) => self.epoch_hash(epoch_number),
        }
    }

    /// The hashes of the blocks of the first epochs, one epoch after the other.
    pub open spec fn first_epochs(&self, count: nat) -> Seq<H256>
        decreases count,
    {
        if count == 0 {
            Seq::empty()
        } else {
            self.first_epochs((count - 1) as nat) + self.epoch_hashes((count - 1) as u64)->Ok_0
        }
    }

    /// The hashes of all blocks up to the tip of the pivot chain, epoch by epoch. All epochs must
    /// be known.
    pub fn all_blocks_with_topo_order(&self) -> (r: Vec<H256>)
        requires
            self.wf(),
            self.cur_era_genesis_height + self.pivot_chain@.len() <= u64::MAX,
            forall|e: u64|
                e < self.cur_era_genesis_height + self.pivot_chain@.len()
                    ==> #[trigger] self.epoch_hashes(e) is Ok,
        ensures
            r@ == self.first_epochs(
                (self.cur_era_genesis_height + self.pivot_chain@.len()) as nat,
            ),
    {
        let epoch_number: u64 = self.best_epoch_number();
        let mut current_number: u64 = 0;
        let mut hashes: Vec<H256> = Vec::new();
        while current_number <= epoch_number
            invariant
                self.wf(),
                self.cur_era_genesis_height + self.pivot_chain@.len() <= u64::MAX,
                epoch_number == self.cur_era_genesis_height + self.pivot_chain@.len() - 1,
                forall|e: u64|
                    e < self.cur_era_genesis_height + self.pivot_chain@.len()
                        ==> #[trigger] self.epoch_hashes(e) is Ok,
                current_number <= epoch_number + 1,
                hashes@ == self.first_epochs(current_number as nat),
            decreases epoch_number + 1 - current_number,
        {
            assert(self.epoch_hashes(current_number) is Ok);
            let mut epoch_hashes: Vec<H256> = self.block_hashes_by_epoch(current_number).unwrap();
            hashes.append(&mut epoch_hashes);
            current_number = current_number + 1;
        }
        hashes
    }

    /// The result of a block in the view of the pivot chain, with the hash of the pivot block of
    /// its epoch; of a block that is not in an epoch here, the stored result.
    pub open spec fn execution_result(&self, hash: H256) -> Option<(H256, BlockExecutionResult)> {
        match self.epoch_hash_of_block(hash) {
            Some(epoch) => if !self.data_man.execution_results@.contains_key(hash) {
                None
            } else {
                match result_of_epoch(self.data_man.execution_results@[hash]@, epoch) {
                    Some(result) => Some((epoch, result)),
                    None => None,
                }
            },
            None => if self.data_man.stored_results@.contains_key(hash) {
                let stored = self.data_man.stored_results@[hash];
                Some((stored.0, stored.1))
            } else {
                None
            },
        }
    }

    /// The receipts of a block in the view of the pivot chain, and the hash of the pivot block of
    /// its epoch. Of a block that is not in an epoch here, the stored result is returned as it
    /// is.
    pub fn block_execution_results_by_hash(&self, hash: &H256) -> (r: Option<
        (H256, &BlockExecutionResult),
    >)
        requires
            self.wf(),
        ensures
            match r {
                Some(pair) => self.execution_result(*hash) == Some((pair.0, *pair.1)),
                None => self.execution_result(*hash) is None,
            },
    {
        match self.get_epoch_hash_for_block(hash) {
            Some(epoch) => {
                match self.data_man.block_execution_result_by_hash_with_epoch(hash, &epoch) {
                    Some(result) => Some((epoch, result)),
                    None => None,
                }
            },
            None => {
                match self.data_man.block_execution_result_by_hash_from_db(hash) {
                    Some(stored) => Some((stored.0, &stored.1)),
                    None => None,
                }
            },
        }
    }

    /// Whether a block is a timer block.
    pub fn is_timer_block(&self, block_hash: &H256) -> (r: Option<bool>)
        requires
            self.wf(),
        ensures
            r == (if self.hash_to_arena_indices@.contains_key(*block_hash) {
                Some(self.node(self.hash_to_arena_indices@[*block_hash]).is_timer)
            } else {
                None
            }),
    {
        match self.block_node(block_hash) {
            Some(node) => Some(node.is_timer),
            None => None,
        }
    }

    /// Whether a block is adaptive.
    pub fn is_adaptive(&self, block_hash: &H256) -> (r: Option<bool>)
        requires
            self.wf(),
        ensures
            r == (if self.hash_to_arena_indices@.contains_key(*block_hash) {
                Some(self.node(self.hash_to_arena_indices@[*block_hash]).adaptive)
            } else {
                None
            }),
    {
        match self.block_node(block_hash) {
            Some(node) => Some(node.adaptive),
            None => None,
        }
    }

    /// Whether a block is partially invalid.
    pub fn is_partial_invalid(&self, block_hash: &H256) -> (r: Option<bool>)
        requires
            self.wf(),
        ensures
            r == (if self.hash_to_arena_indices@.contains_key(*block_hash) {
                Some(self.node(self.hash_to_arena_indices@[*block_hash]).data.partial_invalid)
            } else {
                None
            }),
    {
        match self.block_node(block_hash) {
            Some(node) => Some(node.data.partial_invalid),
            None => None,
        }
    }

    /// Whether a block is pending.
    pub fn is_pending(&self, block_hash: &H256) -> (r: Option<bool>)
        requires
            self.wf(),
        ensures
            r == (if self.hash_to_arena_indices@.contains_key(*block_hash) {
                Some(self.node(self.hash_to_arena_indices@[*block_hash]).data.pending)
            } else {
                None
            }),
    {
        match self.block_node(block_hash) {
            Some(node) => Some(node.data.pending),
            None => None,
        }
    }

    /// The result of the block that a transaction is in.
    pub open spec fn result_with_transaction(&self, tx_hash: H256) -> Option<
        (H256, BlockExecutionResult),
    > {
        if self.data_man.transaction_addresses@.contains_key(tx_hash) {
            self.execution_result(self.data_man.transaction_addresses@[tx_hash].block_hash)
        } else {
            None
        }
    }

    /// The receipt of a transaction, and where the transaction is.
    pub fn get_transaction_receipt_with_address(&self, tx_hash: &H256) -> (r: Option<
        (&Receipt, TransactionAddress),
    >)
        requires
            self.wf(),
            self.result_with_transaction(*tx_hash) matches Some(pair)
                ==> self.data_man.transaction_addresses@[*tx_hash].index
                < pair.1.receipts@.len(),
        ensures
            match r {
                Some(found) => {
                    &&& self.data_man.transaction_addresses@.contains_key(*tx_hash)
                    &&& found.1 == self.data_man.transaction_addresses@[*tx_hash]
                    &&& self.result_with_transaction(*tx_hash) matches Some(pair) && *found.0
                        == pair.1.receipts@[found.1.index as int]
                },
                None => self.result_with_transaction(*tx_hash) is None,
            },
    {
        match self.data_man.transaction_address_by_hash(tx_hash) {
            None => None,
            Some(address) => {
                match self.block_execution_results_by_hash(&address.block_hash) {
                    None => None,
                    Some((_, result)) => Some((&result.receipts[address.index], address)),
                }
            },
        }
    }

    /// What the check of a pivot assumption says.
    pub open spec fn pivot_assumption(&self, pivot_hash: H256, epoch: u64) -> Result<
        (),
        Seq<char>,
    > {
        match self.hash_from_epoch_number(epoch) {
            Err(e) => Err(e),
            Ok(hash) => if hash != pivot_hash {
                Err("Error: pivot chain assumption failed"@)
            } else {
                Ok(())
            },
        }
    }

    /// Checks that a block is the pivot block of an epoch.
    pub fn check_block_pivot_assumption(&self, pivot_hash: &H256, epoch: u64) -> (r: Result<
        (),
        String,
    >)
        requires
            self.wf(),
            self.cur_era_genesis_height + self.pivot_chain@.len() <= u64::MAX,
        ensures
            outcome(r) == self.pivot_assumption(*pivot_hash, epoch),
    {
        let last_number: u64 = self.best_epoch_number();
        match self.get_hash_from_epoch_number(epoch) {
            Err(e) => Err(e),
            Ok(hash) => {
                if epoch > last_number || hash != *pivot_hash {
                    Err("Error: pivot chain assumption failed".to_owned())
                } else {
                    Ok(())
                }
            },
        }
    }

    /// The latest height at which a snapshot should be available.
    pub fn latest_snapshot_height(&self) -> (r: u64)
        ensures
            r == self.cur_era_stable_height,
    {
        self.cur_era_stable_height
    }

    /// The epoch whose state is to be synchronised.
    pub fn get_to_sync_epoch_id(&self) -> (r: H256)
        requires
            self.wf(),
            self.has_pivot_at(self.cur_era_stable_height as int),
        ensures
            r == self.node(self.pivot_at(self.cur_era_stable_height as int)).hash,
    {
        let height_to_sync: u64 = self.latest_snapshot_height();
        let index: usize = self.get_pivot_block_arena_index(height_to_sync);
        arena_get(&self.arena, index).hash
    }

    /// Whether `after` differs from `self` only in that the epoch at a position of the pivot
    /// chain has been stored.
    pub open spec fn epoch_stored(&self, pivot_index: int, after: Self) -> bool {
        let height = (self.cur_era_genesis_height + pivot_index) as u64;
        let epoch = self.node(self.pivot_chain@[pivot_index]).data.ordered_executable_epoch_blocks@;
        &&& after.data_man.epoch_sets@ == self.data_man.epoch_sets@.insert(
            height,
            after.data_man.epoch_sets@[height],
        )
        &&& after.data_man.epoch_sets@[height]@ == self.hashes_of(epoch)
        &&& after == (ConsensusGraphInner {
            data_man: BlockDataManager {
                epoch_sets: after.data_man.epoch_sets,
                ..self.data_man
            },
            ..*self
        })
    }

    /// Leaves the blocks of the epoch at a position of the pivot chain to be stored.
    pub fn persist_epoch_set_hashes(&mut self, pivot_index: usize)
        requires
            old(self).wf(),
            pivot_index < old(self).pivot_chain@.len(),
            old(self).cur_era_genesis_height + pivot_index <= u64::MAX,
        ensures
            final(self).wf(),
            old(self).epoch_stored(pivot_index as int, *final(self)),
    {
        let ghost before = *self;
        let height: u64 = self.pivot_index_to_height(pivot_index);
        let arena_index: usize = self.pivot_chain[pivot_index];
        let epoch_set_hashes: Vec<H256> = self.get_epoch_block_hashes(arena_index);
        self.data_man.insert_epoch_set_hashes_to_db(height, epoch_set_hashes);
        proof {
            assert(self.nodes() == before.nodes());
            assert forall|i: usize| #[trigger] self.has(i) implies self.node(i).data.sequence_number
                < self.sequence_number_of_block_entrance by {
                assert(before.has(i));
            }
            assert(self.hashes_wf()) by {
                assert(before.hashes_wf());
            }
        }
    }

    /// An epoch of the current era that was stored is read back as it was, also once it is no
    /// longer on the pivot chain, and storing it changes no answer about any other epoch.
    pub proof fn law_stored_epoch_is_read_back(
        &self,
        pivot_index: int,
        after: Self,
        later: Self,
        epoch_number: u64,
    )
        requires
            self.wf(),
            0 <= pivot_index < self.pivot_chain@.len(),
            self.cur_era_genesis_height + pivot_index <= u64::MAX,
            self.epoch_stored(pivot_index, after),
            self.pivot_chain@[pivot_index] != self.cur_era_genesis_block_arena_index,
            later.data_man == after.data_man,
            later.cur_era_genesis_height > self.cur_era_genesis_height + pivot_index,
        ensures
            later.epoch_hashes((self.cur_era_genesis_height + pivot_index) as u64)
                == self.epoch_hashes((self.cur_era_genesis_height + pivot_index) as u64),
            epoch_number != self.cur_era_genesis_height + pivot_index ==> after.epoch_hashes(
                epoch_number,
            ) == self.epoch_hashes(epoch_number),
    {
        assert(self.nodes() == after.nodes());
        match self.pivot_of_epoch(epoch_number) {
            Ok(index) => {
                let list = self.node(index).data.ordered_executable_epoch_blocks@;
                assert(self.hashes_of(list) =~= after.hashes_of(list));
            },
            Err(_) => {},
        }
    }

    /// A block whose epoch is on the pivot chain is in the epoch of the pivot block that the
    /// epoch number names, and the pivot assumption holds of that block alone.
    pub proof fn law_pivot_assumption(&self, hash: H256, pivot_hash: H256)
        requires
            self.wf(),
            self.epoch_hash_of_block(hash) is Some,
        ensures
            self.pivot_assumption(pivot_hash, self.epoch_of_block(hash)->Some_0) is Ok
                <==> self.epoch_hash_of_block(hash) == Some(pivot_hash),
    {
    }

    /// The hash of a tip of the pivot chain is that of the best epoch.
    pub proof fn law_best_epoch_is_tip(&self)
        requires
            self.wf(),
            self.cur_era_genesis_height + self.pivot_chain@.len() <= u64::MAX,
        ensures
            self.hash_from_epoch_number(
                (self.cur_era_genesis_height + self.pivot_chain@.len() - 1) as u64,
            ) == Ok::<H256, Seq<char>>(self.node(self.pivot_chain@.last()).hash),
    {
    }

    /// The latest epoch whose state is due is as far below the end of the pivot chain as states are
    /// deferred, or the first epoch where the chain ends before. The latest executed epoch is not
    /// after it, once the pivot chain is as long as states are deferred.
    pub proof fn law_due_state_not_behind_executed(&self, executed: int)
        requires
            self.is_executed_best(executed),
        ensures
            self.best_state_epoch() == (if self.pivot_height() > DEFERRED_STATE_EPOCH_COUNT {
                self.pivot_height() - DEFERRED_STATE_EPOCH_COUNT
            } else {
                0
            }),
            self.pivot_chain@.len() >= DEFERRED_STATE_EPOCH_COUNT ==> executed
                <= self.best_state_epoch(),
    {
    }

    /// Whether hashes lead to the blocks up to `k` steps before `x`.
    pub open spec fn line_known(&self, x: usize, k: nat) -> bool {
        forall|j: nat| #![trigger self.back(x, j)]
            j <= k ==> self.hash_to_arena_indices@.contains_key(self.node(self.back(x, j)).hash)
                && self.hash_to_arena_indices@[self.node(self.back(x, j)).hash] == self.back(x, j)
    }

    /// On the line from a block, `k` steps down from the era genesis, the era genesis is within a
    /// delay that is greater than `k` and no other.
    proof fn lemma_genesis_within(&self, x: usize, k: nat, delay: nat)
        requires
            self.wf(),
            self.heights_wf(),
            self.has(x),
            self.back(x, k) == self.cur_era_genesis_block_arena_index,
        ensures
            self.genesis_within(x, delay) <==> k < delay,
            self.node(x).height == self.node(self.cur_era_genesis_block_arena_index).height + k,
    {
        let g = self.cur_era_genesis_block_arena_index;
        assert(self.nodes().contains_key(g));
        assert(g != NULL);
        self.lemma_back_height(x, k);
        if self.genesis_within(x, delay) {
            let j = choose|j: nat| j < delay && #[trigger] self.back(x, j) == g;
            self.lemma_back_height(x, j);
        }
    }

    /// For a block `k` steps below the era genesis: without delay it is its own state block. A delay
    /// fails exactly if it leads above the era genesis and that is not at height zero. Otherwise it
    /// leads to the block that many steps before, or to the era genesis, and delays add up.
    pub proof fn law_delays_add_up(&self, hash: H256, k: nat, a: nat, b: nat)
        requires
            self.wf(),
            self.heights_wf(),
            self.hash_to_arena_indices@.contains_key(hash),
            self.back(self.hash_to_arena_indices@[hash], k)
                == self.cur_era_genesis_block_arena_index,
            self.line_known(self.hash_to_arena_indices@[hash], k),
        ensures
            ({
                let x = self.hash_to_arena_indices@[hash];
                let g = self.node(self.cur_era_genesis_block_arena_index).height;
                &&& self.state_block_with_delay(hash, 0) == Ok::<H256, Seq<char>>(hash)
                &&& self.state_block_with_delay(hash, a) is Err <==> g != 0 && a > self.node(
                    x,
                ).height - g
                &&& self.state_block_with_delay(hash, a) matches Ok(r) ==> {
                    &&& r == self.node(
                        self.back(
                            x,
                            if a <= k {
                                a
                            } else {
                                k
                            },
                        ),
                    ).hash
                    &&& self.state_block_with_delay(hash, a + b) == self.state_block_with_delay(r, b)
                }
            }),
    {
        let x = self.hash_to_arena_indices@[hash];
        let g = self.cur_era_genesis_block_arena_index;
        assert(self.has(x));
        assert(self.nodes().contains_key(g));
        assert(self.back(x, 0) == x);
        self.lemma_genesis_within(x, k, 0);
        self.lemma_genesis_within(x, k, a);
        self.lemma_genesis_within(x, k, a + b);
        let steps: nat = if a <= k {
            a
        } else {
            k
        };
        let y = self.back(x, steps);
        self.lemma_back_node(x, steps, k);
        lemma_ancestor_add(self.parents(), x, steps, (k - steps) as nat);
        self.lemma_genesis_within(y, (k - steps) as nat, b);
        lemma_ancestor_add(self.parents(), x, steps, b);
        assert(self.hash_to_arena_indices@[self.node(y).hash] == y);
    }

    /// A hash that is not in the graph has no state block, whatever the delay.
    pub proof fn law_unknown_hash_has_no_state_block(&self, hash: H256, delay: nat)
        requires
            !self.hash_to_arena_indices@.contains_key(hash),
        ensures
            self.state_block_with_delay(hash, delay) is Err,
    {
    }

    /// Whether the pivot chain starts at the era genesis and meets no block twice.
    pub open spec fn pivot_chain_from_genesis(&self) -> bool {
        &&& self.pivot_chain@.no_duplicates()
        &&& self.pivot_chain@.len() > 0
        &&& self.pivot_chain@[0] == self.cur_era_genesis_block_arena_index
    }

    /// The epoch of a pivot block after the era genesis is known: its hashes are those of the blocks
    /// that are executed with it, in that order. It ends in the pivot block, so that its last hash
    /// is the one that the epoch number leads to.
    pub proof fn law_epoch_ends_in_pivot(&self, epoch_number: u64)
        requires
            self.wf(),
            self.pivot_chain_from_genesis(),
            epochs_end(self.nodes()),
            self.cur_era_genesis_height < epoch_number,
            self.has_pivot_at(epoch_number as int),
            !self.legacy(self.pivot_at(epoch_number as int)),
        ensures
            self.epoch_hashes(epoch_number) == Ok::<Seq<H256>, Seq<char>>(
                self.hashes_of(
                    self.node(
                        self.pivot_at(epoch_number as int),
                    ).data.ordered_executable_epoch_blocks@,
                ),
            ),
            self.epoch_hashes(epoch_number)->Ok_0.len() > 0,
            self.hash_from_epoch_number(epoch_number) == Ok::<H256, Seq<char>>(
                self.epoch_hashes(epoch_number)->Ok_0.last(),
            ),
    {
        let x = self.pivot_at(epoch_number as int);
        assert(self.nodes().contains_key(
            self.pivot_chain@[epoch_number - self.cur_era_genesis_height],
        ));
        assert(x != self.cur_era_genesis_block_arena_index);
        let ordered = self.node(x).data.ordered_executable_epoch_blocks@;
        assert(self.hashes_of(ordered).last() == self.node(ordered.last()).hash);
    }

    /// Any other epoch is the one that is stored, and an error where none is.
    pub proof fn law_other_epochs_are_stored(&self, epoch_number: u64)
        requires
            self.wf(),
            self.pivot_chain_from_genesis(),
            !(self.cur_era_genesis_height < epoch_number && self.has_pivot_at(epoch_number as int)),
        ensures
            match self.stored_epoch(epoch_number) {
                Some(hashes) => self.epoch_hashes(epoch_number) == Ok::<Seq<H256>, Seq<char>>(
                    hashes,
                ),
                None => self.epoch_hashes(epoch_number) is Err,
            },
    {
    }
}

} // verus!
