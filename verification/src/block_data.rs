//! Block data as the consensus graph reads and writes it.
use std::collections::HashMap;

use vstd::prelude::*;

use crate::hash_map::H256Map;
use crate::types::{H256, U256};

verus! {

broadcast use vstd::std_specs::hash::group_hash_axioms;

/// The fields of a block header that consensus depends on.
pub struct BlockHeader {
    pub hash: H256,
    pub parent_hash: H256,
    pub height: u64,
    pub difficulty: U256,
    /// The difficulty that the proof of work of the block would have met.
    pub pow_quality: U256,
    pub adaptive: bool,
    /// How many blocks before this one on the chain of parents are blamed for a wrong state.
    pub blame: u32,
    pub referee_hashes: Vec<H256>,
    pub deferred_state_root: H256,
    pub deferred_receipts_root: H256,
    pub deferred_logs_bloom_hash: H256,
}

/// A block: its header and its transactions, by their hashes.
pub struct Block {
    pub header: BlockHeader,
    pub transactions: Vec<H256>,
}

/// Where the execution of an epoch starts.
#[derive(Clone, Copy)]
pub struct EpochExecutionContext {
    pub start_block_number: u64,
}

/// What the execution of an epoch is committed to.
#[derive(Clone, Copy)]
pub struct EpochExecutionCommitment {
    /// The hash of the state root.
    pub state_root: H256,
    pub receipts_root: H256,
    pub logs_bloom_hash: H256,
}

/// An encoded transaction receipt.
pub struct Receipt {
    pub bytes: Vec<u8>,
}

/// The receipts of a block.
pub struct BlockExecutionResult {
    pub receipts: Vec<Receipt>,
}

/// The result of executing a block in the epoch of a pivot block.
pub struct BlockExecutionResultWithEpoch(pub H256, pub BlockExecutionResult);

/// The position of a transaction: its block, and its place in the block.
#[derive(Clone, Copy, PartialEq, Eq, Structural, Debug)]
pub struct TransactionAddress {
    pub block_hash: H256,
    pub index: usize,
}

/// What is known of the blocks outside the graph. The graph looks headers, commitments and
/// stored epochs up here and leaves here what is to be persisted; filling it from storage and
/// writing it back is up to its owner.
pub struct BlockDataManager {
    pub headers: H256Map<BlockHeader>,
    pub blocks: H256Map<Block>,
    pub execution_contexts: H256Map<EpochExecutionContext>,
    /// The pivot blocks whose epochs have been executed.
    pub executed_epochs: H256Map<()>,
    pub epoch_sets: HashMap<u64, Vec<H256>>,
    pub commitments: H256Map<EpochExecutionCommitment>,
    /// The results of each block, one for each epoch that it was executed in.
    pub execution_results: H256Map<Vec<BlockExecutionResultWithEpoch>>,
    /// The results that are in storage.
    pub stored_results: H256Map<BlockExecutionResultWithEpoch>,
    pub transaction_addresses: H256Map<TransactionAddress>,
    /// States below this height are not available.
    pub state_boundary_height: u64,
    pub snapshot_blame_plus_depth: usize,
    pub cur_consensus_era_genesis_hash: H256,
}

/// The first result that belongs to the epoch of `epoch`.
pub open spec fn result_of_epoch(
    results: Seq<BlockExecutionResultWithEpoch>,
    epoch: H256,
) -> Option<BlockExecutionResult>
    decreases results.len(),
{
    if results.len() == 0 {
        None
    } else if results[0].0 == epoch {
        Some(results[0].1)
    } else {
        result_of_epoch(results.drop_first(), epoch)
    }
}

impl BlockDataManager {
    pub open spec fn wf(&self) -> bool {
        &&& self.headers.wf()
        &&& self.blocks.wf()
        &&& self.execution_contexts.wf()
        &&& self.executed_epochs.wf()
        &&& self.commitments.wf()
        &&& self.execution_results.wf()
        &&& self.stored_results.wf()
        &&& self.transaction_addresses.wf()
    }

    /// An empty store.
    pub fn new(cur_consensus_era_genesis_hash: H256) -> (r: Self)
        ensures
            r.wf(),
            r.headers@ == Map::<H256, BlockHeader>::empty(),
            r.blocks@ == Map::<H256, Block>::empty(),
            r.execution_contexts@ == Map::<H256, EpochExecutionContext>::empty(),
            r.executed_epochs@ == Map::<H256, ()>::empty(),
            r.epoch_sets@ == Map::<u64, Vec<H256>>::empty(),
            r.commitments@ == Map::<H256, EpochExecutionCommitment>::empty(),
            r.execution_results@ == Map::<H256, Vec<BlockExecutionResultWithEpoch>>::empty(),
            r.stored_results@ == Map::<H256, BlockExecutionResultWithEpoch>::empty(),
            r.transaction_addresses@ == Map::<H256, TransactionAddress>::empty(),
            r.state_boundary_height == 0,
            r.snapshot_blame_plus_depth == 0,
            r.cur_consensus_era_genesis_hash == cur_consensus_era_genesis_hash,
    {
        BlockDataManager {
            headers: H256Map::new(),
            blocks: H256Map::new(),
            execution_contexts: H256Map::new(),
            executed_epochs: H256Map::new(),
            epoch_sets: HashMap::new(),
            commitments: H256Map::new(),
            execution_results: H256Map::new(),
            stored_results: H256Map::new(),
            transaction_addresses: H256Map::new(),
            state_boundary_height: 0,
            snapshot_blame_plus_depth: 0,
            cur_consensus_era_genesis_hash,
        }
    }

    pub fn block_header_by_hash(&self, hash: &H256) -> (r: Option<&BlockHeader>)
        requires
            self.wf(),
        ensures
            match r {
                Some(h) => self.headers@.contains_key(*hash) && *h == self.headers@[*hash],
                None => !self.headers@.contains_key(*hash),
            },
    {
        self.headers.get(hash)
    }

    pub fn block_by_hash(&self, hash: &H256) -> (r: Option<&Block>)
        requires
            self.wf(),
        ensures
            match r {
                Some(b) => self.blocks@.contains_key(*hash) && *b == self.blocks@[*hash],
                None => !self.blocks@.contains_key(*hash),
            },
    {
        self.blocks.get(hash)
    }

    pub fn get_epoch_execution_context(&self, hash: &H256) -> (r: Option<EpochExecutionContext>)
        requires
            self.wf(),
        ensures
            match r {
                Some(c) => self.execution_contexts@.contains_key(*hash) && c
                    == self.execution_contexts@[*hash],
                None => !self.execution_contexts@.contains_key(*hash),
            },
    {
        match self.execution_contexts.get(hash) {
            Some(c) => Some(*c),
            None => None,
        }
    }

    pub fn insert_epoch_execution_context(&mut self, hash: H256, context: EpochExecutionContext)
        requires
            old(self).wf(),
            old(self).execution_contexts@.len() < usize::MAX,
        ensures
            final(self).wf(),
            final(self).execution_contexts@ == old(self).execution_contexts@.insert(hash, context),
            *final(self) == (BlockDataManager {
                execution_contexts: final(self).execution_contexts,
                ..*old(self)
            }),
    {
        self.execution_contexts.insert(hash, context);
    }

    pub fn epoch_executed(&self, hash: &H256) -> (r: bool)
        requires
            self.wf(),
        ensures
            r == self.executed_epochs@.contains_key(*hash),
    {
        self.executed_epochs.contains_key(hash)
    }

    /// The hashes of the blocks of a stored epoch.
    pub fn epoch_set_hashes_from_db(&self, epoch_number: u64) -> (r: Option<Vec<H256>>)
        ensures
            match r {
                Some(v) => self.epoch_sets@.contains_key(epoch_number) && v@
                    == self.epoch_sets@[epoch_number]@,
                None => !self.epoch_sets@.contains_key(epoch_number),
            },
    {
        match self.epoch_sets.get(&epoch_number) {
            Some(v) => Some(copy_hashes(v)),
            None => None,
        }
    }

    pub fn insert_epoch_set_hashes_to_db(&mut self, epoch_number: u64, hashes: Vec<H256>)
        ensures
            final(self).epoch_sets@ == old(self).epoch_sets@.insert(epoch_number, hashes),
            *final(self) == (BlockDataManager {
                epoch_sets: final(self).epoch_sets,
                ..*old(self)
            }),
    {
        self.epoch_sets.insert(epoch_number, hashes);
    }

    pub fn get_epoch_execution_commitment(&self, hash: &H256) -> (r: Option<
        EpochExecutionCommitment,
    >)
        requires
            self.wf(),
        ensures
            match r {
                Some(c) => self.commitments@.contains_key(*hash) && c == self.commitments@[*hash],
                None => !self.commitments@.contains_key(*hash),
            },
    {
        match self.commitments.get(hash) {
            Some(c) => Some(*c),
            None => None,
        }
    }

    /// The result of `hash` when it was executed in the epoch of `epoch`.
    pub fn block_execution_result_by_hash_with_epoch(&self, hash: &H256, epoch: &H256) -> (r:
        Option<&BlockExecutionResult>)
        requires
            self.wf(),
        ensures
            match r {
                Some(x) => self.execution_results@.contains_key(*hash) && result_of_epoch(
                    self.execution_results@[*hash]@,
                    *epoch,
                ) == Some(*x),
                None => self.execution_results@.contains_key(*hash) ==> result_of_epoch(
                    self.execution_results@[*hash]@,
                    *epoch,
                ) is None,
            },
    {
        match self.execution_results.get(hash) {
            None => None,
            Some(results) => {
                let mut i: usize = 0;
                assert(results@.skip(0) =~= results@);
                while i < results.len()
                    invariant
                        i <= results.len(),
                        result_of_epoch(results@.skip(i as int), *epoch) == result_of_epoch(
                            results@,
                            *epoch,
                        ),
                        self.execution_results@.contains_key(*hash),
                        *results == self.execution_results@[*hash],
                    decreases results.len() - i,
                {
                    if results[i].0 == *epoch {
                        return Some(&results[i].1);
                    }
                    assert(results@.skip(i as int).drop_first() =~= results@.skip(i + 1));
                    i = i + 1;
                }
                None
            },
        }
    }

    pub fn block_execution_result_by_hash_from_db(&self, hash: &H256) -> (r: Option<
        &BlockExecutionResultWithEpoch,
    >)
        requires
            self.wf(),
        ensures
            match r {
                Some(x) => self.stored_results@.contains_key(*hash) && *x
                    == self.stored_results@[*hash],
                None => !self.stored_results@.contains_key(*hash),
            },
    {
        self.stored_results.get(hash)
    }

    pub fn transaction_address_by_hash(&self, hash: &H256) -> (r: Option<TransactionAddress>)
        requires
            self.wf(),
        ensures
            match r {
                Some(a) => self.transaction_addresses@.contains_key(*hash) && a
                    == self.transaction_addresses@[*hash],
                None => !self.transaction_addresses@.contains_key(*hash),
            },
    {
        match self.transaction_addresses.get(hash) {
            Some(a) => Some(*a),
            None => None,
        }
    }
}

/// A copy of a list of hashes.
pub fn copy_hashes(hashes: &Vec<H256>) -> (r: Vec<H256>)
    ensures
        r@ == hashes@,
{
    let mut r: Vec<H256> = Vec::new();
    let mut i: usize = 0;
    while i < hashes.len()
        invariant
            i <= hashes.len(),
            r@ == hashes@.take(i as int),
        decreases hashes.len() - i,
    {
        r.push(hashes[i]);
        assert(hashes@.take(i + 1) =~= hashes@.take(i as int).push(hashes@[i as int]));
        i = i + 1;
    }
    assert(hashes@.take(i as int) =~= hashes@);
    r
}

/// A copy of a list of indices.
pub fn copy_indices(indices: &Vec<usize>) -> (r: Vec<usize>)
    ensures
        r@ == indices@,
{
    let mut r: Vec<usize> = Vec::new();
    let mut i: usize = 0;
    while i < indices.len()
        invariant
            i <= indices.len(),
            r@ == indices@.take(i as int),
        decreases indices.len() - i,
    {
        r.push(indices[i]);
        assert(indices@.take(i + 1) =~= indices@.take(i as int).push(indices@[i as int]));
        i = i + 1;
    }
    assert(indices@.take(i as int) =~= indices@);
    r
}

} // verus!
