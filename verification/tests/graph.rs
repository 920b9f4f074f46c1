use std::collections::HashSet;

use consensus_graph::block_data::{
    Block, BlockDataManager, BlockExecutionResult, BlockExecutionResultWithEpoch, BlockHeader,
    EpochExecutionContext, Receipt, TransactionAddress,
};
use consensus_graph::graph::{ConsensusGraphInner, ConsensusInnerConfig, ProofOfWorkConfig};
use consensus_graph::index_set::IndexSet;
use consensus_graph::node::{ConsensusGraphNodeData, ConsensusGraphPivotData};
use consensus_graph::types::{H256, NULL, NULLU64, U256};

const GENESIS: u128 = 1000;
const DIFFICULTY: u64 = 10;

fn h(n: u128) -> H256 {
    H256 { high: n, low: 2 * n + 1 }
}

fn header(hash: u128, parent: u128, height: u64, referees: &[u128]) -> BlockHeader {
    BlockHeader {
        hash: h(hash),
        parent_hash: h(parent),
        height,
        difficulty: U256::from_u64(DIFFICULTY),
        pow_quality: U256::from_u64(DIFFICULTY),
        adaptive: false,
        blame: 0,
        referee_hashes: referees.iter().map(|r| h(*r)).collect(),
        deferred_state_root: h(0),
        deferred_receipts_root: h(0),
        deferred_logs_bloom_hash: h(0),
    }
}

fn config() -> ConsensusInnerConfig {
    ConsensusInnerConfig {
        adaptive_weight_beta: 1,
        heavy_block_difficulty_ratio: 3,
        timer_chain_block_difficulty_ratio: 5,
        timer_chain_beta: 2,
        era_epoch_count: 50,
        enable_optimistic_execution: false,
        enable_state_expose: false,
    }
}

fn new_graph(inner_conf: ConsensusInnerConfig, genesis_height: u64) -> ConsensusGraphInner {
    let mut data_man = BlockDataManager::new(h(GENESIS));
    data_man.headers.insert(h(GENESIS), header(GENESIS, 0, genesis_height, &[]));
    data_man.insert_epoch_execution_context(
        h(GENESIS),
        EpochExecutionContext { start_block_number: 0 },
    );
    let pow_config =
        ProofOfWorkConfig { initial_difficulty: 30, difficulty_adjustment_epoch_period: 4 };
    ConsensusGraphInner::with_era_genesis(pow_config, data_man, inner_conf, &h(GENESIS), &h(GENESIS))
}

/// Inserts a block, hangs it into the trees and makes it active.
fn grow_header(inner: &mut ConsensusGraphInner, block: BlockHeader) -> usize {
    let parent = *inner.hash_to_arena_indices.get(&block.parent_hash).unwrap();
    let (index, _) = inner.insert(&block);
    inner.data_man.headers.insert(block.hash, block);
    inner.weight_tree.make_tree(index);
    inner.weight_tree.link(parent, index);
    inner.adaptive_tree.make_tree(index);
    inner.adaptive_tree.link(parent, index);
    inner.arena[index].data.activated = true;
    let weight = inner.block_weight(index);
    inner.weight_tree.path_apply(index, weight);
    index
}

fn grow(
    inner: &mut ConsensusGraphInner,
    hash: u128,
    parent: u128,
    height: u64,
    referees: &[u128],
) -> usize {
    grow_header(inner, header(hash, parent, height, referees))
}

/// A chain of `n` blocks on the genesis, with hashes from one on; it is the pivot chain.
fn chain(n: u64, inner_conf: ConsensusInnerConfig) -> ConsensusGraphInner {
    let mut inner = new_graph(inner_conf, 0);
    for i in 1..=n {
        let parent = if i == 1 { GENESIS } else { (i - 1) as u128 };
        let index = grow(&mut inner, i as u128, parent, i, &[]);
        inner.pivot_chain.push(index);
    }
    inner
}

/// The genesis with children 1 and 2, and 3 on 1, which refers to 2.
fn diamond() -> ConsensusGraphInner {
    let mut inner = new_graph(config(), 0);
    let a = grow(&mut inner, 1, GENESIS, 1, &[]);
    grow(&mut inner, 2, GENESIS, 1, &[]);
    let c = grow(&mut inner, 3, 1, 2, &[2]);
    inner.pivot_chain = vec![0, a, c];
    inner
}

fn set_of(items: &[usize]) -> IndexSet {
    let mut s = IndexSet::new();
    for i in items {
        s.add(*i);
    }
    s
}

fn sorted(mut items: Vec<usize>) -> Vec<usize> {
    items.sort();
    items
}

#[test]
fn first_state_holds_the_genesis() {
    let inner = new_graph(config(), 0);
    assert_eq!(inner.pivot_chain, vec![0]);
    assert_eq!(inner.timer_chain, Vec::<usize>::new());
    assert_eq!(inner.total_processed_block_count(), 1);
    assert_eq!(inner.terminal_hashes(), Vec::<H256>::new());
    assert_eq!(inner.best_block_hash(), h(GENESIS));
    assert_eq!(inner.current_difficulty, U256::from_u64(30));
    assert_eq!(inner.weight_tree.get(0), 10);
    assert_eq!(inner.adaptive_tree.get(0), 0);
    assert_eq!(inner.arena[0].data.state_valid, Some(true));
    assert_eq!(inner.arena[0].data.ordered_executable_epoch_blocks, vec![0]);
    assert_eq!(inner.arena[0].parent, NULL);
    assert!(inner.anticone_cache.get(0).unwrap().is_empty());
    assert!(inner.initial_stable_future.as_ref().unwrap().contains(0));
    assert_eq!(inner.compute_force_confirm(None), 0);
    assert_eq!(inner.get_cur_era_genesis_height(), 0);
    assert!(inner.has_room());
}

#[test]
fn fresh_node_data() {
    let data = ConsensusGraphNodeData::new(4, 9, 2);
    assert_eq!(data.epoch_number, 4);
    assert_eq!(data.sequence_number, 9);
    assert_eq!(data.active_cnt, 2);
    assert_eq!(data.force_confirm, NULL);
    assert_eq!(data.vote_valid_lca_height, NULLU64);
    assert!(data.vote_valid && !data.activated && !data.pending && !data.partial_invalid);
    assert_eq!(data.state_valid, None);
    assert!(ConsensusGraphPivotData::default().last_pivot_in_past_blocks.is_empty());
}

#[test]
fn inserted_blocks_are_found_with_their_weights() {
    let mut inner = new_graph(config(), 0);
    let (index, count) = inner.insert(&header(1, GENESIS, 1, &[]));
    assert_eq!((index, count), (1, 2));
    let node = inner.block_node(&h(1)).unwrap();
    assert_eq!(node.hash, h(1));
    assert_eq!(node.height, 1);
    assert_eq!(node.parent, 0);
    assert_eq!(node.era_block(), 0);
    assert_eq!(node.past_era_weight(), 10);
    assert_eq!(node.past_num_blocks, 1);
    assert_eq!(node.data.active_cnt, 0);
    assert!(!node.adaptive() && !node.pending() && !node.partial_invalid());
    assert_eq!(inner.arena[0].children, vec![1]);
    assert!(inner.block_node(&h(77)).is_none());
    assert_eq!(
        inner.data_man.get_epoch_execution_context(&h(1)).unwrap().start_block_number,
        1
    );
}

#[test]
fn an_epoch_is_what_a_block_adds_to_its_parent() {
    let inner = diamond();
    let data = &inner.arena[3].data;
    assert_eq!(data.blockset_in_own_view_of_epoch, vec![2]);
    assert_eq!(data.ordered_executable_epoch_blocks, vec![2, 3]);
    assert_eq!(inner.arena[3].referees, vec![2]);
    assert_eq!(inner.arena[2].referrers, vec![3]);
    // The genesis, the parent and the referee weigh ten each.
    assert_eq!(inner.arena[3].past_era_weight, 30);
    assert_eq!(inner.arena[3].past_num_blocks, 3);
    assert_eq!(inner.get_epoch_block_hashes(3), vec![h(2), h(3)]);
    assert_eq!(inner.get_epoch_start_block_number(3), 2);
    assert_eq!(inner.total_weight_in_own_epoch(&vec![1, 2], 0), 20);
}

#[test]
fn inactive_predecessors_are_counted() {
    let mut inner = diamond();
    inner.arena[3].data.activated = false;
    inner.arena[2].data.activated = false;
    let (index, _) = inner.insert(&header(4, 3, 3, &[2]));
    // The referee is in the past of the parent, but not on its line.
    assert_eq!(inner.arena[index].data.active_cnt, 2);
}

#[test]
fn referees_on_one_line_are_kept_once() {
    let inner = chain(3, config());
    let mut referees = vec![1];
    inner.insert_referee_if_not_duplicate(&mut referees, 3);
    assert_eq!(referees, vec![3]);
    inner.insert_referee_if_not_duplicate(&mut referees, 2);
    assert_eq!(referees, vec![3]);
    let inner = diamond();
    let mut referees = vec![1];
    inner.insert_referee_if_not_duplicate(&mut referees, 2);
    assert_eq!(referees, vec![1, 2]);
}

#[test]
fn blocks_of_old_eras_are_kept_if_they_are_linked() {
    let mut inner = chain(2, config());
    let before = inner.sequence_number_of_block_entrance;
    let sn = inner.insert_out_era_block(&header(50, 60, 7, &[61]), false);
    assert_eq!(sn, before);
    assert!(inner.block_node(&h(50)).is_none());
    assert_eq!(inner.old_era_block_set, vec![h(50)]);
    let sn = inner.insert_out_era_block(&header(51, 60, 7, &[1]), true);
    assert_eq!(sn, before + 1);
    let node = inner.block_node(&h(51)).unwrap();
    assert_eq!(node.parent, NULL);
    assert_eq!(node.referees, vec![1]);
    assert_eq!(node.era_block(), NULL);
    assert!(node.pending() && node.partial_invalid() && node.data.activated);
    assert_eq!(inner.old_era_block_set, vec![h(50)]);
    let index = *inner.hash_to_arena_indices.get(&h(51)).unwrap();
    assert!(inner.is_legacy_block(index));
    assert_eq!(inner.lca(index, 1), NULL);
    assert_eq!(inner.arena[1].referrers, vec![index]);
}

#[test]
fn sequence_numbers_follow_each_other() {
    let mut inner = new_graph(config(), 0);
    inner.set_initial_sequence_number(41);
    assert_eq!(inner.arena[0].data.sequence_number, 41);
    assert_eq!(inner.get_next_sequence_number(), 42);
    assert_eq!(inner.get_next_sequence_number(), 43);
}

#[test]
fn heavier_by_weight_then_by_hash() {
    let (a, b) = (h(1), h(2));
    assert!(ConsensusGraphInner::is_heavier((5, &a), (4, &b)));
    assert!(!ConsensusGraphInner::is_heavier((4, &b), (5, &a)));
    assert!(ConsensusGraphInner::is_heavier((4, &b), (4, &a)));
    assert!(!ConsensusGraphInner::is_heavier((4, &a), (4, &b)));
}

#[test]
fn lines_and_common_ancestors() {
    let inner = diamond();
    assert_eq!(inner.lca(3, 2), 0);
    assert_eq!(inner.lca(3, 1), 1);
    assert_eq!(inner.ancestor_at(3, 1), 1);
    assert_eq!(inner.ancestor_at(3, 0), 0);
    assert_eq!(inner.ancestor_at(3, 3), NULL);
    assert!(inner.is_same_era(2, 3));
    assert_eq!(inner.get_pivot_block_arena_index(2), 3);
    assert_eq!(inner.get_pivot_height(), 3);
    assert_eq!(inner.height_to_pivot_index(2), 2);
    assert_eq!(inner.pivot_index_to_height(1), 1);
}

#[test]
fn era_genesis_heights_are_multiples_of_the_era() {
    let inner = chain(1, config());
    assert_eq!(inner.get_era_genesis_height(49, 0), 0);
    assert_eq!(inner.get_era_genesis_height(50, 0), 50);
    assert_eq!(inner.get_era_genesis_height(149, 0), 100);
    assert_eq!(inner.get_era_genesis_height(149, 60), 50);
    assert_eq!(inner.get_era_genesis_height(5, 9), 0);
    let inner = chain(4, ConsensusInnerConfig { era_epoch_count: 2, ..config() });
    assert_eq!(inner.get_era_genesis_block_with_parent(3, 0), 2);
    assert_eq!(inner.get_era_genesis_block_with_parent(NULL, 0), 0);
    assert_eq!(
        (1..=4).map(|i| inner.arena[i].era_block).collect::<Vec<usize>>(),
        vec![0, 0, 2, 2]
    );
}

#[test]
fn weight_follows_the_kind_of_block() {
    let mut inner = chain(1, config());
    assert_eq!(inner.block_weight(1), 10);
    inner.arena[1].adaptive = true;
    inner.arena[1].is_heavy = true;
    assert_eq!(inner.block_weight(1), 30);
    inner.arena[1].is_heavy = false;
    assert_eq!(inner.block_weight(1), 0);
    inner.arena[1].adaptive = false;
    inner.arena[1].data.partial_invalid = true;
    assert_eq!(inner.block_weight(1), 0);
    inner.arena[1].data.partial_invalid = false;
    inner.arena[1].data.activated = false;
    assert_eq!(inner.block_weight(1), 0);
}

#[test]
fn execution_order_is_topological_and_unique() {
    let mut inner = diamond();
    grow(&mut inner, 4, 3, 3, &[]);
    assert_eq!(inner.topological_sort(&set_of(&[4, 3, 1])), vec![1, 3, 4]);
    // Of the free blocks the one with the smaller hash comes first.
    assert_eq!(inner.topological_sort(&set_of(&[2, 1, 3])), vec![1, 2, 3]);
    assert_eq!(inner.topological_sort(&set_of(&[])), Vec::<usize>::new());
}

#[test]
fn futures_are_followed_over_both_kinds_of_links() {
    let mut inner = diamond();
    grow(&mut inner, 4, 3, 3, &[]);
    assert_eq!(sorted(inner.compute_future_bitset(2).to_vec()), vec![3, 4]);
    assert_eq!(sorted(inner.compute_future_bitset(4).to_vec()), Vec::<usize>::new());
    inner.arena[4].data.activated = false;
    assert_eq!(sorted(inner.compute_future_bitset(2).to_vec()), vec![3]);
}

#[test]
fn past_sets_hold_all_that_was_before() {
    let mut inner = diamond();
    grow(&mut inner, 4, 3, 3, &[]);
    assert_eq!(sorted(inner.compute_pastset_brutal(3).to_vec()), vec![0, 1, 2, 3]);
    assert_eq!(inner.collect_blockset_in_own_view_of_epoch_brutal(0, 4), vec![]);
    assert_eq!(inner.collect_blockset_in_own_view_of_epoch_brutal(0, 3), vec![2]);
    inner.arena[3].data.blockset_in_own_view_of_epoch = vec![];
    inner.arena[3].data.ordered_executable_epoch_blocks = vec![];
    inner.arena[3].data.blockset_cleared = true;
    inner.collect_blockset_in_own_view_of_epoch(3);
    assert_eq!(inner.arena[3].data.blockset_in_own_view_of_epoch, vec![2]);
    assert_eq!(inner.arena[3].data.ordered_executable_epoch_blocks, vec![2, 3]);
    assert!(!inner.arena[3].data.blockset_cleared);
}

#[test]
fn anticone_weight_leaves_out_past_and_future() {
    let mut inner = diamond();
    let d = grow(&mut inner, 4, 3, 3, &[]);
    inner.pivot_chain.push(d);
    for (i, pivot) in [(0u64, 0usize), (1, 1), (2, 3), (3, 4)] {
        inner.set_epoch_number_in_epoch(pivot, i);
    }
    let all: HashSet<usize> = (0..5).collect();
    inner.recompute_metadata(0, all);
    // Beside block 2 there is block 1 alone.
    assert_eq!(inner.recompute_anticone_weight(2, 4), 10);
    assert_eq!(inner.recompute_anticone_weight(1, 4), 10);
    assert_eq!(inner.recompute_anticone_weight(3, 4), 0);
}

#[test]
fn subtree_weights_leave_out_the_barrier() {
    let mut inner = diamond();
    let d = grow(&mut inner, 4, 3, 3, &[]);
    let me = grow(&mut inner, 5, 4, 4, &[]);
    let weights = inner.compute_subtree_weights(me, &set_of(&[]));
    assert_eq!(&weights[..5], &[50, 30, 10, 20, 10]);
    let weights = inner.compute_subtree_weights(me, &set_of(&[2]));
    assert_eq!(weights[0], 40);
    assert_eq!(weights[1], 30);
    assert_eq!(d, 4);
}

#[test]
fn metadata_group_blocks_by_their_last_pivot_block() {
    let mut inner = diamond();
    let all: HashSet<usize> = (0..4).collect();
    inner.recompute_metadata(0, all);
    let last: Vec<u64> = (0..4).map(|i| inner.arena[i].last_pivot_in_past).collect();
    assert_eq!(last, vec![0, 1, 0, 2]);
    let sets: Vec<Vec<usize>> = inner
        .pivot_chain_metadata
        .iter()
        .map(|d| sorted(d.last_pivot_in_past_blocks.iter().cloned().collect()))
        .collect();
    assert_eq!(sets, vec![vec![0, 2], vec![1], vec![3]]);
    // With block 2 on the pivot chain, block 3 sees it last.
    inner.pivot_chain = vec![0, 2];
    let all: HashSet<usize> = (0..4).collect();
    inner.recompute_metadata(0, all);
    let last: Vec<u64> = (0..4).map(|i| inner.arena[i].last_pivot_in_past).collect();
    assert_eq!(last, vec![0, 0, 1, 1]);
}

#[test]
fn epochs_are_numbered_and_numbers_taken_back() {
    let mut inner = diamond();
    inner.set_epoch_number_in_epoch(3, 2);
    assert_eq!(inner.get_block_epoch_number(&h(2)), Some(2));
    assert_eq!(inner.get_block_epoch_number(&h(3)), Some(2));
    assert_eq!(inner.get_block_epoch_number(&h(1)), None);
    inner.set_epoch_number_in_epoch(3, 9);
    assert_eq!(inner.get_block_epoch_number(&h(2)), Some(9));
    inner.reset_epoch_number_in_epoch(3);
    assert_eq!(inner.get_block_epoch_number(&h(2)), None);
    assert_eq!(inner.get_block_epoch_number(&h(88)), None);
}

#[test]
fn pivot_chain_can_be_set_to_a_stable_block() {
    let mut inner = diamond();
    inner.pivot_chain = vec![0, 2];
    inner.arena[3].data.blockset_in_own_view_of_epoch = vec![];
    inner.arena[3].data.blockset_cleared = true;
    inner.set_pivot_to_stable(&h(3));
    assert_eq!(inner.pivot_chain, vec![0, 1, 3]);
    assert_eq!(inner.get_block_epoch_number(&h(1)), Some(1));
    assert_eq!(inner.get_block_epoch_number(&h(2)), Some(2));
    assert_eq!(inner.get_block_epoch_number(&h(3)), Some(2));
    assert_eq!(inner.arena[3].data.blockset_in_own_view_of_epoch, vec![2]);
    assert!(inner.anticone_cache.get(0).is_none());
    let sets: Vec<Vec<usize>> = inner
        .pivot_chain_metadata
        .iter()
        .map(|d| d.last_pivot_in_past_blocks.iter().cloned().collect())
        .collect();
    assert_eq!(sets, vec![vec![0], vec![1], vec![3]]);
    assert_eq!(inner.arena[3].last_pivot_in_past, 2);
}

#[test]
fn roots_can_be_split_off() {
    let mut inner = chain(3, config());
    inner.split_root(2);
    assert_eq!(inner.weight_tree.lca(3, 1), NULL);
    assert_eq!(inner.weight_tree.lca(3, 2), 2);
    assert_eq!(inner.adaptive_tree.lca(3, 1), NULL);
    assert_eq!(inner.arena[2].parent, NULL);
}

#[test]
fn best_epochs() {
    let mut inner = chain(8, config());
    assert_eq!(inner.best_epoch_number(), 8);
    assert_eq!(inner.best_block_hash(), h(8));
    assert_eq!(inner.best_state_epoch_number(), 4);
    assert_eq!(inner.best_state_arena_index(), 4);
    assert_eq!(inner.best_state_block_hash(), h(4));
    assert_eq!(inner.executed_best_state_epoch_number(), 0);
    inner.data_man.executed_epochs.insert(h(2), ());
    inner.data_man.executed_epochs.insert(h(5), ());
    assert_eq!(inner.executed_best_state_epoch_number(), 2);
    inner.data_man.executed_epochs.insert(h(4), ());
    assert_eq!(inner.executed_best_state_epoch_number(), 4);
    let inner = chain(2, config());
    assert_eq!(inner.best_state_epoch_number(), 0);
    assert_eq!(inner.executed_best_state_epoch_number(), 0);
}

#[test]
fn state_blocks_are_found_with_delay() {
    let inner = chain(4, config());
    assert_eq!(inner.get_state_block_with_delay(&h(4), 0), Ok(h(4)));
    assert_eq!(inner.get_state_block_with_delay(&h(4), 3), Ok(h(1)));
    assert_eq!(inner.get_state_block_with_delay(&h(4), 9), Ok(h(GENESIS)));
    assert_eq!(
        inner.get_state_block_with_delay(&h(99), 1),
        Err("Parent hash is too old for computing the deferred state".to_owned())
    );
    let mut inner = new_graph(config(), 100);
    grow(&mut inner, 1, GENESIS, 101, &[]);
    assert_eq!(inner.get_state_block_with_delay(&h(1), 1), Ok(h(GENESIS)));
    assert_eq!(
        inner.get_state_block_with_delay(&h(1), 2),
        Err("Parent is too old for computing the deferred state".to_owned())
    );
}

#[test]
fn epochs_are_looked_up_by_number() {
    let mut inner = new_graph(config(), 100);
    let a = grow(&mut inner, 1, GENESIS, 101, &[]);
    inner.pivot_chain.push(a);
    assert_eq!(inner.get_arena_index_from_epoch_number(101), Ok(1));
    assert_eq!(inner.get_hash_from_epoch_number(101), Ok(h(1)));
    assert_eq!(inner.epoch_hash(101), Some(h(1)));
    assert_eq!(inner.epoch_hash(102), None);
    assert_eq!(inner.epoch_hash(3), None);
    let tip = "Epoch number larger than the current pivot chain tip".to_owned();
    let old = "Invalid params: epoch number is too old and not maintained by consensus graph"
        .to_owned();
    assert_eq!(inner.get_arena_index_from_epoch_number(102), Err(tip.clone()));
    assert_eq!(inner.get_arena_index_from_epoch_number(99), Err(old.clone()));
    assert_eq!(inner.get_hash_from_epoch_number(102), Err(tip.clone()));
    assert_eq!(
        inner.get_hash_from_epoch_number(99),
        Err("get_hash_from_epoch_number: Epoch hash set not in db, epoch_number=99".to_owned())
    );
    inner.data_man.insert_epoch_set_hashes_to_db(98, vec![]);
    assert_eq!(inner.get_hash_from_epoch_number(98), Err("Epoch set is empty".to_owned()));
    inner.data_man.insert_epoch_set_hashes_to_db(97, vec![h(5), h(6)]);
    assert_eq!(inner.get_hash_from_epoch_number(97), Ok(h(6)));
    assert_eq!(inner.block_hashes_by_epoch(97), Ok(vec![h(5), h(6)]));
    assert_eq!(inner.block_hashes_by_epoch(101), Ok(vec![h(1)]));
    assert_eq!(
        inner.block_hashes_by_epoch(99),
        Err(format!("Epoch set not in db epoch_number={}, in mem err={:?}", 99, old))
    );
    assert_eq!(
        inner.block_hashes_by_epoch(250),
        Err(format!("Epoch set not in db epoch_number={}, in mem err={:?}", 250, tip))
    );
    assert_eq!(
        inner.block_hashes_by_epoch(100),
        Err("Fail to load the epoch set for current era genesis in db".to_owned())
    );
}

#[test]
fn pivot_assumptions_are_checked() {
    let inner = chain(3, config());
    assert_eq!(inner.check_block_pivot_assumption(&h(2), 2), Ok(()));
    assert_eq!(
        inner.check_block_pivot_assumption(&h(1), 2),
        Err("Error: pivot chain assumption failed".to_owned())
    );
    assert_eq!(
        inner.check_block_pivot_assumption(&h(1), 9),
        Err("Epoch number larger than the current pivot chain tip".to_owned())
    );
}

#[test]
fn stored_epochs_are_read_back() {
    let mut inner = diamond();
    inner.persist_epoch_set_hashes(0);
    inner.persist_epoch_set_hashes(2);
    assert_eq!(inner.data_man.epoch_set_hashes_from_db(2), Some(vec![h(2), h(3)]));
    assert_eq!(inner.data_man.epoch_set_hashes_from_db(1), None);
    assert_eq!(
        inner.all_blocks_with_topo_order(),
        vec![h(GENESIS), h(1), h(2), h(3)]
    );
    // Once the era has moved on, the epoch comes from what is stored.
    inner.cur_era_genesis_height = 3;
    assert_eq!(inner.block_hashes_by_epoch(2), Ok(vec![h(2), h(3)]));
    assert_eq!(inner.get_hash_from_epoch_number(2), Ok(h(3)));
}

#[test]
fn every_block_is_executed_once_and_after_what_it_links_to() {
    // Two side branches that are taken in late: 2 and 4 on the genesis, 5 on 4.
    let mut inner = new_graph(config(), 0);
    let a = grow(&mut inner, 1, GENESIS, 1, &[]);
    grow(&mut inner, 2, GENESIS, 1, &[]);
    let c = grow(&mut inner, 3, 1, 2, &[]);
    grow(&mut inner, 4, GENESIS, 1, &[]);
    grow(&mut inner, 5, 4, 2, &[2]);
    let f = grow(&mut inner, 6, 3, 3, &[5]);
    inner.pivot_chain = vec![0, a, c, f];
    assert_eq!(
        sorted(inner.arena[f].data.blockset_in_own_view_of_epoch.clone()),
        vec![2, 4, 5]
    );
    inner.persist_epoch_set_hashes(0);
    let order = inner.all_blocks_with_topo_order();
    assert_eq!(order, vec![h(GENESIS), h(1), h(3), h(2), h(4), h(5), h(6)]);
}

#[test]
fn the_best_epoch_is_that_of_the_tip() {
    let inner = chain(5, config());
    assert_eq!(
        inner.get_hash_from_epoch_number(inner.best_epoch_number()),
        Ok(inner.best_block_hash())
    );
}

#[test]
fn results_are_found_in_the_view_of_the_pivot_chain() {
    let mut inner = diamond();
    inner.set_epoch_number_in_epoch(3, 2);
    let result = |n: u8| BlockExecutionResult { receipts: vec![Receipt { bytes: vec![n] }] };
    inner.data_man.execution_results.insert(
        h(2),
        vec![
            BlockExecutionResultWithEpoch(h(1), result(1)),
            BlockExecutionResultWithEpoch(h(3), result(3)),
        ],
    );
    inner
        .data_man
        .stored_results
        .insert(h(70), BlockExecutionResultWithEpoch(h(71), result(7)));
    assert_eq!(inner.get_epoch_hash_for_block(&h(2)), Some(h(3)));
    let (epoch, found) = inner.block_execution_results_by_hash(&h(2)).unwrap();
    assert_eq!(epoch, h(3));
    assert_eq!(found.receipts[0].bytes, vec![3]);
    let (epoch, found) = inner.block_execution_results_by_hash(&h(70)).unwrap();
    assert_eq!(epoch, h(71));
    assert_eq!(found.receipts[0].bytes, vec![7]);
    assert!(inner.block_execution_results_by_hash(&h(3)).is_none());
    assert!(inner.block_execution_results_by_hash(&h(72)).is_none());
    let address = TransactionAddress { block_hash: h(2), index: 0 };
    inner.data_man.transaction_addresses.insert(h(500), address);
    let (receipt, found) = inner.get_transaction_receipt_with_address(&h(500)).unwrap();
    assert_eq!(receipt.bytes, vec![3]);
    assert_eq!(found, address);
    assert!(inner.get_transaction_receipt_with_address(&h(501)).is_none());
}

#[test]
fn blocks_are_described_by_hash() {
    let mut inner = chain(1, config());
    inner.arena[1].is_timer = true;
    inner.arena[1].data.pending = true;
    assert_eq!(inner.is_timer_block(&h(1)), Some(true));
    assert_eq!(inner.is_timer_block(&h(GENESIS)), Some(false));
    assert_eq!(inner.is_adaptive(&h(1)), Some(false));
    assert_eq!(inner.is_partial_invalid(&h(1)), Some(false));
    assert_eq!(inner.is_pending(&h(1)), Some(true));
    assert_eq!(inner.is_timer_block(&h(9)), None);
    assert_eq!(inner.is_adaptive(&h(9)), None);
    assert_eq!(inner.is_partial_invalid(&h(9)), None);
    assert_eq!(inner.is_pending(&h(9)), None);
}

#[test]
fn epoch_blocks_come_in_execution_order() {
    let mut inner = diamond();
    for n in [2u128, 3] {
        let block = Block { header: header(n, 0, 0, &[]), transactions: vec![h(100 + n)] };
        inner.data_man.blocks.insert(h(n), block);
    }
    let blocks = inner.get_executable_epoch_blocks(3);
    assert_eq!(blocks.len(), 2);
    assert_eq!(blocks[0].transactions, vec![h(102)]);
    assert_eq!(blocks[1].transactions, vec![h(103)]);
    assert_eq!(inner.epoch_block_count(&h(3)), 2);
}

#[test]
fn synchronisation_starts_at_the_stable_block() {
    let mut inner = chain(3, config());
    assert_eq!(inner.latest_snapshot_height(), 0);
    assert_eq!(inner.get_to_sync_epoch_id(), h(GENESIS));
    inner.cur_era_stable_height = 2;
    assert_eq!(inner.get_to_sync_epoch_id(), h(2));
}

#[test]
fn rewards_are_paid_twelve_epochs_later() {
    let inner = chain(14, config());
    assert_eq!(inner.get_pivot_reward_index(14), Some((2, 12)));
    assert_eq!(inner.get_pivot_reward_index(13), Some((1, 11)));
    assert_eq!(inner.get_pivot_reward_index(12), None);
    // The anticone counts at most up to the parent of the genesis of the next era.
    let inner = chain(26, ConsensusInnerConfig { era_epoch_count: 10, ..config() });
    assert_eq!(inner.arena[10].era_block, 0);
    assert_eq!(inner.arena[11].era_block, 10);
    assert_eq!(inner.get_pivot_reward_index(14), Some((2, 9)));
    assert_eq!(inner.get_pivot_reward_index(20), Some((8, 9)));
    assert_eq!(inner.get_pivot_reward_index(21), Some((9, 9)));
    // The genesis of an era is the first block of that era.
    assert_eq!(inner.get_pivot_reward_index(22), Some((10, 19)));
    assert_eq!(inner.get_pivot_reward_index(23), Some((11, 19)));
    // The distance is the lesser of ten and that to the end of the era.
    for x in 13..=26u64 {
        let (rewarded, cutoff) = inner.get_pivot_reward_index(x as usize).unwrap();
        let start = inner.arena[rewarded].height;
        let end = (start / 10 + 1) * 10 - 1;
        assert_eq!(inner.arena[cutoff].height - start, std::cmp::min(10, end - start));
    }
    // It does not matter whether the genesis of the era is the root of the graph.
    let mut inner = new_graph(ConsensusInnerConfig { era_epoch_count: 10, ..config() }, 100);
    for i in 1..=12u64 {
        let parent = if i == 1 { GENESIS } else { (i - 1) as u128 };
        grow(&mut inner, i as u128, parent, 100 + i, &[]);
    }
    assert_eq!(inner.get_pivot_reward_index(12), Some((0, 9)));
    // The chain of parents can be too short.
    let mut inner = new_graph(config(), 100);
    grow(&mut inner, 1, GENESIS, 101, &[]);
    assert_eq!(inner.get_pivot_reward_index(1), None);
}

#[test]
fn difficulty_changes_at_the_ends_of_periods() {
    let mut inner = chain(9, config());
    let target = U256::from_u64(77);
    let initial = U256::from_u64(30);
    let own = U256::from_u64(DIFFICULTY);
    assert_eq!(inner.expected_difficulty(&h(GENESIS), &target), initial);
    assert_eq!(inner.expected_difficulty(&h(3), &target), initial);
    assert_eq!(inner.expected_difficulty(&h(4), &target), target);
    assert_eq!(inner.expected_difficulty(&h(5), &target), own);
    assert_eq!(inner.expected_difficulty(&h(8), &target), target);
    inner.adjust_difficulty(0, &target);
    assert_eq!(inner.current_difficulty, initial);
    inner.adjust_difficulty(8, &target);
    assert_eq!(inner.current_difficulty, target);
    assert_eq!(inner.current_difficulty, inner.expected_difficulty(&h(8), &target));
    inner.adjust_difficulty(7, &target);
    assert_eq!(inner.current_difficulty, own);
    assert_eq!(inner.current_difficulty, inner.expected_difficulty(&h(7), &target));
}

#[test]
fn delays_add_up() {
    for genesis_height in [0u64, 100] {
        let mut inner = new_graph(config(), genesis_height);
        for i in 1..=5u64 {
            let parent = if i == 1 { GENESIS } else { (i - 1) as u128 };
            grow(&mut inner, i as u128, parent, genesis_height + i, &[]);
        }
        for n in 0..=5usize {
            let hash = if n == 0 { h(GENESIS) } else { h(n as u128) };
            assert_eq!(inner.get_state_block_with_delay(&hash, 0), Ok(hash));
            for a in 0..8usize {
                let found = inner.get_state_block_with_delay(&hash, a);
                assert_eq!(found.is_err(), genesis_height != 0 && a > n);
                if let Ok(x) = found {
                    for b in 0..8usize {
                        assert_eq!(
                            inner.get_state_block_with_delay(&hash, a + b),
                            inner.get_state_block_with_delay(&x, b)
                        );
                    }
                }
            }
        }
        for a in 0..8usize {
            assert!(inner.get_state_block_with_delay(&h(77), a).is_err());
        }
    }
}

#[test]
fn an_epoch_ends_in_its_pivot_block() {
    let inner = diamond();
    for e in 1..=inner.best_epoch_number() {
        let hashes = inner.block_hashes_by_epoch(e).unwrap();
        assert_eq!(Ok(*hashes.last().unwrap()), inner.get_hash_from_epoch_number(e));
    }
    assert_eq!(inner.block_hashes_by_epoch(2), Ok(vec![h(2), h(3)]));
}

#[test]
fn executed_states_are_not_ahead_of_due_ones() {
    let mut inner = chain(9, config());
    assert_eq!(inner.best_state_epoch_number(), inner.get_pivot_height() - 5);
    for i in 1..=9u128 {
        inner.data_man.executed_epochs.insert(h(i), ());
        assert!(inner.executed_best_state_epoch_number() <= inner.best_state_epoch_number());
    }
    assert_eq!(inner.executed_best_state_epoch_number(), 5);
}

#[test]
fn epochs_of_the_stable_chain_have_its_heights() {
    let mut inner = new_graph(config(), 100);
    let a = grow(&mut inner, 1, GENESIS, 101, &[]);
    grow(&mut inner, 2, GENESIS, 101, &[]);
    grow(&mut inner, 3, 2, 102, &[]);
    let d = grow(&mut inner, 4, 1, 102, &[3]);
    let e = grow(&mut inner, 5, 4, 103, &[]);
    inner.arena[d].data.blockset_in_own_view_of_epoch = vec![];
    inner.arena[d].data.blockset_cleared = true;
    inner.set_pivot_to_stable(&h(5));
    assert_eq!(inner.pivot_chain, vec![0, a, d, e]);
    for pivot in inner.pivot_chain.clone() {
        let height = inner.arena[pivot].height;
        assert_eq!(inner.arena[pivot].data.epoch_number, height);
        for i in inner.arena[pivot].data.blockset_in_own_view_of_epoch.clone() {
            assert_eq!(inner.arena[i].data.epoch_number, height);
        }
    }
    assert_eq!(sorted(inner.arena[d].data.blockset_in_own_view_of_epoch.clone()), vec![2, 3]);
    assert_eq!(inner.arena[2].data.epoch_number, 102);
    assert_eq!(inner.arena[3].data.epoch_number, 102);
}

#[test]
fn anticone_weight_is_that_of_the_blocks_beside() {
    // Beside block 1 stand 2 and 4; block 5 takes in 4, block 6 takes in 3.
    let mut inner = new_graph(config(), 0);
    let a = grow(&mut inner, 1, GENESIS, 1, &[]);
    grow(&mut inner, 2, GENESIS, 1, &[]);
    let c = grow(&mut inner, 3, 2, 2, &[1]);
    grow(&mut inner, 4, GENESIS, 1, &[]);
    let e = grow(&mut inner, 5, 1, 2, &[4]);
    let f = grow(&mut inner, 6, 5, 3, &[3]);
    inner.pivot_chain = vec![0, a, e, f];
    for (i, pivot) in [(0u64, 0usize), (1, a), (2, e), (3, f)] {
        inner.set_epoch_number_in_epoch(pivot, i);
    }
    let all: HashSet<usize> = (0..7).collect();
    inner.recompute_metadata(0, all);
    // Block 1 has 3, 5 and 6 in its future, so 2 and 4 are left.
    assert_eq!(inner.recompute_anticone_weight(a, f), 20);
    // Block 3 has 1 and 2 in its past and 6 in its future, so 4 and 5 are left.
    assert_eq!(inner.recompute_anticone_weight(c, f), 20);
    assert_eq!(inner.recompute_anticone_weight(2, f), 30);
    assert_eq!(inner.recompute_anticone_weight(4, f), 30);
    assert_eq!(inner.recompute_anticone_weight(e, f), 20);
    assert_eq!(inner.recompute_anticone_weight(f, f), 0);
}

#[test]
fn links_lead_both_ways() {
    let mut inner = diamond();
    grow(&mut inner, 4, 3, 3, &[2]);
    let keys: Vec<usize> = inner.arena.iter().map(|(i, _)| i).collect();
    for u in &keys {
        for v in &keys {
            let succ = inner.arena[*u].children.contains(v) || inner.arena[*u].referrers.contains(v);
            let pred = inner.arena[*v].parent == *u || inner.arena[*v].referees.contains(u);
            assert_eq!(succ, pred);
        }
    }
    for v in &keys {
        let parent = inner.arena[*v].parent;
        if parent != NULL {
            assert_eq!(inner.arena[*v].height, inner.arena[parent].height + 1);
            assert_eq!(
                inner.arena[*v].era_block,
                inner.get_era_genesis_block_with_parent(parent, 0)
            );
        }
    }
}

#[test]
fn referees_stand_for_all_blocks_that_were_added() {
    // Two lines: 1, 3 and 2, 4, 5.
    let mut inner = new_graph(config(), 0);
    grow(&mut inner, 1, GENESIS, 1, &[]);
    grow(&mut inner, 2, GENESIS, 1, &[]);
    grow(&mut inner, 3, 1, 2, &[]);
    grow(&mut inner, 4, 2, 2, &[]);
    grow(&mut inner, 5, 4, 3, &[]);
    let above = |a: usize, b: usize| inner.lca(a, b) == a;
    for first in 1..6usize {
        for second in 1..6usize {
            for third in 1..6usize {
                let mut list = vec![];
                for me in [first, second, third] {
                    inner.insert_referee_if_not_duplicate(&mut list, me);
                    let before = list.clone();
                    inner.insert_referee_if_not_duplicate(&mut list, me);
                    assert_eq!(list, before);
                }
                for x in [first, second, third] {
                    assert!(list.iter().any(|y| above(x, *y)));
                }
                for (i, x) in list.iter().enumerate() {
                    for (j, y) in list.iter().enumerate() {
                        assert!(i == j || !above(*x, *y));
                    }
                }
            }
        }
    }
}

#[test]
fn blocks_out_of_era_have_no_common_ancestor() {
    let mut inner = chain(2, config());
    inner.insert_out_era_block(&header(51, 60, 7, &[1]), false);
    let out = *inner.hash_to_arena_indices.get(&h(51)).unwrap();
    // A block that is not in the trees yet.
    let (fresh, _) = inner.insert(&header(52, 2, 3, &[]));
    assert_eq!(inner.lca(out, fresh), NULL);
    assert_eq!(inner.lca(fresh, out), NULL);
    assert_eq!(inner.lca(out, out), NULL);
    // A single referee is compared with nothing.
    let mut referees = vec![];
    inner.insert_referee_if_not_duplicate(&mut referees, fresh);
    assert_eq!(referees, vec![fresh]);
    inner.insert_referee_if_not_duplicate(&mut referees, out);
    assert_eq!(referees, vec![fresh, out]);
}
