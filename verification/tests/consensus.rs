use consensus_graph::block_data::{
    BlockDataManager, BlockHeader, EpochExecutionCommitment, EpochExecutionContext,
};
use consensus_graph::graph::{ConsensusGraphInner, ConsensusInnerConfig, ProofOfWorkConfig};
use consensus_graph::index_set::IndexSet;
use consensus_graph::keccak::compute_blame_state_root_vec_root;
use consensus_graph::types::{H256, NULL, U256};

const GENESIS: u128 = 1000;

fn h(n: u128) -> H256 {
    H256 { high: n, low: 2 * n + 1 }
}

fn header(hash: u128, parent: u128, height: u64, timer: bool) -> BlockHeader {
    BlockHeader {
        hash: h(hash),
        parent_hash: h(parent),
        height,
        difficulty: U256::from_u64(10),
        pow_quality: U256::from_u64(if timer { 50 } else { 49 }),
        adaptive: false,
        blame: 0,
        referee_hashes: vec![],
        deferred_state_root: h(100),
        deferred_receipts_root: h(200),
        deferred_logs_bloom_hash: h(300),
    }
}

fn config() -> ConsensusInnerConfig {
    ConsensusInnerConfig {
        adaptive_weight_beta: 1,
        heavy_block_difficulty_ratio: 3,
        timer_chain_block_difficulty_ratio: 5,
        timer_chain_beta: 2,
        era_epoch_count: 50,
        enable_optimistic_execution: false,
        enable_state_expose: true,
    }
}

fn new_graph(genesis_height: u64) -> ConsensusGraphInner {
    let mut data_man = BlockDataManager::new(h(GENESIS));
    data_man.headers.insert(h(GENESIS), header(GENESIS, 0, genesis_height, false));
    data_man.insert_epoch_execution_context(
        h(GENESIS),
        EpochExecutionContext { start_block_number: 0 },
    );
    let pow_config =
        ProofOfWorkConfig { initial_difficulty: 30, difficulty_adjustment_epoch_period: 4 };
    ConsensusGraphInner::with_era_genesis(pow_config, data_man, config(), &h(GENESIS), &h(GENESIS))
}

fn grow(inner: &mut ConsensusGraphInner, block: BlockHeader) -> usize {
    let parent = *inner.hash_to_arena_indices.get(&block.parent_hash).unwrap();
    let (index, _) = inner.insert(&block);
    inner.data_man.headers.insert(block.hash, block);
    inner.weight_tree.make_tree(index);
    inner.weight_tree.link(parent, index);
    inner.adaptive_tree.make_tree(index);
    inner.adaptive_tree.link(parent, index);
    inner.arena[index].data.activated = true;
    let weight = inner.block_weight(index);
    inner.weight_tree.path_apply(index, weight);
    index
}

/// A pivot chain of `n` timer blocks on the genesis.
fn timer_chain(n: u64) -> ConsensusGraphInner {
    let mut inner = new_graph(0);
    let mut last = NULL;
    for i in 1..=n {
        let parent = if i == 1 { GENESIS } else { (i - 1) as u128 };
        let index = grow(&mut inner, header(i as u128, parent, i, true));
        inner.arena[index].last_timer_block_arena_index = last;
        inner.update_timer_chain(index);
        inner.pivot_chain.push(index);
        last = index;
    }
    inner
}

/// Sets the values of the adaptive tree to what they stand for.
fn set_leads(inner: &mut ConsensusGraphInner) {
    let keys: Vec<usize> = inner.arena.iter().map(|(i, _)| i).collect();
    for i in keys {
        let parent = inner.arena[i].parent;
        if parent != NULL {
            let lead = 2 * inner.weight_tree.get(i) - inner.weight_tree.get(parent)
                + inner.block_weight(parent);
            inner.adaptive_tree.set(i, lead);
        }
    }
}

fn set_of(items: &[usize]) -> IndexSet {
    let mut s = IndexSet::new();
    for i in items {
        s.add(*i);
    }
    s
}

fn set_header(inner: &mut ConsensusGraphInner, n: u128, change: &dyn Fn(&mut BlockHeader)) {
    let old = inner.data_man.headers.get(&h(n)).unwrap();
    let mut new = header(n, 0, old.height, false);
    new.parent_hash = old.parent_hash;
    new.blame = old.blame;
    new.deferred_state_root = old.deferred_state_root;
    new.deferred_receipts_root = old.deferred_receipts_root;
    new.deferred_logs_bloom_hash = old.deferred_logs_bloom_hash;
    change(&mut new);
    inner.data_man.headers.insert(h(n), new);
}

#[test]
fn timer_blocks_reach_the_ratio() {
    let mut inner = new_graph(0);
    let a = grow(&mut inner, header(1, GENESIS, 1, true));
    let b = grow(&mut inner, header(2, GENESIS, 1, false));
    assert!(inner.arena[a].is_timer);
    assert!(!inner.arena[b].is_timer);
    assert_eq!(inner.get_timer_difficulty(a), 10);
    assert_eq!(inner.get_timer_difficulty(b), 0);
    inner.arena[a].data.partial_invalid = true;
    assert_eq!(inner.get_timer_difficulty(a), 0);
}

#[test]
fn timer_chain_grows_and_confirms() {
    let inner = timer_chain(2);
    assert_eq!(inner.timer_chain, vec![1, 2]);
    assert_eq!(inner.timer_chain_accumulative_lca, Vec::<usize>::new());
    assert_eq!(inner.compute_force_confirm(None), 0);
    let inner = timer_chain(3);
    assert_eq!(inner.timer_chain_accumulative_lca, vec![0]);
    let inner = timer_chain(4);
    assert_eq!(inner.timer_chain, vec![1, 2, 3, 4]);
    assert_eq!(inner.timer_chain_accumulative_lca, vec![0, 1]);
    // Blocks 1 and 2 are in the subtree of block 1, and two timer blocks come after them.
    assert_eq!(inner.compute_force_confirm(None), 1);
    assert_eq!(inner.get_best_timer_tick(None), 4);
    assert_eq!(inner.best_timer_chain_height(), 3);
    for i in 1..=4 {
        assert_eq!(inner.get_timer_chain_index(i), i - 1);
        assert_eq!(inner.get_timer_tick(i, None), i as u64 - 1);
    }
    assert_eq!(inner.get_timer_chain_index(0), NULL);
    let inner = timer_chain(6);
    assert_eq!(inner.timer_chain_accumulative_lca, vec![0, 1, 2, 3]);
    assert_eq!(inner.compute_force_confirm(None), 3);
}

#[test]
fn timer_chain_as_a_block_sees_it() {
    let mut inner = timer_chain(4);
    let b = grow(&mut inner, header(50, GENESIS, 1, true));
    let tuple = inner.compute_timer_chain_tuple(b, None);
    assert_eq!(tuple.0, 0);
    assert!(tuple.2.is_empty() && tuple.3.is_empty());
    assert_eq!(inner.get_best_timer_tick(Some(&tuple)), 0);
    assert_eq!(inner.get_timer_tick(4, Some(&tuple)), 0);
    assert_eq!(inner.compute_force_confirm(Some(&tuple)), 0);
    // A block that follows the timer chain sees all of it.
    let c = grow(&mut inner, header(51, 4, 5, true));
    inner.arena[c].last_timer_block_arena_index = 4;
    let tuple = inner.compute_timer_chain_tuple(c, None);
    assert_eq!(tuple.0, 4);
    assert_eq!(inner.get_timer_tick(c, Some(&tuple)), 4);
    assert_eq!(inner.compute_force_confirm(Some(&tuple)), 1);
}

#[test]
fn longer_branch_replaces_the_timer_chain() {
    let mut inner = timer_chain(4);
    let mut last = 1;
    let mut parent = 1u128;
    for i in 0..4u64 {
        let n = 60 + i as u128;
        let index = grow(&mut inner, header(n, parent, 2 + i, true));
        inner.arena[index].last_timer_block_arena_index = last;
        last = index;
        parent = n;
    }
    // The branch is 5, 6, 7, 8 on block 1; it is taken over at its tip.
    let tuple = inner.compute_timer_chain_tuple(8, None);
    assert_eq!(tuple.0, 1);
    assert_eq!(tuple.3, vec![5, 6, 7]);
    assert_eq!(tuple.2, vec![1]);
    assert_eq!(inner.compute_force_confirm(Some(&tuple)), 1);
    assert_eq!(inner.get_best_timer_tick(Some(&tuple)), 4);
    assert_eq!(inner.get_timer_tick(8, Some(&tuple)), 4);
    assert_eq!(inner.get_timer_tick(4, Some(&tuple)), 1);
    inner.update_timer_chain(8);
    assert_eq!(inner.timer_chain, vec![1, 5, 6, 7, 8]);
    // The windows are (1, 5) and (5, 6).
    assert_eq!(inner.timer_chain_accumulative_lca, vec![0, 1, 5]);
    assert_eq!(inner.compute_force_confirm(None), 5);
    assert_eq!(inner.get_timer_chain_index(2), NULL);
    assert_eq!(inner.get_timer_chain_index(8), 4);
}

#[test]
fn small_leads_call_for_adaptive_blocks() {
    let mut inner = timer_chain(6);
    set_leads(&mut inner);
    assert_eq!(inner.compute_force_confirm(None), 3);
    // The leads of blocks 4 and 5 are 30 and 20; block 6 is too young to matter.
    assert_eq!(inner.adaptive_tree.get(4), 30);
    assert_eq!(inner.adaptive_tree.get(5), 20);
    let none = set_of(&[]);
    assert!(!inner.adaptive_weight_impl(6, &none, None, None, 20));
    assert!(inner.adaptive_weight_impl(6, &none, None, None, 21));
    let (me, _) = inner.insert(&header(90, 6, 7, false));
    let weights = inner.compute_subtree_weights(me, &none);
    assert!(!inner.adaptive_weight_impl(6, &none, Some(&weights), None, 20));
    assert!(inner.adaptive_weight_impl(6, &none, Some(&weights), None, 21));
    assert!(!inner.adaptive_weight_impl_brutal(6, &weights, None, 3, 20));
    assert!(inner.adaptive_weight_impl_brutal(6, &weights, None, 3, 21));
    // A parent that does not follow the force confirmed block makes nothing adaptive.
    assert!(!inner.adaptive_weight_impl(2, &none, None, None, 1000));
}

#[test]
fn blocks_around_a_new_block_do_not_count() {
    let mut inner = timer_chain(6);
    let s = grow(&mut inner, header(80, 4, 5, false));
    set_leads(&mut inner);
    assert_eq!(inner.adaptive_tree.get(5), 10);
    assert_eq!(inner.adaptive_tree.get(4), 40);
    assert!(inner.adaptive_weight_impl(6, &set_of(&[]), None, None, 15));
    assert!(!inner.adaptive_weight_impl(6, &set_of(&[s]), None, None, 15));
    // The trees are as they were.
    assert_eq!(inner.adaptive_tree.get(5), 10);
    assert_eq!(inner.adaptive_tree.get(4), 40);
    assert_eq!(inner.weight_tree.get(4), 40);
    let around = set_of(&[s]);
    let difficulty = U256::from_u64(15);
    assert!(!inner.check_mining_adaptive_block(6, vec![], difficulty, &around));
    assert!(inner.check_mining_adaptive_block(6, vec![s], difficulty, &around));
    // The anticone is taken from the cache where it is there.
    inner.anticone_cache.update(6, &set_of(&[s]));
    assert!(!inner.check_mining_adaptive_block(6, vec![], difficulty, &set_of(&[])));
}

#[test]
fn blocks_are_judged_by_their_own_timer_chain() {
    let mut inner = timer_chain(6);
    let me = grow(&mut inner, header(90, 6, 7, false));
    inner.arena[me].last_timer_block_arena_index = 6;
    set_leads(&mut inner);
    let none = set_of(&[]);
    let tuple = inner.compute_timer_chain_tuple(me, None);
    let weights = inner.compute_subtree_weights(me, &none);
    // The leads without the block itself are 30 and 20, and its difficulty is 10.
    assert!(!inner.adaptive_weight(me, &none, Some(&weights), &tuple));
    inner.arena[me].difficulty = U256::from_u64(25);
    assert!(inner.adaptive_weight(me, &none, Some(&weights), &tuple));
}

/// A pivot chain of six blocks in which block 3 blames block 2.
fn blaming_chain() -> ConsensusGraphInner {
    let mut inner = timer_chain(6);
    set_header(&mut inner, 3, &|b| b.blame = 1);
    inner
}

#[test]
fn blame_is_counted_in_the_subtree() {
    let inner = blaming_chain();
    assert_eq!(inner.get_blame(3), 1);
    assert_eq!(inner.get_blame_with_pivot_index(2), 0);
    assert_eq!(inner.compute_blame_ratio(2, None), (4, 5));
    assert_eq!(inner.compute_blame_ratio(3, None), (0, 4));
    assert_eq!(inner.compute_blame_ratio(1, None), (0, 6));
    assert_eq!(inner.compute_blame_ratio(2, Some(1)), (1, 2));
    assert_eq!(inner.compute_blame_ratio(2, Some(0)), (0, 1));
}

#[test]
fn trusted_blocks_are_found() {
    let mut inner = blaming_chain();
    assert_eq!(inner.find_first_with_trusted_blame_starting_from(2, None), Some(3));
    assert_eq!(inner.find_first_with_trusted_blame_starting_from(1, None), Some(1));
    assert_eq!(inner.find_first_with_trusted_blame_starting_from(7, None), None);
    assert_eq!(inner.find_first_trusted_starting_from(2, None), Some(3));
    assert_eq!(inner.find_first_trusted_starting_from(1, None), Some(1));
    assert_eq!(inner.find_first_index_with_correct_state_of(0, None), Some(5));
    assert_eq!(inner.find_first_index_with_correct_state_of(2, None), None);
    assert_eq!(inner.get_trusted_blame_block(&h(1), 0), Some(h(6)));
    assert_eq!(inner.get_trusted_blame_block(&h(99), 0), None);
    inner.data_man.snapshot_blame_plus_depth = 1;
    assert_eq!(inner.get_trusted_blame_block_for_snapshot(&h(GENESIS)), Some(h(6)));
    let b = grow(&mut inner, header(70, GENESIS, 1, false));
    assert_eq!(inner.arena[b].hash, h(70));
    assert_eq!(inner.get_trusted_blame_block(&h(70), 0), None);
}

#[test]
fn two_fifths_against_are_too_many() {
    // Below block 1 stand four blocks; those that blame it number two, then one.
    let mut inner = new_graph(0);
    let a = grow(&mut inner, header(1, GENESIS, 1, false));
    inner.pivot_chain.push(a);
    for n in 2..6u128 {
        grow(&mut inner, header(n, 1, 2, false));
    }
    set_header(&mut inner, 2, &|b| b.blame = 1);
    set_header(&mut inner, 3, &|b| b.blame = 1);
    assert_eq!(inner.compute_blame_ratio(1, None), (2, 5));
    assert_eq!(inner.find_first_with_trusted_blame_starting_from(1, None), None);
    set_header(&mut inner, 3, &|b| b.blame = 0);
    assert_eq!(inner.compute_blame_ratio(1, None), (1, 5));
    assert_eq!(inner.find_first_with_trusted_blame_starting_from(1, None), Some(1));
}

#[test]
fn evaluations_are_recovered_from_blame() {
    let mut inner = timer_chain(6);
    set_header(&mut inner, 5, &|b| b.blame = 2);
    inner.recover_state_valid();
    let valid: Vec<Option<bool>> = (0..7).map(|i| inner.arena[i].data.state_valid).collect();
    assert_eq!(
        valid,
        vec![
            Some(true),
            Some(true),
            Some(true),
            Some(false),
            Some(false),
            Some(true),
            None
        ]
    );
    let mut inner = timer_chain(2);
    inner.data_man.state_boundary_height = 3;
    inner.recover_state_valid();
    assert_eq!(inner.arena[1].data.state_valid, None);
}

fn commitment(n: u128) -> EpochExecutionCommitment {
    EpochExecutionCommitment {
        state_root: h(100 + n),
        receipts_root: h(200 + n),
        logs_bloom_hash: h(300 + n),
    }
}

/// A pivot chain of six blocks with the states of the genesis and of block 1.
fn executed_chain() -> ConsensusGraphInner {
    let mut inner = timer_chain(6);
    inner.data_man.commitments.insert(h(GENESIS), commitment(0));
    inner.data_man.commitments.insert(h(1), commitment(1));
    inner
}

#[test]
fn right_headers_are_valid() {
    let mut inner = executed_chain();
    set_header(&mut inner, 6, &|b| {
        b.deferred_state_root = h(101);
        b.deferred_receipts_root = h(201);
        b.deferred_logs_bloom_hash = h(301);
    });
    assert_eq!(inner.get_deferred_state_arena_index(6), Ok(1));
    assert_eq!(inner.get_deferred_state_arena_index(3), Ok(0));
    assert_eq!(inner.compute_state_valid(6), Ok(()));
    for i in 0..7 {
        assert_eq!(inner.arena[i].data.state_valid, Some(true));
    }
    assert_eq!(
        inner.compute_blame_and_state_with_execution_result(5, &commitment(1)),
        Ok((0, h(101), h(201), h(301)))
    );
    assert_eq!(inner.exposed_states.len(), 6);
    assert_eq!(inner.exposed_states[5].block_hash, h(6));
    assert_eq!(inner.exposed_states[5].deferred_state_root, h(101));
    assert!(inner.exposed_states[5].state_valid);
}

#[test]
fn wrong_states_are_blamed() {
    let mut inner = executed_chain();
    set_header(&mut inner, 4, &|b| b.deferred_receipts_root = h(9));
    assert_eq!(inner.compute_state_valid(4), Ok(()));
    assert_eq!(inner.arena[4].data.state_valid, Some(false));
    // Block 5 still says that block 4 is right.
    assert_eq!(inner.compute_state_valid(5), Ok(()));
    assert_eq!(inner.arena[5].data.state_valid, Some(false));
    let expected = (
        2,
        compute_blame_state_root_vec_root(&vec![h(101), h(100), h(100)]),
        compute_blame_state_root_vec_root(&vec![h(201), h(200), h(200)]),
        compute_blame_state_root_vec_root(&vec![h(301), h(300), h(300)]),
    );
    assert_eq!(
        inner.compute_blame_and_state_with_execution_result(5, &commitment(1)),
        Ok(expected)
    );
    set_header(&mut inner, 6, &|b| {
        b.blame = expected.0;
        b.deferred_state_root = expected.1;
        b.deferred_receipts_root = expected.2;
        b.deferred_logs_bloom_hash = expected.3;
    });
    assert_eq!(inner.compute_state_valid_for_block(6), Ok(()));
    assert_eq!(inner.arena[6].data.state_valid, Some(true));
}

#[test]
fn blame_needs_states_in_the_era() {
    let mut inner = timer_chain(7);
    inner.data_man.commitments.insert(h(GENESIS), commitment(0));
    inner.arena[6].data.state_valid = Some(false);
    assert_eq!(
        inner.compute_blame_and_state_with_execution_result(6, &commitment(2)),
        Err("State block commitment missing".to_owned())
    );
    let mut inner = new_graph(100);
    let a = grow(&mut inner, header(1, GENESIS, 101, false));
    assert_eq!(
        inner.get_deferred_state_arena_index(a),
        Err("Parent is too old for computing the deferred state".to_owned())
    );
    inner.arena[a].data.state_valid = Some(false);
    assert_eq!(
        inner.compute_blame_and_state_with_execution_result(a, &commitment(2)),
        Err("Parent is too old for computing the deferred state".to_owned())
    );
    inner.insert_out_era_block(
        &BlockHeader { referee_hashes: vec![h(1)], ..header(40, 41, 90, false) },
        false,
    );
    let out = *inner.hash_to_arena_indices.get(&h(40)).unwrap();
    assert_eq!(
        inner.get_deferred_state_arena_index(out),
        Err("Parent is NULL, possibly out of era?".to_owned())
    );
    let mut inner = timer_chain(1);
    inner.data_man.commitments.insert(h(GENESIS), commitment(0));
    inner.arena[0].data.state_valid = Some(false);
    assert_eq!(
        inner.compute_blame_and_state_with_execution_result(0, &commitment(2)),
        Err("Failed to compute blame and state due to out of era".to_owned())
    );
}

#[test]
fn missing_commitments_are_listed_oldest_first() {
    let mut inner = timer_chain(9);
    inner.data_man.commitments.insert(h(2), commitment(2));
    assert_eq!(
        inner.collect_defer_blocks_missing_execution_commitments(9),
        Ok(vec![h(3), h(4)])
    );
    inner.data_man.state_boundary_height = 3;
    assert_eq!(
        inner.collect_defer_blocks_missing_execution_commitments(9),
        Ok(vec![h(4)])
    );
}

#[test]
fn votes_are_right_if_the_blame_is() {
    let mut inner = timer_chain(4);
    for i in 0..5 {
        inner.arena[i].data.state_valid = Some(i != 2);
    }
    // Off the pivot chain: on block 2, which is wrong, on its child, and on block 1.
    let mut on = |n: u128, parent: u128, height: u64, blame: u32| {
        let mut b = header(n, parent, height, false);
        b.blame = blame;
        grow(&mut inner, b)
    };
    let a = on(70, 2, 3, 1);
    let b = on(71, 2, 3, 0);
    let c = on(72, 70, 4, 0);
    let d = on(73, 71, 4, 0);
    let e = on(74, 1, 2, 0);
    let f = on(75, 1, 2, 1);
    assert!(inner.compute_vote_valid_for_pivot_block(a, 4));
    assert!(!inner.compute_vote_valid_for_pivot_block(b, 4));
    assert!(inner.compute_vote_valid_for_pivot_block(c, 4));
    assert!(!inner.compute_vote_valid_for_pivot_block(d, 4));
    assert!(inner.compute_vote_valid_for_pivot_block(e, 4));
    assert!(!inner.compute_vote_valid_for_pivot_block(f, 4));
    assert_eq!(inner.arena[c].data.vote_valid_lca_height, 2);
    assert_eq!(inner.arena[e].data.vote_valid_lca_height, 1);
    // Votes are kept.
    inner.arena[2].data.state_valid = Some(true);
    assert!(inner.compute_vote_valid_for_pivot_block(c, 4));
}

#[test]
fn adaptive_answers_repeat_and_grow_with_difficulty() {
    let mut inner = timer_chain(6);
    let s = grow(&mut inner, header(80, 4, 5, false));
    let t = grow(&mut inner, header(81, 5, 6, false));
    set_leads(&mut inner);
    let values = |inner: &ConsensusGraphInner| -> Vec<(i128, i128)> {
        (0..9).map(|i| (inner.weight_tree.get(i), inner.adaptive_tree.get(i))).collect()
    };
    let before = values(&inner);
    for barrier in [vec![], vec![s], vec![t], vec![s, t]] {
        let barrier = set_of(&barrier);
        let mut last = false;
        for difficulty in 0..60 {
            let first = inner.adaptive_weight_impl(6, &barrier, None, None, difficulty);
            assert_eq!(inner.adaptive_weight_impl(6, &barrier, None, None, difficulty), first);
            assert!(first || !last);
            last = first;
        }
        assert!(last);
        assert_eq!(values(&inner), before);
    }
}

#[test]
fn both_ways_to_weigh_agree() {
    let mut inner = timer_chain(6);
    let s = grow(&mut inner, header(80, 4, 5, false));
    let t = grow(&mut inner, header(81, 5, 6, false));
    grow(&mut inner, header(82, 80, 6, false));
    set_leads(&mut inner);
    let (me, _) = inner.insert(&header(90, 6, 7, false));
    for barrier in [vec![], vec![s], vec![t], vec![s, t]] {
        let barrier = set_of(&barrier);
        let weights = inner.compute_subtree_weights(me, &barrier);
        for difficulty in 0..60 {
            assert_eq!(
                inner.adaptive_weight_impl(6, &barrier, Some(&weights), None, difficulty),
                inner.adaptive_weight_impl(6, &barrier, None, None, difficulty)
            );
        }
    }
    let weights = inner.compute_subtree_weights(me, &set_of(&[s, t]));
    assert_eq!(&weights[..7], &[70, 60, 50, 40, 30, 20, 10]);
}

#[test]
fn the_order_of_referees_does_not_matter() {
    let mut inner = timer_chain(6);
    let s = grow(&mut inner, header(80, 4, 5, false));
    let t = grow(&mut inner, header(81, 5, 6, false));
    set_leads(&mut inner);
    let around = set_of(&[s, t]);
    for d in 0..60u64 {
        let difficulty = U256::from_u64(d);
        let one = inner.check_mining_adaptive_block(6, vec![s, t], difficulty, &around);
        let other = inner.check_mining_adaptive_block(6, vec![t, s, t, s], difficulty, &around);
        assert_eq!(one, other);
    }
}

#[test]
fn states_are_evaluated_once() {
    let mut inner = executed_chain();
    assert_eq!(inner.compute_state_valid(3), Ok(()));
    inner.arena[2].data.state_valid = Some(false);
    assert_eq!(inner.compute_state_valid(5), Ok(()));
    assert_eq!(inner.arena[2].data.state_valid, Some(false));
    let valid: Vec<Option<bool>> = (0..7).map(|i| inner.arena[i].data.state_valid).collect();
    assert!(valid[..6].iter().all(|v| v.is_some()));
    assert_eq!(valid[6], None);
    let exposed = inner.exposed_states.len();
    assert_eq!(inner.compute_state_valid(5), Ok(()));
    assert_eq!(inner.compute_state_valid(4), Ok(()));
    let again: Vec<Option<bool>> = (0..7).map(|i| inner.arena[i].data.state_valid).collect();
    assert_eq!(again, valid);
    assert_eq!(inner.exposed_states.len(), exposed);
}

#[test]
fn force_confirmed_block_is_the_highest() {
    // A confirmed block is above all timer blocks of a window of two that two more follow.
    let inner = timer_chain(6);
    let fc = inner.compute_force_confirm(None);
    let mut highest = 0;
    for x in 0..7usize {
        let height = inner.arena[x].height;
        for end in 2..=inner.timer_chain.len() - 2 {
            let window = &inner.timer_chain[end - 2..end];
            if window.iter().all(|t| inner.ancestor_at(*t, height) == x) && height > highest {
                highest = height;
            }
        }
    }
    assert_eq!(inner.arena[fc].height, highest);
    let heights: Vec<u64> =
        inner.timer_chain_accumulative_lca.iter().map(|i| inner.arena[*i].height).collect();
    assert_eq!(heights, vec![0, 1, 2, 3]);
}

#[test]
fn only_the_uppermost_blocks_are_barriers() {
    let mut inner = timer_chain(6);
    let s = grow(&mut inner, header(80, 4, 5, false));
    let below = grow(&mut inner, header(82, 80, 6, false));
    set_leads(&mut inner);
    // Without the subtree of the uppermost block the leads are 30 and 20.
    let around = set_of(&[s, below]);
    for d in 0..60u64 {
        let answer = inner.check_mining_adaptive_block(6, vec![], U256::from_u64(d), &around);
        assert_eq!(answer, inner.adaptive_weight_impl(6, &set_of(&[s]), None, None, d as i128));
        assert_eq!(answer, d > 20);
    }
}

#[test]
fn timer_chain_can_take_a_block_that_is_not_in_the_trees() {
    let mut inner = timer_chain(4);
    let (me, _) = inner.insert(&header(5, 4, 5, true));
    inner.arena[me].last_timer_block_arena_index = 4;
    inner.update_timer_chain(me);
    assert_eq!(inner.timer_chain, vec![1, 2, 3, 4, 5]);
    assert_eq!(inner.timer_chain_accumulative_lca, vec![0, 1, 2]);
    // The last one is the lowest common ancestor of the window (2, 3), which two blocks follow.
    assert_eq!(inner.compute_force_confirm(None), inner.lca(2, 3));
}
