use consensus_graph::caches::{AnticoneCache, PastSetCache};
use consensus_graph::hash_map::H256Map;
use consensus_graph::index_set::IndexSet;
use consensus_graph::keccak::{compute_blame_state_root_vec_root, keccak};
use consensus_graph::text::append_decimal;
use consensus_graph::tree::LinkCutTree;
use consensus_graph::types::{H256, NULL, U256};

fn h(n: u128) -> H256 {
    H256 { high: 0, low: n }
}

fn digest(bytes: &[u8]) -> H256 {
    let d = keccak_hash::keccak(bytes);
    H256::from_bytes(&d.as_bytes().to_vec())
}

fn set_of(items: &[usize]) -> IndexSet {
    let mut s = IndexSet::new();
    for i in items {
        s.add(*i);
    }
    s
}

#[test]
fn hashes_are_ordered_as_numbers() {
    assert!(H256 { high: 1, low: 0 }.is_greater(&H256 { high: 0, low: u128::MAX }));
    assert!(h(2).is_greater(&h(1)));
    assert!(!h(1).is_greater(&h(1)));
    assert_eq!(H256::zero(), h(0));
}

#[test]
fn hash_bytes_round_trip() {
    let x = H256 { high: 0x0102_0304_0506_0708_090a_0b0c_0d0e_0f10, low: 0x1112 };
    let mut bytes = vec![0xffu8];
    x.append_bytes(&mut bytes);
    assert_eq!(bytes.len(), 33);
    assert_eq!(bytes[0], 0xff);
    assert_eq!(&bytes[1..4], &[1, 2, 3]);
    assert_eq!(&bytes[31..33], &[0x11, 0x12]);
    assert_eq!(H256::from_bytes(&bytes[1..33].to_vec()), x);
}

#[test]
fn wide_products_are_not_truncated() {
    let max = U256 { high: u128::MAX, low: u128::MAX };
    assert!(max.is_at_least_times(1, &max));
    assert!(!max.is_at_least_times(2, &max));
    assert!(U256::from_u64(500).is_at_least_times(5, &U256::from_u64(100)));
    assert!(!U256::from_u64(499).is_at_least_times(5, &U256::from_u64(100)));
    assert!(U256 { high: 1, low: 0 }.is_at_least_times(2, &U256 { high: 0, low: 1u128 << 127 }));
    assert!(!U256 { high: 0, low: u128::MAX }
        .is_at_least_times(2, &U256 { high: 0, low: 1u128 << 127 }));
    assert_eq!(U256 { high: 7, low: 9 }.low_u128(), 9);
}

#[test]
fn keccak_of_nothing_is_known() {
    let expected = H256 {
        high: 0xc5d2460186f7233c927e7db2dcc703c0,
        low: 0xe500b653ca82273b7bfad8045d85a470,
    };
    assert_eq!(keccak(&vec![]), expected);
    assert_eq!(keccak(&vec![1, 2, 3]), digest(&[1, 2, 3]));
}

#[test]
fn root_of_roots_hashes_their_bytes() {
    let mut bytes: Vec<u8> = Vec::new();
    h(3).append_bytes(&mut bytes);
    h(4).append_bytes(&mut bytes);
    assert_eq!(bytes.len(), 64);
    assert_eq!(compute_blame_state_root_vec_root(&vec![h(3), h(4)]), digest(&bytes));
    assert_ne!(
        compute_blame_state_root_vec_root(&vec![h(3), h(4)]),
        compute_blame_state_root_vec_root(&vec![h(4), h(3)])
    );
}

#[test]
fn numbers_are_written_in_decimal() {
    let mut text = String::from("n=");
    append_decimal(&mut text, 0);
    assert_eq!(text, "n=0");
    let mut text = String::new();
    append_decimal(&mut text, 1234567890);
    assert_eq!(text, "1234567890");
    let mut text = String::new();
    append_decimal(&mut text, u64::MAX);
    assert_eq!(text, u64::MAX.to_string());
}

#[test]
fn hash_map_tells_colliding_hashes_apart() {
    let mut map: H256Map<u32> = H256Map::new();
    for i in 0..40u128 {
        map.insert(H256 { high: i, low: 7 }, i as u32);
    }
    map.insert(H256 { high: 3, low: 7 }, 99);
    assert_eq!(map.len(), 40);
    assert_eq!(map.get(&H256 { high: 3, low: 7 }), Some(&99));
    assert_eq!(map.get(&H256 { high: 39, low: 7 }), Some(&39));
    assert_eq!(map.get(&H256 { high: 40, low: 7 }), None);
    assert!(map.contains_key(&H256 { high: 0, low: 7 }));
    assert!(!map.contains_key(&H256 { high: 0, low: 8 }));
}

#[test]
fn index_sets_hold_what_was_added() {
    let mut a = set_of(&[5, 1, 300]);
    assert!(a.contains(5));
    assert!(!a.contains(6));
    a.remove(5);
    a.remove(6);
    assert!(!a.contains(5));
    a.union_with(&set_of(&[2, 300]));
    let mut items = a.to_vec();
    items.sort();
    assert_eq!(items, vec![1, 2, 300]);
    let b = a.copy();
    a.add(9);
    assert!(a.contains(9));
    assert!(!b.contains(9));
    assert!(b.contains(300));
    assert_eq!(IndexSet::new().to_vec(), Vec::<usize>::new());
}

#[test]
fn caches_give_back_what_they_got() {
    let mut anticones = AnticoneCache::new();
    assert!(anticones.get(4).is_none());
    anticones.update(4, &set_of(&[1, 2]));
    let mut items = anticones.get(4).unwrap().clone();
    items.sort();
    assert_eq!(items, vec![1, 2]);
    let mut pasts = PastSetCache::new();
    assert!(pasts.get(3).is_none());
    pasts.update(3, set_of(&[8]));
    assert!(pasts.get(3).unwrap().contains(8));
    assert!(!pasts.get(3).unwrap().contains(9));
}

/// A root with two branches: 0 - 1 - 2 - 3, and 4 and 5 below 1.
fn small_tree() -> LinkCutTree {
    let mut t = LinkCutTree::new();
    for i in 0..6 {
        t.make_tree(i);
    }
    t.link(0, 1);
    t.link(1, 2);
    t.link(2, 3);
    t.link(1, 4);
    t.link(1, 5);
    t
}

#[test]
fn tree_answers_ancestors() {
    let t = small_tree();
    assert_eq!(t.lca(3, 4), 1);
    assert_eq!(t.lca(3, 2), 2);
    assert_eq!(t.lca(3, 3), 3);
    assert_eq!(t.ancestor_at(3, 0), 0);
    assert_eq!(t.ancestor_at(3, 2), 2);
    assert_eq!(t.ancestor_at(3, 4), NULL);
    assert!(t.is_on_path(1, 3));
    assert!(!t.is_on_path(4, 3));
}

#[test]
fn tree_applies_to_paths_and_what_hangs_on_them() {
    let mut t = small_tree();
    t.path_apply(2, 10);
    assert_eq!((0..6).map(|i| t.get(i)).collect::<Vec<i128>>(), vec![10, 10, 10, 0, 0, 0]);
    t.caterpillar_apply(1, 1);
    assert_eq!((0..6).map(|i| t.get(i)).collect::<Vec<i128>>(), vec![10, 11, 11, 0, 1, 1]);
    t.set(3, -7);
    assert_eq!(t.path_aggregate_chop(3, 1), -7);
    assert_eq!(t.path_aggregate_chop(2, 0), 11);
}

#[test]
fn split_trees_have_nothing_in_common() {
    let mut t = small_tree();
    t.split_root(1, 2);
    assert_eq!(t.lca(3, 4), NULL);
    assert_eq!(t.lca(3, 2), 2);
    assert_eq!(t.ancestor_at(3, 0), 2);
}
