//! Small operations on lists and maps of indices.
use std::collections::{HashMap, HashSet};

use vstd::prelude::*;
use vstd::std_specs::iter::IteratorSpec;

verus! {

broadcast use vstd::std_specs::hash::group_hash_axioms;

/// A list from back to front.
pub fn reversed(list: &Vec<usize>) -> (r: Vec<usize>)
    ensures
        r@ == list@.reverse(),
{
    let mut r: Vec<usize> = Vec::new();
    let mut i: usize = list.len();
    while i > 0
        invariant
            i <= list.len(),
            r@ == list@.skip(i as int).reverse(),
        decreases i,
    {
        i = i - 1;
        r.push(list[i]);
        assert(r@ =~= list@.skip(i as int).reverse());
    }
    assert(list@.skip(0) =~= list@);
    r
}

/// The first items of a list.
pub fn first_items(list: &Vec<usize>, n: usize) -> (r: Vec<usize>)
    requires
        n <= list@.len(),
    ensures
        r@ == list@.take(n as int),
{
    let mut r: Vec<usize> = Vec::new();
    let mut i: usize = 0;
    while i < n
        invariant
            i <= n <= list@.len(),
            r@ == list@.take(i as int),
        decreases n - i,
    {
        r.push(list[i]);
        assert(list@.take(i + 1) =~= list@.take(i as int).push(list@[i as int]));
        i = i + 1;
    }
    r
}

/// Puts the items of a list behind those of another.
pub fn append_items(list: &mut Vec<usize>, more: &Vec<usize>)
    ensures
        final(list)@ == old(list)@ + more@,
{
    let mut i: usize = 0;
    assert(more@.take(0) =~= seq![]);
    while i < more.len()
        invariant
            i <= more.len(),
            list@ == old(list)@ + more@.take(i as int),
        decreases more.len() - i,
    {
        list.push(more[i]);
        assert(more@.take(i + 1) =~= more@.take(i as int).push(more@[i as int]));
        i = i + 1;
    }
    assert(more@.take(i as int) =~= more@);
}

/// The keys of a map.
pub fn map_keys(map: &HashMap<usize, u64>) -> (r: Vec<usize>)
    ensures
        r@.no_duplicates(),
        forall|k: usize| #[trigger] r@.contains(k) == map@.contains_key(k),
{
    let mut r: Vec<usize> = Vec::new();
    let iter = map.keys();
    let ghost all = iter.remaining();
    for k in it: iter
        invariant
            it.seq() == all,
            r@.len() == it.index(),
            forall|i: int| 0 <= i < r@.len() ==> r@[i] == *#[trigger] all[i],
    {
        r.push(*k);
    }
    proof {
        assert(r@ =~= all.unref());
        assert forall|k: usize| #[trigger] r@.contains(k) == map@.contains_key(k) by {
            assert(r@.to_set().contains(k) == map@.dom().contains(k));
        }
        assert forall|i: int, j: int| 0 <= i < j < r@.len() implies r@[i] != r@[j] by {
            assert(all[i] != all[j]);
        }
    }
    r
}

/// The items of a set.
pub fn set_items(set: &HashSet<usize>) -> (r: Vec<usize>)
    ensures
        r@.no_duplicates(),
        forall|k: usize| #[trigger] r@.contains(k) == set@.contains(k),
{
    let mut r: Vec<usize> = Vec::new();
    let iter = set.iter();
    let ghost all = iter.remaining();
    for k in it: iter
        invariant
            it.seq() == all,
            r@.len() == it.index(),
            forall|i: int| 0 <= i < r@.len() ==> r@[i] == *#[trigger] all[i],
    {
        r.push(*k);
    }
    proof {
        assert(r@ =~= all.unref());
        assert forall|k: usize| #[trigger] r@.contains(k) == set@.contains(k) by {
            assert(r@.to_set().contains(k) == set@.contains(k));
        }
        assert forall|i: int, j: int| 0 <= i < j < r@.len() implies r@[i] != r@[j] by {
            assert(all[i] != all[j]);
        }
    }
    r
}

} // verus!
