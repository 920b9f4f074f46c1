//! Caches of sets that are costly to compute.
use std::collections::HashMap;

use vstd::prelude::*;

use crate::index_set::IndexSet;

verus! {

broadcast use vstd::std_specs::hash::group_hash_axioms;

/// The anticones of blocks, as lists of arena indices.
pub struct AnticoneCache {
    anticones: HashMap<usize, Vec<usize>>,
}

impl View for AnticoneCache {
    type V = Map<usize, Seq<usize>>;

    closed spec fn view(&self) -> Map<usize, Seq<usize>> {
        self.anticones@.map_values(|v: Vec<usize>| v@)
    }
}

impl AnticoneCache {
    pub fn new() -> (r: Self)
        ensures
            r@ == Map::<usize, Seq<usize>>::empty(),
    {
        let r = AnticoneCache { anticones: HashMap::new() };
        assert(r@ =~= Map::<usize, Seq<usize>>::empty());
        r
    }

    pub fn get(&self, me: usize) -> (r: Option<&Vec<usize>>)
        ensures
            match r {
                Some(v) => self@.contains_key(me) && v@ == self@[me],
                None => !self@.contains_key(me),
            },
    {
        self.anticones.get(&me)
    }

    pub fn update(&mut self, me: usize, anticone: &IndexSet)
        ensures
            final(self)@.contains_key(me),
            final(self)@[me].to_set() == anticone@,
            final(self)@[me].no_duplicates(),
            final(self)@.remove(me) == old(self)@.remove(me),
    {
        let items: Vec<usize> = anticone.to_vec();
        self.anticones.insert(me, items);
        assert(self@.remove(me) =~= old(self)@.remove(me));
    }
}

/// The past sets of blocks.
pub struct PastSetCache {
    pastsets: HashMap<usize, IndexSet>,
}

impl View for PastSetCache {
    type V = Map<usize, Set<usize>>;

    closed spec fn view(&self) -> Map<usize, Set<usize>> {
        self.pastsets@.map_values(|s: IndexSet| s@)
    }
}

impl PastSetCache {
    pub fn new() -> (r: Self)
        ensures
            r@ == Map::<usize, Set<usize>>::empty(),
    {
        let r = PastSetCache { pastsets: HashMap::new() };
        assert(r@ =~= Map::<usize, Set<usize>>::empty());
        r
    }

    pub fn get(&self, me: usize) -> (r: Option<&IndexSet>)
        ensures
            match r {
                Some(s) => self@.contains_key(me) && s@ == self@[me],
                None => !self@.contains_key(me),
            },
    {
        self.pastsets.get(&me)
    }

    pub fn update(&mut self, me: usize, pastset: IndexSet)
        ensures
            final(self)@ == old(self)@.insert(me, pastset@),
    {
        self.pastsets.insert(me, pastset);
        assert(self@ =~= old(self)@.insert(me, pastset@));
    }
}

} // verus!
