//! A map keyed by 256-bit hashes.
use std::collections::HashMap;

use vstd::prelude::*;

use crate::types::H256;

verus! {

broadcast use vstd::std_specs::hash::group_hash_axioms;

/// A map from hashes to values. Entries are kept in buckets by the low 64 bits of their hash,
/// which are spread evenly over the hashes of blocks.
pub struct H256Map<V> {
    buckets: HashMap<u64, Vec<(H256, V)>>,
    count: usize,
    entries: Ghost<Map<H256, V>>,
}

/// The bucket of a hash.
pub closed spec fn bucket_key(hash: H256) -> u64 {
    (hash.low & 0xffff_ffff_ffff_ffffu128) as u64
}

/// Where `hash` stands in a bucket.
spec fn sits_at<V>(bucket: Seq<(H256, V)>, hash: H256, i: int) -> bool {
    0 <= i < bucket.len() && bucket[i].0 == hash
}

impl<V> View for H256Map<V> {
    type V = Map<H256, V>;

    closed spec fn view(&self) -> Map<H256, V> {
        self.entries@
    }
}

impl<V> H256Map<V> {
    spec fn bucket(&self, key: u64) -> Seq<(H256, V)> {
        if self.buckets@.contains_key(key) {
            self.buckets@[key]@
        } else {
            Seq::empty()
        }
    }

    /// Every entry stands exactly once, in the bucket of its hash.
    pub closed spec fn wf(&self) -> bool {
        &&& self.entries@.dom().finite()
        &&& self.count == self.entries@.len()
        &&& forall|h: H256| #[trigger]
            self.entries@.contains_key(h) ==> exists|i: int|
                sits_at(self.bucket(bucket_key(h)), h, i)
        &&& forall|key: u64, i: int|
            0 <= i < self.bucket(key).len() ==> {
                let e = #[trigger] self.bucket(key)[i];
                bucket_key(e.0) == key && self.entries@.contains_key(e.0) && self.entries@[e.0] == e.1
            }
        &&& forall|key: u64, i: int, j: int|
            0 <= i < j < self.bucket(key).len() ==> (#[trigger] self.bucket(key)[i]).0 != (
            #[trigger] self.bucket(key)[j]).0
    }

    pub fn new() -> (r: Self)
        ensures
            r.wf(),
            r@ == Map::<H256, V>::empty(),
    {
        H256Map { buckets: HashMap::new(), count: 0, entries: Ghost(Map::empty()) }
    }

    fn key_of(hash: &H256) -> (key: u64)
        ensures
            key == bucket_key(*hash),
    {
        #[verifier::truncate]
        let key: u64 = (hash.low & 0xffff_ffff_ffff_ffffu128) as u64;
        key
    }

    fn find(bucket: &Vec<(H256, V)>, hash: &H256) -> (r: Option<usize>)
        ensures
            match r {
                Some(i) => sits_at(bucket@, *hash, i as int),
                None => forall|i: int| !sits_at(bucket@, *hash, i),
            },
    {
        let mut i: usize = 0;
        while i < bucket.len()
            invariant
                i <= bucket.len(),
                forall|j: int| 0 <= j < i ==> (#[trigger] bucket@[j]).0 != *hash,
            decreases bucket.len() - i,
        {
            if bucket[i].0 == *hash {
                return Some(i);
            }
            i = i + 1;
        }
        None
    }

    /// The number of entries.
    pub fn len(&self) -> (r: usize)
        requires
            self.wf(),
        ensures
            r == self@.len(),
            self@.dom().finite(),
    {
        self.count
    }

    pub fn get(&self, hash: &H256) -> (r: Option<&V>)
        requires
            self.wf(),
        ensures
            match r {
                Some(v) => self@.contains_key(*hash) && *v == self@[*hash],
                None => !self@.contains_key(*hash),
            },
    {
        let key: u64 = Self::key_of(hash);
        match self.buckets.get(&key) {
            None => None,
            Some(bucket) => {
                assert(bucket@ == self.bucket(key));
                match Self::find(bucket, hash) {
                    None => None,
                    Some(i) => {
                        assert(self.bucket(key)[i as int] == bucket@[i as int]);
                        Some(&bucket[i].1)
                    },
                }
            },
        }
    }

    pub fn contains_key(&self, hash: &H256) -> (r: bool)
        requires
            self.wf(),
        ensures
            r == self@.contains_key(*hash),
    {
        self.get(hash).is_some()
    }

    /// Puts `value` under `hash`, in place of what was there.
    pub fn insert(&mut self, hash: H256, value: V)
        requires
            old(self).wf(),
            old(self)@.len() < usize::MAX,
        ensures
            final(self).wf(),
            final(self)@ == old(self)@.insert(hash, value),
    {
        let key: u64 = Self::key_of(&hash);
        let mut bucket: Vec<(H256, V)> = match self.buckets.remove(&key) {
            Some(b) => b,
            None => Vec::new(),
        };
        let ghost before = bucket@;
        assert(before == old(self).bucket(key));
        match Self::find(&bucket, &hash) {
            Some(i) => {
                bucket.set(i, (hash, value));
                assert(old(self).bucket(key)[i as int].0 == hash);
            },
            None => {
                bucket.push((hash, value));
                self.count = self.count + 1;
            },
        }
        let ghost after = bucket@;
        self.buckets.insert(key, bucket);
        proof {
            self.entries@ = old(self).entries@.insert(hash, value);
            assert(forall|k: u64| k != key ==> self.bucket(k) == old(self).bucket(k));
            assert(self.bucket(key) == after);
            assert forall|h: H256| #[trigger] self.entries@.contains_key(h) implies exists|i: int|
                sits_at(self.bucket(bucket_key(h)), h, i) by {
                if h == hash {
                    if exists|i: int| sits_at(before, hash, i) {
                        let i = choose|i: int| sits_at(before, hash, i);
                        assert(sits_at(after, hash, i));
                    } else {
                        assert(sits_at(after, hash, before.len() as int));
                    }
                } else {
                    assert(old(self).entries@.contains_key(h));
                    let i = choose|i: int| sits_at(old(self).bucket(bucket_key(h)), h, i);
                    assert(sits_at(self.bucket(bucket_key(h)), h, i));
                }
            }
            assert forall|k: u64, i: int| 0 <= i < self.bucket(k).len() implies {
                let e = #[trigger] self.bucket(k)[i];
                bucket_key(e.0) == k && self.entries@.contains_key(e.0) && self.entries@[e.0] == e.1
            } by {
                let e = self.bucket(k)[i];
                if k == key && i < before.len() && before[i].0 != hash {
                    assert(old(self).bucket(k)[i] == e);
                } else if k != key {
                    assert(old(self).bucket(k)[i] == e);
                }
            }
            assert forall|k: u64, i: int, j: int| 0 <= i < j < self.bucket(k).len() implies (
            #[trigger] self.bucket(k)[i]).0 != (#[trigger] self.bucket(k)[j]).0 by {
                if k == key {
                    if j < before.len() {
                        assert(old(self).bucket(k)[i].0 != old(self).bucket(k)[j].0);
                    } else {
                        assert(!sits_at(before, hash, i));
                    }
                } else {
                    assert(old(self).bucket(k)[i].0 != old(self).bucket(k)[j].0);
                }
            }
        }
    }
}

} // verus!
