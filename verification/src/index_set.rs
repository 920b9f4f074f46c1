//! Sets of arena indices, kept in hierarchical bit sets.
use hibitset::{BitSet, BitSetLike};

use vstd::prelude::*;

verus! {

/// A bit set holds indices below this bound: the number of bits in a machine word, to the
/// power of the four layers of the set.
pub open spec fn index_limit() -> nat {
    if usize::BITS == 64 {
        0x100_0000
    } else {
        0x10_0000
    }
}

/// `hibitset::BitSet`.
#[verifier::external_type_specification]
#[verifier::external_body]
pub struct ExBitSet(BitSet);

/// The indices that are in a bit set.
pub uninterp spec fn bit_indices(bits: BitSet) -> Set<u32>;

/// `BitSet::new`: the new set is empty.
#[verifier::external_body]
fn bits_new() -> (bits: BitSet)
    ensures
        bit_indices(bits) == Set::<u32>::empty(),
{
    BitSet::new()
}

/// `BitSet::add`: the index is in the set afterwards, and nothing else changes. An index at or
/// above the limit of the layers is left out: the crate panics on it or loses track of it.
#[verifier::external_body]
fn bits_add(bits: &mut BitSet, index: u32)
    requires
        index < index_limit(),
    ensures
        bit_indices(*final(bits)) == bit_indices(*old(bits)).insert(index),
{
    bits.add(index);
}

/// `BitSet::remove`: the index is not in the set afterwards, and nothing else changes.
#[verifier::external_body]
fn bits_remove(bits: &mut BitSet, index: u32)
    ensures
        bit_indices(*final(bits)) == bit_indices(*old(bits)).remove(index),
{
    bits.remove(index);
}

/// `BitSet::contains`: whether the index is in the set, for any index.
#[verifier::external_body]
fn bits_contains(bits: &BitSet, index: u32) -> (r: bool)
    ensures
        r == bit_indices(*bits).contains(index),
{
    bits.contains(index)
}

/// `BitSetLike::iter` on a bit set: it yields the indices of the set, each once and in
/// ascending order, and all of them are below the limit of the layers.
#[verifier::external_body]
fn bits_iter(bits: &BitSet) -> (r: Vec<u32>)
    ensures
        r@.to_set() == bit_indices(*bits),
        forall|i: int| 0 <= i < r@.len() ==> (#[trigger] r@[i]) < index_limit(),
        forall|i: int, j: int| 0 <= i < j < r@.len() ==> r@[i] < r@[j],
{
    bits.iter().collect()
}

/// `BitOrAssign` on bit sets: the union of the two.
#[verifier::external_body]
fn bits_or_assign(bits: &mut BitSet, other: &BitSet)
    ensures
        bit_indices(*final(bits)) == bit_indices(*old(bits)).union(bit_indices(*other)),
{
    *bits |= other;
}

/// `Clone` on a bit set: a set of the same indices.
#[verifier::external_body]
fn bits_clone(bits: &BitSet) -> (r: BitSet)
    ensures
        bit_indices(r) == bit_indices(*bits),
{
    bits.clone()
}

/// A set of arena indices.
pub struct IndexSet {
    bits: BitSet,
}

impl View for IndexSet {
    type V = Set<usize>;

    closed spec fn view(&self) -> Set<usize> {
        Set::new(|i: usize| i < index_limit() && bit_indices(self.bits).contains(i as u32))
    }
}

/// A set of indices below `n` is finite and has at most `n` members.
pub proof fn lemma_bounded_set(s: Set<usize>, n: nat)
    requires
        forall|i: usize| #[trigger] s.contains(i) ==> i < n,
    ensures
        s.finite(),
        s.len() <= n,
    decreases n,
{
    if n == 0 {
        assert(s =~= Set::<usize>::empty());
    } else {
        let last = (n - 1) as usize;
        if n - 1 <= usize::MAX {
            let rest = s.remove(last);
            lemma_bounded_set(rest, (n - 1) as nat);
            if s.contains(last) {
                assert(s =~= rest.insert(last));
            } else {
                assert(s =~= rest);
            }
        } else {
            lemma_bounded_set(s, (n - 1) as nat);
        }
    }
}

impl IndexSet {
    pub fn new() -> (r: IndexSet)
        ensures
            r@ == Set::<usize>::empty(),
    {
        let r = IndexSet { bits: bits_new() };
        assert(r@ =~= Set::<usize>::empty());
        r
    }

    pub fn add(&mut self, index: usize)
        requires
            index < index_limit(),
        ensures
            final(self)@ == old(self)@.insert(index),
    {
        bits_add(&mut self.bits, index as u32);
        assert(self@ =~= old(self)@.insert(index));
    }

    pub fn remove(&mut self, index: usize)
        ensures
            final(self)@ == old(self)@.remove(index),
    {
        if index <= 0xffff_ffff {
            bits_remove(&mut self.bits, index as u32);
        }
        assert(self@ =~= old(self)@.remove(index));
    }

    pub fn contains(&self, index: usize) -> (r: bool)
        ensures
            r == self@.contains(index),
    {
        self.below_limit(index) && bits_contains(&self.bits, index as u32)
    }

    /// Whether the index is one that a bit set can hold.
    fn below_limit(&self, index: usize) -> (r: bool)
        ensures
            r == (index < index_limit()),
    {
        let limit: usize = if usize::BITS == 64 {
            0x100_0000
        } else {
            0x10_0000
        };
        index < limit
    }

    /// The members, in ascending order.
    pub fn to_vec(&self) -> (r: Vec<usize>)
        ensures
            r@.to_set() == self@,
            r@.no_duplicates(),
            forall|i: int, j: int| 0 <= i < j < r@.len() ==> r@[i] < r@[j],
    {
        let items: Vec<u32> = bits_iter(&self.bits);
        let mut r: Vec<usize> = Vec::new();
        let mut i: usize = 0;
        while i < items.len()
            invariant
                i <= items.len(),
                items@.to_set() == bit_indices(self.bits),
                forall|i: int| 0 <= i < items@.len() ==> (#[trigger] items@[i]) < index_limit(),
                forall|i: int, j: int| 0 <= i < j < items@.len() ==> items@[i] < items@[j],
                r@.len() == i,
                forall|j: int| 0 <= j < i ==> #[trigger] r@[j] == items@[j],
            decreases items.len() - i,
        {
            r.push(items[i] as usize);
            i = i + 1;
        }
        proof {
            assert forall|x: usize| r@.to_set().contains(x) == self@.contains(x) by {
                if self@.contains(x) {
                    assert(items@.to_set().contains(x as u32));
                    let k = choose|k: int| 0 <= k < items@.len() && items@[k] == x as u32;
                    assert(r@[k] == x);
                }
                if r@.contains(x) {
                    let k = choose|k: int| 0 <= k < r@.len() && r@[k] == x;
                    assert(items@.to_set().contains(items@[k]));
                }
            }
            assert(r@.to_set() =~= self@);
        }
        r
    }

    /// Adds all the members of `other`.
    pub fn union_with(&mut self, other: &IndexSet)
        ensures
            final(self)@ == old(self)@.union(other@),
    {
        bits_or_assign(&mut self.bits, &other.bits);
        assert(self@ =~= old(self)@.union(other@));
    }

    pub fn copy(&self) -> (r: IndexSet)
        ensures
            r@ == self@,
    {
        let r = IndexSet { bits: bits_clone(&self.bits) };
        assert(r@ =~= self@);
        r
    }
}

} // verus!
