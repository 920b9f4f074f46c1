//! Sorting blocks by age, so that no block comes before one it links to.
use vstd::prelude::*;

use crate::graph::{all_nodes, ConsensusGraphInner};
use crate::node::{arena_get, ConsensusGraphNode};
use crate::reach::lemma_push_contains;

verus! {

/// Whether blocks are listed by sequence number, the oldest first.
pub open spec fn by_age(nodes: Map<usize, ConsensusGraphNode>, list: Seq<usize>) -> bool {
    forall|i: int, j: int|
        0 <= i <= j < list.len() ==> nodes[#[trigger] list[i]].data.sequence_number
            <= nodes[#[trigger] list[j]].data.sequence_number
}

proof fn lemma_take_next(s: Seq<usize>, i: int)
    requires
        0 <= i < s.len(),
        s.no_duplicates(),
    ensures
        s.take(i + 1) == s.take(i).push(s[i]),
        !s.take(i).contains(s[i]),
        s.contains(s[i]),
{
    assert(s.take(i + 1) =~= s.take(i).push(s[i]));
    if s.take(i).contains(s[i]) {
        let k = choose|k: int| 0 <= k < i && s.take(i)[k] == s[i];
        assert(s[k] == s[i]);
    }
}

proof fn lemma_take_contains(s: Seq<usize>, i: int, x: usize)
    requires
        0 <= i <= s.len(),
        s.take(i).contains(x),
    ensures
        s.contains(x),
{
    let k = choose|k: int| 0 <= k < i && s.take(i)[k] == x;
    assert(s[k] == x);
}

impl ConsensusGraphInner {
    fn merge_by_age(&self, a: &Vec<usize>, b: &Vec<usize>) -> (r: Vec<usize>)
        requires
            all_nodes(self.nodes(), a@),
            all_nodes(self.nodes(), b@),
            by_age(self.nodes(), a@),
            by_age(self.nodes(), b@),
            a@.no_duplicates(),
            b@.no_duplicates(),
            forall|x: usize| !(#[trigger] a@.contains(x) && b@.contains(x)),
        ensures
            by_age(self.nodes(), r@),
            r@.no_duplicates(),
            forall|x: usize| #[trigger] r@.contains(x) <==> a@.contains(x) || b@.contains(x),
    {
        let mut r: Vec<usize> = Vec::new();
        let mut i: usize = 0;
        let mut j: usize = 0;
        while i < a.len() || j < b.len()
            invariant
                i <= a.len(),
                j <= b.len(),
                all_nodes(self.nodes(), a@),
                all_nodes(self.nodes(), b@),
                by_age(self.nodes(), a@),
                by_age(self.nodes(), b@),
                a@.no_duplicates(),
                b@.no_duplicates(),
                forall|x: usize| !(#[trigger] a@.contains(x) && b@.contains(x)),
                by_age(self.nodes(), r@),
                r@.no_duplicates(),
                forall|x: usize| #[trigger]
                    r@.contains(x) <==> a@.take(i as int).contains(x) || b@.take(
                        j as int,
                    ).contains(x),
                forall|k: int, m: int|
                    0 <= k < r@.len() && i <= m < a@.len()
                        ==> self.nodes()[#[trigger] r@[k]].data.sequence_number
                        <= self.nodes()[#[trigger] a@[m]].data.sequence_number,
                forall|k: int, m: int|
                    0 <= k < r@.len() && j <= m < b@.len()
                        ==> self.nodes()[#[trigger] r@[k]].data.sequence_number
                        <= self.nodes()[#[trigger] b@[m]].data.sequence_number,
            decreases a.len() - i + b.len() - j,
        {
            let from_a: bool = if i >= a.len() {
                false
            } else if j >= b.len() {
                true
            } else {
                assert(self.nodes().contains_key(a@[i as int]));
                assert(self.nodes().contains_key(b@[j as int]));
                arena_get(&self.arena, a[i]).data.sequence_number <= arena_get(
                    &self.arena,
                    b[j],
                ).data.sequence_number
            };
            let ghost before = r@;
            if from_a {
                let x: usize = a[i];
                proof {
                    lemma_take_next(a@, i as int);
                    lemma_push_contains(a@.take(i as int), x);
                    lemma_push_contains(before, x);
                    if b@.take(j as int).contains(x) {
                        lemma_take_contains(b@, j as int, x);
                    }
                    assert(!before.contains(x));
                }
                r.push(x);
                i = i + 1;
            } else {
                let x: usize = b[j];
                proof {
                    lemma_take_next(b@, j as int);
                    lemma_push_contains(b@.take(j as int), x);
                    lemma_push_contains(before, x);
                    if a@.take(i as int).contains(x) {
                        lemma_take_contains(a@, i as int, x);
                    }
                    assert(!before.contains(x));
                }
                r.push(x);
                j = j + 1;
            }
        }
        assert(a@.take(i as int) =~= a@);
        assert(b@.take(j as int) =~= b@);
        r
    }

    /// The blocks of a list, the oldest first.
    pub(crate) fn sort_by_age(&self, list: &Vec<usize>) -> (r: Vec<usize>)
        requires
            all_nodes(self.nodes(), list@),
            list@.no_duplicates(),
        ensures
            by_age(self.nodes(), r@),
            r@.no_duplicates(),
            forall|x: usize| #[trigger] r@.contains(x) <==> list@.contains(x),
        decreases list@.len(),
    {
        let n: usize = list.len();
        let mut a: Vec<usize> = Vec::new();
        let mut b: Vec<usize> = Vec::new();
        if n <= 1 {
            if n == 1 {
                a.push(list[0]);
            }
            assert(a@ =~= list@);
            return a;
        }
        let half: usize = n / 2;
        let mut i: usize = 0;
        while i < n
            invariant
                i <= n,
                n == list.len(),
                half < n,
                a@ == list@.take(if i < half {
                    i as int
                } else {
                    half as int
                }),
                b@ == list@.subrange(
                    half as int,
                    if i < half {
                        half as int
                    } else {
                        i as int
                    },
                ),
            decreases n - i,
        {
            if i < half {
                a.push(list[i]);
                assert(a@ =~= list@.take(i + 1));
            } else {
                b.push(list[i]);
                assert(b@ =~= list@.subrange(half as int, i + 1));
            }
            i = i + 1;
        }
        let ra: Vec<usize> = self.sort_by_age(&a);
        let rb: Vec<usize> = self.sort_by_age(&b);
        proof {
            assert forall|x: usize| list@.contains(x) <==> #[trigger] a@.contains(x) || b@.contains(
                x,
            ) by {
                if list@.contains(x) {
                    let k = choose|k: int| 0 <= k < n && list@[k] == x;
                    if k < half {
                        assert(a@[k] == x);
                    } else {
                        assert(b@[k - half] == x);
                    }
                }
                if a@.contains(x) {
                    let k = choose|k: int| 0 <= k < a@.len() && a@[k] == x;
                    assert(list@[k] == x);
                }
                if b@.contains(x) {
                    let k = choose|k: int| 0 <= k < b@.len() && b@[k] == x;
                    assert(list@[k + half] == x);
                }
            }
            assert forall|x: usize| !(#[trigger] ra@.contains(x) && rb@.contains(x)) by {
                if ra@.contains(x) && rb@.contains(x) {
                    assert(a@.contains(x));
                    assert(b@.contains(x));
                    let k = choose|k: int| 0 <= k < a@.len() && a@[k] == x;
                    let m = choose|m: int| 0 <= m < b@.len() && b@[m] == x;
                    assert(list@[k] == list@[m + half]);
                }
            }
            assert forall|k: int| 0 <= k < ra@.len() implies self.nodes().contains_key(
                #[trigger] ra@[k],
            ) by {
                assert(ra@.contains(ra@[k]));
                assert(a@.contains(ra@[k]));
                let m = choose|m: int| 0 <= m < a@.len() && a@[m] == ra@[k];
                assert(self.nodes().contains_key(list@[m]));
            }
            assert forall|k: int| 0 <= k < rb@.len() implies self.nodes().contains_key(
                #[trigger] rb@[k],
            ) by {
                assert(rb@.contains(rb@[k]));
                assert(b@.contains(rb@[k]));
                let m = choose|m: int| 0 <= m < b@.len() && b@[m] == rb@[k];
                assert(self.nodes().contains_key(list@[m + half]));
            }
        }
        let r: Vec<usize> = self.merge_by_age(&ra, &rb);
        proof {
            assert forall|x: usize| #[trigger] r@.contains(x) <==> list@.contains(x) by {
                assert(ra@.contains(x) <==> a@.contains(x));
                assert(rb@.contains(x) <==> b@.contains(x));
            }
        }
        r
    }
}

} // verus!
