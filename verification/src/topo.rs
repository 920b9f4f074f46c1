//! The execution order of the blocks of an epoch.
use std::collections::HashMap;

use vstd::prelude::*;

use crate::graph::{all_nodes, arena_wf, links_wf, ConsensusGraphInner};
use crate::index_set::{index_limit, IndexSet};
use crate::lists::reversed;
use crate::node::{arena_get, ConsensusGraphNode};
use crate::reach::{is_pred, lemma_nodes_count, lemma_push_contains, Direction};
use crate::sums::{lemma_list_sum_next, list_sum};
use crate::timer::{lemma_pred_older, preds_of};
use crate::types::{H256, NULL};

verus! {

broadcast use vstd::std_specs::hash::group_hash_axioms;

/// Whether `x` can be taken next: it is in the set, was not taken, and all blocks of the set that
/// have it as parent or referee were.
pub open spec fn available(
    nodes: Map<usize, ConsensusGraphNode>,
    set: Set<usize>,
    done: Seq<usize>,
    x: usize,
) -> bool {
    &&& set.contains(x)
    &&& !done.contains(x)
    &&& forall|u: usize| set.contains(u) && #[trigger] is_pred(nodes, u, x) ==> done.contains(u)
}

/// Whether `a` is taken before `b` where both can be: the greater hash first, then the greater
/// index.
pub open spec fn taken_first(
    nodes: Map<usize, ConsensusGraphNode>,
    a: usize,
    b: usize,
) -> bool {
    nodes[a].hash.value() > nodes[b].hash.value() || (nodes[a].hash.value()
        == nodes[b].hash.value() && a > b)
}

/// Whether a list is made by taking, from the last to the first, always the foremost block that
/// can be taken.
pub open spec fn taken_in_order(
    nodes: Map<usize, ConsensusGraphNode>,
    set: Set<usize>,
    rev: Seq<usize>,
) -> bool {
    forall|i: int|
        0 <= i < rev.len() ==> available(nodes, set, #[trigger] rev.take(i), rev[i]) && (forall|
            c: usize,
        |
            c != rev[i] && #[trigger] available(nodes, set, rev.take(i), c) ==> taken_first(
                nodes,
                rev[i],
                c,
            ))
}

/// Whether a list is the execution order of a set of blocks.
pub open spec fn is_topo_order(
    nodes: Map<usize, ConsensusGraphNode>,
    set: Set<usize>,
    list: Seq<usize>,
) -> bool {
    &&& list.no_duplicates()
    &&& list.to_set() == set
    &&& taken_in_order(nodes, set, list.reverse())
}

/// How often `x` is in a list.
pub open spec fn occurrences(list: Seq<usize>, x: usize) -> nat
    decreases list.len(),
{
    if list.len() == 0 {
        0
    } else {
        occurrences(list.drop_last(), x) + (if list.last() == x {
            1nat
        } else {
            0nat
        })
    }
}

pub proof fn lemma_occurrences(list: Seq<usize>, x: usize)
    ensures
        occurrences(list, x) > 0 <==> list.contains(x),
        occurrences(list, x) <= list.len(),
    decreases list.len(),
{
    if list.len() > 0 {
        lemma_occurrences(list.drop_last(), x);
        assert(list.drop_last().push(list.last()) =~= list);
        lemma_push_contains(list.drop_last(), list.last());
    }
}

pub proof fn lemma_occurrences_next(list: Seq<usize>, k: int, x: usize)
    requires
        0 <= k < list.len(),
    ensures
        occurrences(list.take(k + 1), x) == occurrences(list.take(k), x) + (if list[k] == x {
            1nat
        } else {
            0nat
        }),
{
    assert(list.take(k + 1).drop_last() =~= list.take(k));
}

proof fn lemma_occurrences_grow(list: Seq<usize>, k: int, x: usize)
    requires
        0 <= k <= list.len(),
    ensures
        occurrences(list.take(k), x) <= occurrences(list, x),
    decreases list.len() - k,
{
    if k < list.len() {
        lemma_occurrences_next(list, k, x);
        lemma_occurrences_grow(list, k + 1, x);
    } else {
        assert(list.take(k) =~= list);
    }
}

/// The links to `x` from a block that was not taken.
spec fn open_links(
    nodes: Map<usize, ConsensusGraphNode>,
    done: Seq<usize>,
    x: usize,
) -> spec_fn(usize) -> int {
    |u: usize|
        if done.contains(u) {
            0
        } else {
            occurrences(preds_of(nodes, u), x) as int
        }
}

proof fn lemma_pred_occurs(nodes: Map<usize, ConsensusGraphNode>, u: usize, x: usize)
    requires
        arena_wf(nodes),
        nodes.contains_key(u),
    ensures
        occurrences(preds_of(nodes, u), x) > 0 <==> is_pred(nodes, u, x),
{
    let preds = preds_of(nodes, u);
    lemma_occurrences(preds, x);
    assert(links_wf(nodes, nodes[u]));
    let first: Seq<usize> = if nodes[u].parent == NULL {
        seq![]
    } else {
        seq![nodes[u].parent]
    };
    if preds.contains(x) {
        let k = choose|k: int| 0 <= k < preds.len() && preds[k] == x;
        if k < first.len() {
            assert(nodes[u].parent == x);
        } else {
            assert(nodes[u].referees@[k - first.len()] == x);
        }
    }
    if is_pred(nodes, u, x) {
        if nodes[u].referees@.contains(x) {
            let k = choose|k: int| 0 <= k < nodes[u].referees@.len() && nodes[u].referees@[k] == x;
            assert(preds[first.len() + k] == x);
        } else {
            assert(preds[0] == x);
        }
    }
}

/// No open links are left exactly if all blocks with links were taken.
proof fn lemma_no_open_links(
    nodes: Map<usize, ConsensusGraphNode>,
    list: Seq<usize>,
    done: Seq<usize>,
    x: usize,
)
    requires
        arena_wf(nodes),
        all_nodes(nodes, list),
    ensures
        list_sum(list, open_links(nodes, done, x)) >= 0,
        list_sum(list, open_links(nodes, done, x)) == 0 <==> (forall|u: usize|
            list.contains(u) && #[trigger] is_pred(nodes, u, x) ==> done.contains(u)),
    decreases list.len(),
{
    if list.len() > 0 {
        let init = list.drop_last();
        let l = list.last();
        assert(all_nodes(nodes, init)) by {
            assert forall|i: int| 0 <= i < init.len() implies nodes.contains_key(
                #[trigger] init[i],
            ) by {
                assert(nodes.contains_key(list[i]));
            }
        }
        lemma_no_open_links(nodes, init, done, x);
        assert(nodes.contains_key(list[list.len() - 1]));
        lemma_pred_occurs(nodes, l, x);
        assert(init.push(l) =~= list);
        lemma_push_contains(init, l);
        if list_sum(list, open_links(nodes, done, x)) == 0 {
            assert(list_sum(init, open_links(nodes, done, x)) == 0);
            assert(!done.contains(l) ==> !is_pred(nodes, l, x));
        } else if list_sum(init, open_links(nodes, done, x)) == 0 {
            assert(is_pred(nodes, l, x) && !done.contains(l));
            assert(list.contains(l));
        } else {
            let u = choose|u: usize|
                init.contains(u) && #[trigger] is_pred(nodes, u, x) && !done.contains(u);
            assert(list.contains(u));
        }
    }
}

/// Taking a block closes its links.
proof fn lemma_close_links(
    nodes: Map<usize, ConsensusGraphNode>,
    list: Seq<usize>,
    done: Seq<usize>,
    me: usize,
    x: usize,
)
    requires
        list.no_duplicates(),
        !done.contains(me),
    ensures
        list_sum(list, open_links(nodes, done.push(me), x)) == list_sum(
            list,
            open_links(nodes, done, x),
        ) - (if list.contains(me) {
            occurrences(preds_of(nodes, me), x) as int
        } else {
            0
        }),
    decreases list.len(),
{
    lemma_push_contains(done, me);
    if list.len() > 0 {
        let init = list.drop_last();
        let l = list.last();
        lemma_close_links(nodes, init, done, me, x);
        assert(init.push(l) =~= list);
        lemma_push_contains(init, l);
        if init.contains(l) {
            let k = choose|k: int| 0 <= k < init.len() && init[k] == l;
            assert(list[k] == list[list.len() - 1]);
        }
    }
}

/// The youngest block that was not taken.
proof fn lemma_youngest_left(
    nodes: Map<usize, ConsensusGraphNode>,
    list: Seq<usize>,
    done: Seq<usize>,
) -> (y: usize)
    requires
        exists|x: usize| list.contains(x) && !done.contains(x),
    ensures
        list.contains(y),
        !done.contains(y),
        forall|x: usize| #[trigger]
            list.contains(x) && !done.contains(x) ==> nodes[x].data.sequence_number
                <= nodes[y].data.sequence_number,
    decreases list.len(),
{
    let init = list.drop_last();
    let l = list.last();
    assert(init.push(l) =~= list);
    lemma_push_contains(init, l);
    if exists|x: usize| init.contains(x) && !done.contains(x) {
        let y = lemma_youngest_left(nodes, init, done);
        if !done.contains(l) && nodes[l].data.sequence_number > nodes[y].data.sequence_number {
            l
        } else {
            y
        }
    } else {
        l
    }
}

proof fn lemma_remove_contains(s: Seq<usize>, i: int)
    requires
        s.no_duplicates(),
        0 <= i < s.len(),
    ensures
        forall|x: usize| #[trigger] s.remove(i).contains(x) <==> s.contains(x) && x != s[i],
        s.remove(i).no_duplicates(),
{
    assert forall|x: usize| #[trigger] s.remove(i).contains(x) <==> s.contains(x) && x
        != s[i] by {
        if s.remove(i).contains(x) {
            let k = choose|k: int| 0 <= k < s.remove(i).len() && s.remove(i)[k] == x;
            if k < i {
                assert(s[k] == x);
            } else {
                assert(s[k + 1] == x);
            }
        }
        if s.contains(x) && x != s[i] {
            let k = choose|k: int| 0 <= k < s.len() && s[k] == x;
            if k < i {
                assert(s.remove(i)[k] == x);
            } else {
                assert(s.remove(i)[k - 1] == x);
            }
        }
    }
}

/// The number that a map holds for a key, zero if none.
spec fn count_of(counts: Map<usize, u128>, x: usize) -> int {
    if counts.contains_key(x) {
        counts[x] as int
    } else {
        0
    }
}

impl ConsensusGraphInner {
    /// Counts the links among the blocks of a list.
    fn count_links(&self, index_set: &IndexSet, list: &Vec<usize>) -> (r: HashMap<usize, u128>)
        requires
            arena_wf(self.nodes()),
            all_nodes(self.nodes(), list@),
            list@.no_duplicates(),
        ensures
            forall|x: usize| #[trigger]
                index_set@.contains(x) ==> count_of(r@, x) == list_sum(
                    list@,
                    open_links(self.nodes(), seq![], x),
                ),
    {
        let mut r: HashMap<usize, u128> = HashMap::new();
        let mut i: usize = 0;
        proof {
            assert(list@.take(0) =~= seq![]);
            lemma_nodes_count(self.nodes(), list@);
        }
        while i < list.len()
            invariant
                i <= list.len(),
                arena_wf(self.nodes()),
                all_nodes(self.nodes(), list@),
                list@.len() <= index_limit(),
                forall|x: usize| #[trigger]
                    index_set@.contains(x) ==> count_of(r@, x) == list_sum(
                        list@.take(i as int),
                        open_links(self.nodes(), seq![], x),
                    ),
                forall|x: usize| #[trigger] count_of(r@, x) <= i * 0x1_0000_0000_0000_0001,
            decreases list.len() - i,
        {
            let u: usize = list[i];
            assert(self.nodes().contains_key(list@[i as int]));
            let preds: Vec<usize> = self.linked(Direction::Past, u);
            assert(preds@ == preds_of(self.nodes(), u));
            let ghost before = r@;
            let mut j: usize = 0;
            assert(preds@.take(0) =~= seq![]);
            while j < preds.len()
                invariant
                    j <= preds.len(),
                    i < index_limit(),
                    forall|x: usize| #[trigger]
                        index_set@.contains(x) ==> count_of(r@, x) == count_of(before, x)
                            + occurrences(preds@.take(j as int), x),
                    forall|x: usize| #[trigger]
                        count_of(before, x) <= i * 0x1_0000_0000_0000_0001,
                    forall|x: usize| #[trigger]
                        count_of(r@, x) <= i * 0x1_0000_0000_0000_0001 + j,
                decreases preds.len() - j,
            {
                let p: usize = preds[j];
                let ghost mid = r@;
                if index_set.contains(p) {
                    let c: u128 = match r.get(&p) {
                        Some(c) => *c,
                        None => 0,
                    };
                    assert(c == count_of(mid, p));
                    r.insert(p, c + 1);
                }
                proof {
                    assert forall|x: usize| #[trigger] index_set@.contains(x) implies count_of(
                        r@,
                        x,
                    ) == count_of(before, x) + occurrences(preds@.take(j + 1), x) by {
                        lemma_occurrences_next(preds@, j as int, x);
                        assert(count_of(mid, x) == count_of(before, x) + occurrences(
                            preds@.take(j as int),
                            x,
                        ));
                    }
                    assert forall|x: usize| #[trigger] count_of(r@, x) <= i
                        * 0x1_0000_0000_0000_0001 + j + 1 by {
                        assert(count_of(mid, x) <= i * 0x1_0000_0000_0000_0001 + j);
                        assert(count_of(mid, p) <= i * 0x1_0000_0000_0000_0001 + j);
                    }
                }
                j = j + 1;
            }
            proof {
                assert(preds@.take(j as int) =~= preds@);
                assert forall|x: usize| #[trigger] index_set@.contains(x) implies count_of(r@, x)
                    == list_sum(list@.take(i + 1), open_links(self.nodes(), seq![], x)) by {
                    lemma_list_sum_next(
                        list@,
                        open_links(self.nodes(), seq![], x),
                        i as int,
                    );
                }
            }
            i = i + 1;
        }
        assert(list@.take(i as int) =~= list@);
        r
    }

    /// The position of the candidate that is taken first.
    fn foremost(&self, candidates: &Vec<usize>) -> (r: usize)
        requires
            candidates@.len() > 0,
            all_nodes(self.nodes(), candidates@),
            candidates@.no_duplicates(),
        ensures
            r < candidates@.len(),
            forall|c: usize| #[trigger]
                candidates@.contains(c) && c != candidates@[r as int] ==> taken_first(
                    self.nodes(),
                    candidates@[r as int],
                    c,
                ),
    {
        let mut best: usize = 0;
        let mut i: usize = 1;
        while i < candidates.len()
            invariant
                1 <= i <= candidates.len(),
                best < i,
                all_nodes(self.nodes(), candidates@),
                forall|k: int|
                    0 <= k < i && candidates@[k] != candidates@[best as int] ==> taken_first(
                        self.nodes(),
                        candidates@[best as int],
                        #[trigger] candidates@[k],
                    ),
            decreases candidates.len() - i,
        {
            let a: usize = candidates[i];
            let b: usize = candidates[best];
            assert(self.nodes().contains_key(candidates@[i as int]));
            assert(self.nodes().contains_key(candidates@[best as int]));
            let ha: H256 = arena_get(&self.arena, a).hash;
            let hb: H256 = arena_get(&self.arena, b).hash;
            if ha.is_greater(&hb) || (!hb.is_greater(&ha) && a > b) {
                best = i;
            }
            i = i + 1;
        }
        proof {
            assert forall|c: usize| #[trigger]
                candidates@.contains(c) && c != candidates@[best as int] implies taken_first(
                self.nodes(),
                candidates@[best as int],
                c,
            ) by {
                let k = choose|k: int| 0 <= k < candidates@.len() && candidates@[k] == c;
                assert(taken_first(self.nodes(), candidates@[best as int], candidates@[k]));
            }
        }
        best
    }

    /// Takes a block: closes its links and adds what can then be taken to the candidates.
    fn take_block(
        &self,
        index_set: &IndexSet,
        me: usize,
        counts: &mut HashMap<usize, u128>,
        candidates: &mut Vec<usize>,
        Ghost(list): Ghost<Seq<usize>>,
        Ghost(done): Ghost<Seq<usize>>,
    )
        requires
            arena_wf(self.nodes()),
            all_nodes(self.nodes(), list),
            list.no_duplicates(),
            forall|x: usize| #[trigger] index_set@.contains(x) <==> list.contains(x),
            list.contains(me),
            !done.contains(me),
            forall|x: usize| #[trigger]
                index_set@.contains(x) ==> count_of(old(counts)@, x) == list_sum(
                    list,
                    open_links(self.nodes(), done, x),
                ),
            forall|x: usize|
                index_set@.contains(x) && #[trigger] done.contains(x) ==> count_of(
                    old(counts)@,
                    x,
                ) == 0,
            old(candidates)@.no_duplicates(),
            forall|x: usize| #[trigger]
                old(candidates)@.contains(x) <==> index_set@.contains(x) && !done.contains(x) && x
                    != me && count_of(old(counts)@, x) == 0,
        ensures
            forall|x: usize| #[trigger]
                index_set@.contains(x) ==> count_of(final(counts)@, x) == list_sum(
                    list,
                    open_links(self.nodes(), done.push(me), x),
                ) && count_of(final(counts)@, x) <= count_of(old(counts)@, x),
            final(candidates)@.no_duplicates(),
            forall|x: usize| #[trigger]
                final(candidates)@.contains(x) <==> index_set@.contains(x) && !done.push(
                    me,
                ).contains(x) && count_of(final(counts)@, x) == 0,
    {
        proof {
            let k = choose|k: int| 0 <= k < list.len() && list[k] == me;
            assert(self.nodes().contains_key(list[k]));
            lemma_push_contains(done, me);
        }
        let preds: Vec<usize> = self.linked(Direction::Past, me);
        assert(preds@ == preds_of(self.nodes(), me));
        let ghost before = counts@;
        let mut j: usize = 0;
        assert(preds@.take(0) =~= seq![]);
        while j < preds.len()
            invariant
                j <= preds.len(),
                before == old(counts)@,
                arena_wf(self.nodes()),
                self.has(me),
                all_nodes(self.nodes(), list),
                list.no_duplicates(),
                list.contains(me),
                !done.contains(me),
                preds@ == preds_of(self.nodes(), me),
                forall|x: usize| #[trigger] done.push(me).contains(x) <==> done.contains(x) || x
                    == me,
                forall|x: usize| #[trigger]
                    index_set@.contains(x) ==> count_of(before, x) == list_sum(
                        list,
                        open_links(self.nodes(), done, x),
                    ),
                forall|x: usize|
                    index_set@.contains(x) && #[trigger] done.contains(x) ==> count_of(before, x)
                        == 0,
                forall|x: usize| #[trigger]
                    index_set@.contains(x) ==> count_of(counts@, x) == count_of(before, x)
                        - occurrences(preds@.take(j as int), x),
                candidates@.no_duplicates(),
                forall|x: usize| #[trigger]
                    candidates@.contains(x) <==> index_set@.contains(x) && !done.push(
                        me,
                    ).contains(x) && count_of(counts@, x) == 0,
            decreases preds.len() - j,
        {
            let p: usize = preds[j];
            let ghost mid = counts@;
            let ghost held = candidates@;
            if index_set.contains(p) {
                proof {
                    lemma_close_links(self.nodes(), list, done, me, p);
                    lemma_no_open_links(self.nodes(), list, done.push(me), p);
                    lemma_occurrences_next(preds@, j as int, p);
                    lemma_occurrences_grow(preds@, j + 1, p);
                    lemma_pred_older(self.nodes(), me, j as int);
                    assert(count_of(mid, p) >= 1);
                    assert(count_of(before, p) >= 1);
                    assert(!done.contains(p));
                    assert(!held.contains(p));
                }
                let c: u128 = match counts.get(&p) {
                    Some(c) => *c,
                    None => 0,
                };
                counts.insert(p, c - 1);
                if c == 1 {
                    candidates.push(p);
                    proof {
                        lemma_push_contains(held, p);
                    }
                }
            }
            proof {
                assert forall|x: usize| #[trigger] index_set@.contains(x) implies count_of(
                    counts@,
                    x,
                ) == count_of(before, x) - occurrences(preds@.take(j + 1), x) by {
                    lemma_occurrences_next(preds@, j as int, x);
                    assert(count_of(mid, x) == count_of(before, x) - occurrences(
                        preds@.take(j as int),
                        x,
                    ));
                }
            }
            j = j + 1;
        }
        proof {
            assert(preds@.take(j as int) =~= preds@);
            assert forall|x: usize| #[trigger] index_set@.contains(x) implies count_of(counts@, x)
                == list_sum(list, open_links(self.nodes(), done.push(me), x)) by {
                lemma_close_links(self.nodes(), list, done, me, x);
            }
        }
    }

    /// The blocks of a set in execution order: parents and referees come first, and of the blocks
    /// that can come last the one with the greatest hash does.
    pub fn topological_sort(&self, index_set: &IndexSet) -> (r: Vec<usize>)
        requires
            self.wf(),
            index_set@.subset_of(self.nodes().dom()),
        ensures
            is_topo_order(self.nodes(), index_set@, r@),
    {
        let list: Vec<usize> = index_set.to_vec();
        proof {
            assert forall|i: int| 0 <= i < list@.len() implies self.nodes().contains_key(
                #[trigger] list@[i],
            ) by {
                assert(list@.to_set().contains(list@[i]));
            }
            assert forall|x: usize| #[trigger] index_set@.contains(x) <==> list@.contains(x) by {
                assert(list@.to_set().contains(x) <==> list@.contains(x));
            }
        }
        let mut counts: HashMap<usize, u128> = self.count_links(index_set, &list);
        let mut candidates: Vec<usize> = Vec::new();
        let mut i: usize = 0;
        while i < list.len()
            invariant
                i <= list.len(),
                list@.no_duplicates(),
                candidates@.no_duplicates(),
                forall|x: usize| #[trigger]
                    candidates@.contains(x) <==> list@.take(i as int).contains(x) && count_of(
                        counts@,
                        x,
                    ) == 0,
            decreases list.len() - i,
        {
            let x: usize = list[i];
            let ghost held = candidates@;
            proof {
                let before = list@.take(i as int);
                assert(list@.take(i + 1) =~= before.push(x));
                lemma_push_contains(before, x);
                lemma_push_contains(held, x);
                if before.contains(x) {
                    let k = choose|k: int| 0 <= k < before.len() && before[k] == x;
                    assert(list@[k] == list@[i as int]);
                }
                assert(!held.contains(x));
            }
            let c: u128 = match counts.get(&x) {
                Some(c) => *c,
                None => 0,
            };
            if c == 0 {
                candidates.push(x);
            }
            i = i + 1;
        }
        assert(list@.take(i as int) =~= list@);
        let mut reversed_indices: Vec<usize> = Vec::new();
        while candidates.len() > 0
            invariant
                self.wf(),
                all_nodes(self.nodes(), list@),
                list@.no_duplicates(),
                forall|x: usize| #[trigger] index_set@.contains(x) <==> list@.contains(x),
                reversed_indices@.no_duplicates(),
                forall|x: usize| #[trigger] reversed_indices@.contains(x) ==> index_set@.contains(x),
                reversed_indices@.len() <= list@.len(),
                taken_in_order(self.nodes(), index_set@, reversed_indices@),
                forall|x: usize| #[trigger]
                    index_set@.contains(x) ==> count_of(counts@, x) == list_sum(
                        list@,
                        open_links(self.nodes(), reversed_indices@, x),
                    ),
                forall|x: usize|
                    index_set@.contains(x) && #[trigger] reversed_indices@.contains(x) ==> count_of(
                        counts@,
                        x,
                    ) == 0,
                candidates@.no_duplicates(),
                forall|x: usize| #[trigger]
                    candidates@.contains(x) <==> index_set@.contains(x)
                        && !reversed_indices@.contains(x) && count_of(counts@, x) == 0,
            decreases list@.len() - reversed_indices@.len(),
        {
            let ghost done = reversed_indices@;
            let ghost held = candidates@;
            let ghost old_counts = counts@;
            proof {
                assert forall|k: int| 0 <= k < held.len() implies self.nodes().contains_key(
                    #[trigger] held[k],
                ) by {
                    assert(held.contains(held[k]));
                    assert(list@.contains(held[k]));
                    let m = choose|m: int| 0 <= m < list@.len() && list@[m] == held[k];
                    assert(self.nodes().contains_key(list@[m]));
                }
            }
            let best: usize = self.foremost(&candidates);
            assert(held.contains(held[best as int]));
            let me: usize = candidates.remove(best);
            proof {
                lemma_remove_contains(held, best as int);
                lemma_push_contains(done, me);
                assert forall|x: usize| #[trigger] available(self.nodes(), index_set@, done, x)
                    <==> held.contains(x) by {
                    lemma_no_open_links(self.nodes(), list@, done, x);
                    if available(self.nodes(), index_set@, done, x) {
                        assert forall|u: usize| list@.contains(u) && #[trigger] is_pred(
                            self.nodes(),
                            u,
                            x,
                        ) implies done.contains(u) by {
                            assert(index_set@.contains(u));
                        }
                    }
                    if held.contains(x) {
                        assert forall|u: usize| index_set@.contains(u) && #[trigger] is_pred(
                            self.nodes(),
                            u,
                            x,
                        ) implies done.contains(u) by {
                            assert(list@.contains(u));
                        }
                    }
                }
                lemma_take_more(self.nodes(), index_set@, done, me);
                lemma_shorter(done.push(me), list@);
            }
            self.take_block(
                index_set,
                me,
                &mut counts,
                &mut candidates,
                Ghost(list@),
                Ghost(done),
            );
            reversed_indices.push(me);
            proof {
                assert forall|x: usize|
                    index_set@.contains(x) && #[trigger] done.push(me).contains(x) implies count_of(
                    counts@,
                    x,
                ) == 0 by {
                    assert(count_of(old_counts, x) == 0);
                    lemma_no_open_links(self.nodes(), list@, done.push(me), x);
                }
            }
        }
        proof {
            if exists|x: usize| list@.contains(x) && !reversed_indices@.contains(x) {
                let y = lemma_youngest_left(self.nodes(), list@, reversed_indices@);
                lemma_no_open_links(self.nodes(), list@, reversed_indices@, y);
                assert forall|u: usize| list@.contains(u) && #[trigger] is_pred(
                    self.nodes(),
                    u,
                    y,
                ) implies reversed_indices@.contains(u) by {
                    let k = choose|k: int| 0 <= k < list@.len() && list@[k] == u;
                    assert(self.nodes().contains_key(list@[k]));
                    lemma_is_pred_older(self.nodes(), u, y);
                }
                assert(index_set@.contains(y));
                assert(candidates@.contains(y));
            }
            assert(reversed_indices@.to_set() =~= index_set@);
        }
        let r: Vec<usize> = reversed(&reversed_indices);
        proof {
            assert(r@.reverse() =~= reversed_indices@);
            lemma_reverse_same(reversed_indices@);
        }
        r
    }
}

proof fn lemma_take_more(
    nodes: Map<usize, ConsensusGraphNode>,
    set: Set<usize>,
    done: Seq<usize>,
    me: usize,
)
    requires
        taken_in_order(nodes, set, done),
        available(nodes, set, done, me),
        forall|c: usize| c != me && #[trigger] available(nodes, set, done, c) ==> taken_first(
            nodes,
            me,
            c,
        ),
    ensures
        taken_in_order(nodes, set, done.push(me)),
{
    let next = done.push(me);
    assert forall|i: int| 0 <= i < next.len() implies available(
        nodes,
        set,
        #[trigger] next.take(i),
        next[i],
    ) && (forall|c: usize|
        c != next[i] && #[trigger] available(nodes, set, next.take(i), c) ==> taken_first(
            nodes,
            next[i],
            c,
        )) by {
        assert(next.take(i) =~= done.take(i));
        if i == done.len() {
            assert(done.take(i) =~= done);
        }
    }
}

/// A list without repetition is no longer than a list that holds all its items.
proof fn lemma_shorter(a: Seq<usize>, b: Seq<usize>)
    requires
        a.no_duplicates(),
        b.no_duplicates(),
        forall|x: usize| #[trigger] a.contains(x) ==> b.contains(x),
    ensures
        a.len() <= b.len(),
{
    a.unique_seq_to_set();
    b.unique_seq_to_set();
    vstd::seq_lib::seq_to_set_is_finite(b);
    assert(a.to_set().subset_of(b.to_set()));
    vstd::set_lib::lemma_len_subset(a.to_set(), b.to_set());
}

/// A parent or referee is older.
pub proof fn lemma_is_pred_older(nodes: Map<usize, ConsensusGraphNode>, u: usize, v: usize)
    requires
        arena_wf(nodes),
        nodes.contains_key(u),
        is_pred(nodes, u, v),
    ensures
        nodes.contains_key(v),
        nodes[v].data.sequence_number < nodes[u].data.sequence_number,
{
    assert(links_wf(nodes, nodes[u]));
    if nodes[u].referees@.contains(v) {
        let k = choose|k: int| 0 <= k < nodes[u].referees@.len() && nodes[u].referees@[k] == v;
        assert(nodes.contains_key(nodes[u].referees@[k]));
    }
}

proof fn lemma_reverse_same(s: Seq<usize>)
    requires
        s.no_duplicates(),
    ensures
        s.reverse().no_duplicates(),
        s.reverse().to_set() == s.to_set(),
{
    let r = s.reverse();
    assert forall|i: int, j: int| 0 <= i < j < r.len() implies r[i] != r[j] by {
        assert(s[s.len() - 1 - i] != s[s.len() - 1 - j]);
    }
    assert forall|x: usize| r.to_set().contains(x) <==> s.to_set().contains(x) by {
        if r.contains(x) {
            let k = choose|k: int| 0 <= k < r.len() && r[k] == x;
            assert(s[s.len() - 1 - k] == x);
        }
        if s.contains(x) {
            let k = choose|k: int| 0 <= k < s.len() && s[k] == x;
            assert(r[s.len() - 1 - k] == x);
        }
    }
    assert(r.to_set() =~= s.to_set());
}

/// The execution order depends on hashes, parents and referees alone.
pub proof fn lemma_topo_same(
    a: Map<usize, ConsensusGraphNode>,
    b: Map<usize, ConsensusGraphNode>,
    set: Set<usize>,
    list: Seq<usize>,
)
    requires
        is_topo_order(a, set, list),
        forall|i: usize| #[trigger]
            set.contains(i) ==> a[i].hash == b[i].hash && a[i].parent == b[i].parent
                && a[i].referees@ == b[i].referees@,
    ensures
        is_topo_order(b, set, list),
{
    let rev = list.reverse();
    assert forall|i: int| 0 <= i < rev.len() implies available(
        b,
        set,
        #[trigger] rev.take(i),
        rev[i],
    ) && (forall|c: usize|
        c != rev[i] && #[trigger] available(b, set, rev.take(i), c) ==> taken_first(
            b,
            rev[i],
            c,
        )) by {
        lemma_available_same(a, b, set, rev.take(i), rev[i]);
        assert(available(a, set, rev.take(i), rev[i]));
        assert forall|c: usize|
            c != rev[i] && #[trigger] available(b, set, rev.take(i), c) implies taken_first(
            b,
            rev[i],
            c,
        ) by {
            lemma_available_same(b, a, set, rev.take(i), c);
            assert(taken_first(a, rev[i], c));
        }
    }
}

proof fn lemma_available_same(
    a: Map<usize, ConsensusGraphNode>,
    b: Map<usize, ConsensusGraphNode>,
    set: Set<usize>,
    done: Seq<usize>,
    x: usize,
)
    requires
        forall|i: usize| #[trigger]
            set.contains(i) ==> a[i].parent == b[i].parent && a[i].referees@ == b[i].referees@,
    ensures
        available(a, set, done, x) ==> available(b, set, done, x),
{
    if available(a, set, done, x) {
        assert forall|u: usize| set.contains(u) && #[trigger] is_pred(b, u, x) implies done.contains(
            u,
        ) by {
            assert(is_pred(a, u, x));
        }
    }
}

/// In the execution order no block comes before its parent or a referee.
pub proof fn law_topo_order_links(
    nodes: Map<usize, ConsensusGraphNode>,
    set: Set<usize>,
    list: Seq<usize>,
    i: int,
    j: int,
)
    requires
        is_topo_order(nodes, set, list),
        0 <= i < list.len(),
        0 <= j < list.len(),
        is_pred(nodes, list[i], list[j]),
        list[i] != list[j],
    ensures
        j < i,
{
    let rev = list.reverse();
    let n = list.len() as int;
    let b = n - 1 - j;
    assert(rev[b] == list[j]);
    assert(available(nodes, set, rev.take(b), rev[b]));
    assert(list.to_set().contains(list[i])) by {
        assert(list.contains(list[i]));
    }
    assert(rev.take(b).contains(list[i]));
    let before = rev.take(b);
    let k = choose|k: int| 0 <= k < before.len() && before[k] == list[i];
    assert(list[n - 1 - k] == list[i]);
}

/// In the execution order a block comes after each earlier one that no block up to there links to
/// because of its hash: it has the greater one, or an equal one and the greater index.
pub proof fn law_topo_order_by_hash(
    nodes: Map<usize, ConsensusGraphNode>,
    set: Set<usize>,
    list: Seq<usize>,
    i: int,
    j: int,
)
    requires
        is_topo_order(nodes, set, list),
        0 <= i < j < list.len(),
        forall|k: int| 0 <= k <= j ==> !is_pred(nodes, #[trigger] list[k], list[i]),
    ensures
        nodes[list[j]].hash.value() > nodes[list[i]].hash.value() || (nodes[list[j]].hash.value()
            == nodes[list[i]].hash.value() && list[j] > list[i]),
{
    let rev = list.reverse();
    let n = list.len() as int;
    let b = n - 1 - j;
    let done = rev.take(b);
    assert(rev[b] == list[j]);
    assert(available(nodes, set, rev.take(b), rev[b]));
    assert(list.to_set().contains(list[i])) by {
        assert(list.contains(list[i]));
    }
    assert(!done.contains(list[i])) by {
        if done.contains(list[i]) {
            let k = choose|k: int| 0 <= k < done.len() && done[k] == list[i];
            assert(list[n - 1 - k] == list[i]);
        }
    }
    assert forall|u: usize| set.contains(u) && #[trigger] is_pred(
        nodes,
        u,
        list[i],
    ) implies done.contains(u) by {
        assert(list.to_set().contains(u));
        let k = choose|k: int| 0 <= k < list.len() && list[k] == u;
        assert(done[n - 1 - k] == u);
    }
    assert(available(nodes, set, done, list[i]));
}

/// A set of blocks has only one execution order.
pub proof fn law_topo_order_unique(
    nodes: Map<usize, ConsensusGraphNode>,
    set: Set<usize>,
    a: Seq<usize>,
    b: Seq<usize>,
)
    requires
        is_topo_order(nodes, set, a),
        is_topo_order(nodes, set, b),
    ensures
        a == b,
{
    let ra = a.reverse();
    let rb = b.reverse();
    a.unique_seq_to_set();
    b.unique_seq_to_set();
    assert(a.len() == b.len());
    lemma_same_prefix(nodes, set, ra, rb, a.len() as int);
    assert(ra.take(a.len() as int) =~= ra);
    assert(rb.take(a.len() as int) =~= rb);
    assert forall|i: int| 0 <= i < a.len() implies a[i] == b[i] by {
        assert(ra[a.len() - 1 - i] == rb[a.len() - 1 - i]);
    }
    assert(a =~= b);
}

proof fn lemma_same_prefix(
    nodes: Map<usize, ConsensusGraphNode>,
    set: Set<usize>,
    a: Seq<usize>,
    b: Seq<usize>,
    n: int,
)
    requires
        taken_in_order(nodes, set, a),
        taken_in_order(nodes, set, b),
        0 <= n <= a.len(),
        a.len() == b.len(),
    ensures
        a.take(n) == b.take(n),
    decreases n,
{
    if n > 0 {
        lemma_same_prefix(nodes, set, a, b, n - 1);
        assert(available(nodes, set, a.take(n - 1), a[n - 1]));
        assert(available(nodes, set, b.take(n - 1), b[n - 1]));
        assert(a.take(n) =~= a.take(n - 1).push(a[n - 1]));
        assert(b.take(n) =~= b.take(n - 1).push(b[n - 1]));
        if a[n - 1] != b[n - 1] {
            assert(taken_first(nodes, a[n - 1], b[n - 1]));
            assert(taken_first(nodes, b[n - 1], a[n - 1]));
        }
    } else {
        assert(a.take(n) =~= b.take(n));
    }
}

} // verus!
