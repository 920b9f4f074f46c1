//! Reachability along the links of the graph.
use vstd::prelude::*;

use crate::graph::{all_nodes, arena_wf, links_wf, ConsensusGraphInner};
use crate::index_set::{index_limit, lemma_bounded_set, IndexSet};
use crate::node::{arena_get, ConsensusGraphNode};
use crate::types::NULL;

verus! {

/// Whether `v` is reached in exactly `n` steps from one of `from`.
pub open spec fn reaches_in(
    edge: spec_fn(usize, usize) -> bool,
    from: Set<usize>,
    v: usize,
    n: nat,
) -> bool
    decreases n,
{
    if n == 0 {
        from.contains(v)
    } else {
        exists|u: usize| #[trigger]
            edge(u, v) && reaches_in(edge, from, u, (n - 1) as nat)
    }
}

/// Whether `v` is reached from one of `from`.
pub open spec fn reaches(
    edge: spec_fn(usize, usize) -> bool,
    from: Set<usize>,
    v: usize,
) -> bool {
    exists|n: nat| reaches_in(edge, from, v, n)
}

/// Everything that is reached from `from`, `from` included.
pub open spec fn reach_set(edge: spec_fn(usize, usize) -> bool, from: Set<usize>) -> Set<usize> {
    Set::new(|v: usize| reaches(edge, from, v))
}

/// What one starts from is reached.
pub proof fn lemma_reach_seed(edge: spec_fn(usize, usize) -> bool, from: Set<usize>, v: usize)
    requires
        from.contains(v),
    ensures
        reaches(edge, from, v),
{
    assert(reaches_in(edge, from, v, 0));
}

/// A step leads from what is reached to what is reached.
pub proof fn lemma_reach_step(
    edge: spec_fn(usize, usize) -> bool,
    from: Set<usize>,
    u: usize,
    v: usize,
)
    requires
        reaches(edge, from, u),
        edge(u, v),
    ensures
        reaches(edge, from, v),
{
    let n = choose|n: nat| reaches_in(edge, from, u, n);
    assert(reaches_in(edge, from, u, ((n + 1) - 1) as nat));
    assert(reaches_in(edge, from, v, n + 1));
}

proof fn lemma_reach_closed_in(
    edge: spec_fn(usize, usize) -> bool,
    from: Set<usize>,
    s: Set<usize>,
    v: usize,
    n: nat,
)
    requires
        from.subset_of(s),
        forall|a: usize, b: usize| s.contains(a) && #[trigger] edge(a, b) ==> s.contains(b),
        reaches_in(edge, from, v, n),
    ensures
        s.contains(v),
    decreases n,
{
    if n > 0 {
        let u = choose|u: usize| #[trigger]
            edge(u, v) && reaches_in(edge, from, u, (n - 1) as nat);
        lemma_reach_closed_in(edge, from, s, u, (n - 1) as nat);
    }
}

/// A set that holds the start and is closed under steps holds all that is reached.
pub proof fn lemma_reach_closed(
    edge: spec_fn(usize, usize) -> bool,
    from: Set<usize>,
    s: Set<usize>,
)
    requires
        from.subset_of(s),
        forall|a: usize, b: usize| s.contains(a) && #[trigger] edge(a, b) ==> s.contains(b),
    ensures
        reach_set(edge, from).subset_of(s),
{
    assert forall|v: usize| reach_set(edge, from).contains(v) implies s.contains(v) by {
        let n = choose|n: nat| reaches_in(edge, from, v, n);
        lemma_reach_closed_in(edge, from, s, v, n);
    }
}

/// Two sets of steps that agree wherever one can get to reach the same.
pub proof fn lemma_reach_same(
    e1: spec_fn(usize, usize) -> bool,
    e2: spec_fn(usize, usize) -> bool,
    from: Set<usize>,
)
    requires
        forall|a: usize, b: usize|
            reaches(e1, from, a) ==> #[trigger] e1(a, b) == #[trigger] e2(a, b),
    ensures
        reach_set(e1, from) == reach_set(e2, from),
{
    let s1 = reach_set(e1, from);
    let s2 = reach_set(e2, from);
    assert forall|v: usize| from.contains(v) implies s1.contains(v) && s2.contains(v) by {
        lemma_reach_seed(e1, from, v);
        lemma_reach_seed(e2, from, v);
    }
    assert forall|a: usize, b: usize| s1.contains(a) && #[trigger] e2(a, b) implies s1.contains(
        b,
    ) by {
        assert(e1(a, b));
        lemma_reach_step(e1, from, a, b);
    }
    lemma_reach_closed(e2, from, s1);
    assert forall|a: usize, b: usize| s1.intersect(s2).contains(a) && #[trigger] e1(
        a,
        b,
    ) implies s1.intersect(s2).contains(b) by {
        assert(e2(a, b));
        lemma_reach_step(e1, from, a, b);
        lemma_reach_step(e2, from, a, b);
    }
    lemma_reach_closed(e1, from, s1.intersect(s2));
    assert(s1 =~= s2);
}

/// Which way links are followed.
#[derive(Clone, Copy)]
pub enum Direction {
    /// To the parent and the referees.
    Past,
    /// To the children and the referrers.
    Future,
    /// To the children alone.
    Children,
}

/// Which blocks may be stepped on.
#[derive(Clone, Copy)]
pub enum Filter<'a> {
    /// The activated ones.
    Activated,
    /// Those with an epoch number above this.
    EpochAfter(u64),
    /// Those in a set.
    Inside(&'a IndexSet),
    /// Those not in a set.
    Outside(&'a IndexSet),
}

/// Whether `v` is the parent or a referee of `u`.
pub open spec fn is_pred(nodes: Map<usize, ConsensusGraphNode>, u: usize, v: usize) -> bool {
    (v != NULL && nodes[u].parent == v) || nodes[u].referees@.contains(v)
}

/// Whether `v` is a child or a referrer of `u`.
pub open spec fn is_succ(nodes: Map<usize, ConsensusGraphNode>, u: usize, v: usize) -> bool {
    nodes[u].children@.contains(v) || nodes[u].referrers@.contains(v)
}

/// Whether a link leads from `u` to `v`.
pub open spec fn is_link(
    nodes: Map<usize, ConsensusGraphNode>,
    direction: Direction,
    u: usize,
    v: usize,
) -> bool {
    match direction {
        Direction::Past => is_pred(nodes, u, v),
        Direction::Future => is_succ(nodes, u, v),
        Direction::Children => nodes[u].children@.contains(v),
    }
}

/// Whether `v` may be stepped on.
pub open spec fn admits(
    nodes: Map<usize, ConsensusGraphNode>,
    filter: Filter<'_>,
    v: usize,
) -> bool {
    match filter {
        Filter::Activated => nodes[v].data.activated,
        Filter::EpochAfter(epoch) => nodes[v].data.epoch_number > epoch,
        Filter::Inside(s) => s@.contains(v),
        Filter::Outside(s) => !s@.contains(v),
    }
}

/// The steps along links to blocks that may be stepped on.
pub open spec fn steps(
    nodes: Map<usize, ConsensusGraphNode>,
    direction: Direction,
    filter: Filter<'_>,
) -> spec_fn(usize, usize) -> bool {
    |u: usize, v: usize| is_link(nodes, direction, u, v) && admits(nodes, filter, v)
}

/// The steps to parents and referees outside a set.
pub open spec fn past_steps_outside(
    nodes: Map<usize, ConsensusGraphNode>,
    avoid: Set<usize>,
) -> spec_fn(usize, usize) -> bool {
    |u: usize, v: usize| is_pred(nodes, u, v) && !avoid.contains(v)
}

/// What is reached from `from` going into the past outside a set.
pub open spec fn past_outside(
    nodes: Map<usize, ConsensusGraphNode>,
    avoid: Set<usize>,
    from: Set<usize>,
) -> Set<usize> {
    reach_set(past_steps_outside(nodes, avoid), from)
}

/// A block, all its ancestors, what they refer to, and so on.
pub open spec fn past_of(nodes: Map<usize, ConsensusGraphNode>, v: usize) -> Set<usize> {
    past_outside(nodes, Set::empty(), set![v])
}

/// Nodes without repetition are no more than there can be indices.
pub proof fn lemma_nodes_count(nodes: Map<usize, ConsensusGraphNode>, list: Seq<usize>)
    requires
        arena_wf(nodes),
        all_nodes(nodes, list),
        list.no_duplicates(),
    ensures
        list.len() <= index_limit(),
{
    let s = list.to_set();
    assert forall|i: usize| s.contains(i) implies i < index_limit() by {
        let k = choose|k: int| 0 <= k < list.len() && list[k] == i;
        assert(nodes.contains_key(list[k]));
    }
    lemma_bounded_set(s, index_limit());
    list.unique_seq_to_set();
}

/// What is reached from nodes are nodes.
pub proof fn lemma_reach_nodes(
    nodes: Map<usize, ConsensusGraphNode>,
    direction: Direction,
    filter: Filter<'_>,
    from: Set<usize>,
)
    requires
        arena_wf(nodes),
        from.subset_of(nodes.dom()),
    ensures
        reach_set(steps(nodes, direction, filter), from).subset_of(nodes.dom()),
{
    let edge = steps(nodes, direction, filter);
    assert forall|a: usize, b: usize| nodes.dom().contains(a) && #[trigger] edge(
        a,
        b,
    ) implies nodes.dom().contains(b) by {
        assert(nodes.contains_key(a));
        assert(links_wf(nodes, nodes[a]));
    }
    lemma_reach_closed(edge, from, nodes.dom());
}

impl ConsensusGraphInner {
    /// The blocks that links lead to.
    pub(crate) fn linked(&self, direction: Direction, index: usize) -> (r: Vec<usize>)
        requires
            arena_wf(self.nodes()),
            self.has(index),
        ensures
            forall|v: usize| #[trigger]
                r@.contains(v) <==> is_link(self.nodes(), direction, index, v),
            all_nodes(self.nodes(), r@),
            direction is Past ==> r@ == (if self.node(index).parent == NULL {
                seq![]
            } else {
                seq![self.node(index).parent]
            }) + self.node(index).referees@,
            direction is Future ==> r@ == self.node(index).children@ + self.node(index).referrers@,
    {
        let node: &ConsensusGraphNode = arena_get(&self.arena, index);
        let mut r: Vec<usize>;
        let second: &Vec<usize>;
        let none: Vec<usize> = Vec::new();
        match direction {
            Direction::Past => {
                r = Vec::new();
                if node.parent != NULL {
                    r.push(node.parent);
                }
                second = &node.referees;
            },
            Direction::Future => {
                r = crate::block_data::copy_indices(&node.children);
                second = &node.referrers;
            },
            Direction::Children => {
                r = crate::block_data::copy_indices(&node.children);
                second = &none;
            },
        }
        let ghost first = r@;
        let mut i: usize = 0;
        while i < second.len()
            invariant
                i <= second.len(),
                r@ == first + second@.take(i as int),
            decreases second.len() - i,
        {
            r.push(second[i]);
            i = i + 1;
            assert(second@.take(i as int) =~= second@.take(i - 1).push(second@[i - 1]));
            assert(r@ =~= first + second@.take(i as int));
        }
        proof {
            assert(second@.take(i as int) =~= second@);
            assert(r@ == first + second@);
            assert forall|v: usize| #[trigger] r@.contains(v) <==> is_link(
                self.nodes(),
                direction,
                index,
                v,
            ) by {
                assert(first.contains(v) ==> (direction is Past ==> v != NULL
                    && self.node(index).parent == v));
                if is_link(self.nodes(), direction, index, v) {
                    if second@.contains(v) {
                        let k = choose|k: int| 0 <= k < second@.len() && second@[k] == v;
                        assert(r@[first.len() + k] == v);
                    } else if direction is Past {
                        assert(first[0] == v);
                        assert(r@[0] == v);
                    } else {
                        let k = choose|k: int| 0 <= k < first.len() && first[k] == v;
                        assert(r@[k] == v);
                    }
                }
                if r@.contains(v) {
                    let k = choose|k: int| 0 <= k < r@.len() && r@[k] == v;
                    if k < first.len() {
                        assert(first[k] == v);
                    } else {
                        assert(second@[k - first.len()] == v);
                    }
                }
            }
            assert(links_wf(self.nodes(), self.node(index)));
        }
        r
    }

    fn admitted(&self, filter: Filter<'_>, index: usize) -> (r: bool)
        requires
            self.has(index),
        ensures
            r == admits(self.nodes(), filter, index),
    {
        match filter {
            Filter::Activated => arena_get(&self.arena, index).data.activated,
            Filter::EpochAfter(epoch) => arena_get(&self.arena, index).data.epoch_number > epoch,
            Filter::Inside(s) => s.contains(index),
            Filter::Outside(s) => !s.contains(index),
        }
    }

    /// Walks the graph from `seeds` breadth first and returns what was met, in that order.
    pub(crate) fn traverse(
        &self,
        direction: Direction,
        filter: Filter<'_>,
        seeds: &Vec<usize>,
    ) -> (r: (IndexSet, Vec<usize>))
        requires
            arena_wf(self.nodes()),
            all_nodes(self.nodes(), seeds@),
        ensures
            r.0@ == reach_set(steps(self.nodes(), direction, filter), seeds@.to_set()),
            r.1@.to_set() == r.0@,
            r.1@.no_duplicates(),
            all_nodes(self.nodes(), r.1@),
    {
        let ghost edge = steps(self.nodes(), direction, filter);
        let ghost from = seeds@.to_set();
        let mut visited: IndexSet = IndexSet::new();
        let mut order: Vec<usize> = Vec::new();
        let mut i: usize = 0;
        while i < seeds.len()
            invariant
                i <= seeds.len(),
                arena_wf(self.nodes()),
                all_nodes(self.nodes(), seeds@),
                from == seeds@.to_set(),
                order@.no_duplicates(),
                all_nodes(self.nodes(), order@),
                forall|v: usize| #[trigger] visited@.contains(v) <==> order@.contains(v),
                forall|v: usize| #[trigger] order@.contains(v) ==> reaches(edge, from, v),
                forall|k: int| 0 <= k < i ==> order@.contains(#[trigger] seeds@[k]),
            decreases seeds.len() - i,
        {
            let s: usize = seeds[i];
            let ghost before = order@;
            assert(from.contains(s)) by {
                assert(seeds@.contains(seeds@[i as int]));
            }
            if !visited.contains(s) {
                assert(self.nodes().contains_key(s));
                visited.add(s);
                order.push(s);
                proof {
                    lemma_reach_seed(edge, from, s);
                    lemma_push_contains(before, s);
                }
            }
            i = i + 1;
        }
        let mut head: usize = 0;
        assert(all_nodes(self.nodes(), order@));
        while head < order.len()
            invariant
                head <= order.len(),
                arena_wf(self.nodes()),
                edge == steps(self.nodes(), direction, filter),
                from == seeds@.to_set(),
                order@.no_duplicates(),
                all_nodes(self.nodes(), order@),
                forall|v: usize| #[trigger] visited@.contains(v) <==> order@.contains(v),
                forall|v: usize| #[trigger] order@.contains(v) ==> reaches(edge, from, v),
                forall|k: int| 0 <= k < seeds@.len() ==> order@.contains(#[trigger] seeds@[k]),
                forall|k: int, v: usize|
                    0 <= k < head && #[trigger] edge(order@[k], v) ==> order@.contains(v),
            decreases index_limit() - head,
        {
            let index: usize = order[head];
            assert(self.nodes().contains_key(order@[head as int]));
            assert(order@.contains(index));
            let next: Vec<usize> = self.linked(direction, index);
            let ghost start = order@;
            proof {
                lemma_nodes_count(self.nodes(), order@);
            }
            let mut j: usize = 0;
            while j < next.len()
                invariant
                    j <= next.len(),
                    head < start.len(),
                    start[head as int] == index,
                    arena_wf(self.nodes()),
                    edge == steps(self.nodes(), direction, filter),
                    from == seeds@.to_set(),
                    reaches(edge, from, index),
                    forall|v: usize| #[trigger]
                        next@.contains(v) <==> is_link(self.nodes(), direction, index, v),
                    all_nodes(self.nodes(), next@),
                    order@.no_duplicates(),
                    all_nodes(self.nodes(), order@),
                    start.len() <= order@.len(),
                    forall|k: int| 0 <= k < start.len() ==> #[trigger] order@[k] == start[k],
                    forall|v: usize| #[trigger] visited@.contains(v) <==> order@.contains(v),
                    forall|v: usize| #[trigger] order@.contains(v) ==> reaches(edge, from, v),
                    forall|v: usize| start.contains(v) ==> #[trigger] order@.contains(v),
                    forall|k: int|
                        0 <= k < j && admits(self.nodes(), filter, next@[k]) ==> order@.contains(
                            #[trigger] next@[k],
                        ),
                decreases next.len() - j,
            {
                let v: usize = next[j];
                let ghost before = order@;
                assert(self.nodes().contains_key(next@[j as int]));
                assert(next@.contains(v));
                if !visited.contains(v) && self.admitted(filter, v) {
                    visited.add(v);
                    order.push(v);
                    proof {
                        assert(edge(index, v));
                        lemma_reach_step(edge, from, index, v);
                        lemma_push_contains(before, v);
                    }
                }
                j = j + 1;
            }
            proof {
                assert forall|k: int, v: usize|
                    0 <= k < head + 1 && #[trigger] edge(order@[k], v) implies order@.contains(
                    v,
                ) by {
                    if k < head {
                        assert(edge(start[k], v));
                    } else {
                        assert(next@.contains(v));
                        let m = choose|m: int| 0 <= m < next@.len() && next@[m] == v;
                        assert(admits(self.nodes(), filter, next@[m]));
                    }
                }
                assert forall|k: int| 0 <= k < seeds@.len() implies order@.contains(
                    #[trigger] seeds@[k],
                ) by {
                    assert(start.contains(seeds@[k]));
                }
            }
            head = head + 1;
        }
        proof {
            let s = order@.to_set();
            assert forall|v: usize| from.contains(v) implies s.contains(v) by {
                let k = choose|k: int| 0 <= k < seeds@.len() && seeds@[k] == v;
                assert(order@.contains(seeds@[k]));
            }
            assert forall|a: usize, b: usize| s.contains(a) && #[trigger] edge(
                a,
                b,
            ) implies s.contains(b) by {
                let k = choose|k: int| 0 <= k < order@.len() && order@[k] == a;
                assert(edge(order@[k], b));
            }
            lemma_reach_closed(edge, from, s);
            assert(visited@ =~= s);
            assert(visited@ =~= reach_set(edge, from));
        }
        (visited, order)
    }

    /// The activated blocks that can be reached from `me` by children and referrers.
    pub open spec fn activated_future(&self, me: usize) -> Set<usize> {
        reach_set(
            steps(self.nodes(), Direction::Future, Filter::Activated),
            set![me],
        ).remove(me)
    }

    /// The activated blocks in the future of `me`, without `me`.
    pub fn compute_future_bitset(&self, me: usize) -> (r: IndexSet)
        requires
            self.wf(),
            self.has(me),
        ensures
            r@ == self.activated_future(me),
    {
        let mut seeds: Vec<usize> = Vec::new();
        seeds.push(me);
        assert(seeds@.to_set() =~= set![me]) by {
            assert(seeds@[0] == me);
        }
        let (mut visited, _) = self.traverse(Direction::Future, Filter::Activated, &seeds);
        visited.remove(me);
        visited
    }
}

/// What a list holds after something was added at its end.
pub proof fn lemma_push_contains<A>(s: Seq<A>, a: A)
    ensures
        forall|x: A| #[trigger] s.push(a).contains(x) <==> s.contains(x) || x == a,
        s.push(a).contains(a),
{
    assert forall|x: A| #[trigger] s.push(a).contains(x) <==> s.contains(x) || x == a by {
        if s.contains(x) {
            let k = choose|k: int| 0 <= k < s.len() && s[k] == x;
            assert(s.push(a)[k] == x);
        }
        if x == a {
            assert(s.push(a)[s.len() as int] == x);
        }
        if s.push(a).contains(x) {
            let k = choose|k: int| 0 <= k < s.push(a).len() && s.push(a)[k] == x;
            if k < s.len() {
                assert(s[k] == x);
            }
        }
    }
    assert(s.push(a)[s.len() as int] == a);
}

} // verus!
