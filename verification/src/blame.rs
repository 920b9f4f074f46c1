//! Blame: which headers the subtree of a block holds for wrong.
use std::collections::HashMap;

use vstd::prelude::*;

use crate::graph::{
    all_nodes, arena_parents, arena_wf, children_wf, links_wf, ConsensusGraphInner,
};
use crate::index_set::index_limit;
use crate::lineage::{ancestor, parent_of};
use crate::node::{arena_get, ConsensusGraphNode};
use crate::reach::{lemma_nodes_count, reach_set, reaches, reaches_in};
use crate::sums::{lemma_list_sum_next, lemma_set_sum_list, list_sum, set_sum};
use crate::types::NULL;

verus! {

broadcast use vstd::std_specs::hash::group_hash_axioms;

/// The steps from parents to children.
pub open spec fn child_steps(nodes: Map<usize, ConsensusGraphNode>) -> spec_fn(
    usize,
    usize,
) -> bool {
    |u: usize, v: usize| nodes[u].children@.contains(v)
}

/// The subtree of a block.
pub open spec fn subtree_of(nodes: Map<usize, ConsensusGraphNode>, root: usize) -> Set<usize> {
    reach_set(child_steps(nodes), set![root])
}

/// The blocks of the subtree of `root` that are at most `bound` steps below it.
pub open spec fn subtree_within(
    nodes: Map<usize, ConsensusGraphNode>,
    root: usize,
    bound: int,
) -> Set<usize> {
    Set::new(
        |v: usize|
            exists|d: nat|
                d <= bound && #[trigger] reaches_in(child_steps(nodes), set![root], v, d),
    )
}

/// Whether no block of a subtree was cut off its parent.
pub open spec fn subtree_linked(nodes: Map<usize, ConsensusGraphNode>, root: usize) -> bool {
    forall|u: usize, c: usize| #[trigger]
        subtree_of(nodes, root).contains(u) && #[trigger] nodes[u].children@.contains(c)
            ==> nodes[c].parent == u
}

/// How many steps a block is below `root`.
pub open spec fn steps_below(
    nodes: Map<usize, ConsensusGraphNode>,
    x: usize,
    root: usize,
) -> nat
    decreases nodes[x].data.sequence_number,
{
    if x == root || nodes[x].parent == NULL || nodes[nodes[x].parent].data.sequence_number
        >= nodes[x].data.sequence_number {
        0
    } else {
        1 + steps_below(nodes, nodes[x].parent, root)
    }
}

/// What is reached by children is in the subtree; it is a node that is no older than the root, and
/// only the root is reached without a step.
pub proof fn lemma_subtree(
    nodes: Map<usize, ConsensusGraphNode>,
    root: usize,
    v: usize,
    d: nat,
)
    requires
        arena_wf(nodes),
        nodes.contains_key(root),
        subtree_linked(nodes, root),
        reaches_in(child_steps(nodes), set![root], v, d),
    ensures
        subtree_of(nodes, root).contains(v),
        nodes.contains_key(v),
        nodes[v].data.sequence_number >= nodes[root].data.sequence_number,
        d == 0 <==> v == root,
        d > 0 ==> nodes[v].parent != NULL && reaches_in(
            child_steps(nodes),
            set![root],
            nodes[v].parent,
            (d - 1) as nat,
        ) && nodes[nodes[v].parent].children@.contains(v)
            && nodes[nodes[v].parent].data.sequence_number < nodes[v].data.sequence_number,
        d == steps_below(nodes, v, root),
    decreases d,
{
    let edge = child_steps(nodes);
    assert(reaches(edge, set![root], v));
    if d > 0 {
        let u = choose|u: usize| #[trigger]
            edge(u, v) && reaches_in(edge, set![root], u, (d - 1) as nat);
        lemma_subtree(nodes, root, u, (d - 1) as nat);
        assert(links_wf(nodes, nodes[u]));
        let k = choose|k: int| 0 <= k < nodes[u].children@.len() && nodes[u].children@[k] == v;
        assert(nodes.contains_key(nodes[u].children@[k]));
        assert(nodes[u].children@.contains(v));
        assert(nodes[v].parent == u);
        crate::graph::lemma_arena_ranked(nodes);
    }
}

impl ConsensusGraphInner {
    /// Whether the header of a block is known.
    pub open spec fn header_known(&self, i: usize) -> bool {
        self.data_man.headers@.contains_key(self.node(i).hash)
    }

    /// The blame in the header of a block.
    pub open spec fn blame(&self, i: usize) -> u32 {
        self.data_man.headers@[self.node(i).hash].blame
    }

    /// The blame in the header of a block.
    pub fn get_blame(&self, arena_index: usize) -> (r: u32)
        requires
            self.wf(),
            self.has(arena_index),
            self.header_known(arena_index),
        ensures
            r == self.blame(arena_index),
    {
        let hash = arena_get(&self.arena, arena_index).hash;
        self.data_man.block_header_by_hash(&hash).unwrap().blame
    }

    /// The blame in the header of a block of the pivot chain.
    pub fn get_blame_with_pivot_index(&self, pivot_index: usize) -> (r: u32)
        requires
            self.wf(),
            pivot_index < self.pivot_chain@.len(),
            self.header_known(self.pivot_chain@[pivot_index as int]),
        ensures
            r == self.blame(self.pivot_chain@[pivot_index as int]),
    {
        let arena_index: usize = self.pivot_chain[pivot_index];
        assert(self.nodes().contains_key(self.pivot_chain@[pivot_index as int]));
        self.get_blame(arena_index)
    }

    /// Whether a block below `root` votes for it: it blames no block between itself and some block
    /// that votes for `root`, or down to `root` itself. A block that blames `root` votes against.
    pub open spec fn votes_for(&self, x: usize, root: usize) -> bool
        decreases self.age(x),
    {
        if x == root {
            true
        } else if self.blame(x) < steps_below(self.nodes(), x, root) {
            let next = ancestor(arena_parents(self.nodes()), x, (self.blame(x) + 1) as nat);
            self.age(next) < self.age(x) && self.votes_for(next, root)
        } else {
            false
        }
    }

    /// One for a block that votes against `root`, zero for one that votes for it.
    pub open spec fn vote_against(&self, root: usize) -> spec_fn(usize) -> int {
        |x: usize|
            if self.votes_for(x, root) {
                0
            } else {
                1
            }
    }

    /// The blocks whose votes on a block count.
    pub open spec fn voters(&self, root: usize, blame_bound: Option<u32>) -> Set<usize> {
        subtree_within(
            self.nodes(),
            root,
            match blame_bound {
                Some(b) => b as int,
                None => u32::MAX as int,
            },
        )
    }

    /// Whether the votes on a block can be counted.
    pub open spec fn votes_known(&self, root: usize, blame_bound: Option<u32>) -> bool {
        &&& subtree_linked(self.nodes(), root)
        &&& forall|x: usize| #[trigger]
            self.voters(root, blame_bound).contains(x) && x != root ==> self.header_known(x)
    }

    /// A block some steps below the root has its ancestors in the subtree.
    pub proof fn lemma_subtree_ancestor(&self, root: usize, x: usize, d: nat, k: nat)
        requires
            self.wf(),
            self.has(root),
            subtree_linked(self.nodes(), root),
            reaches_in(child_steps(self.nodes()), set![root], x, d),
            k <= d,
        ensures
            reaches_in(
                child_steps(self.nodes()),
                set![root],
                ancestor(arena_parents(self.nodes()), x, k),
                (d - k) as nat,
            ),
            k > 0 ==> self.age(ancestor(arena_parents(self.nodes()), x, k)) < self.age(x),
        decreases k,
    {
        let nodes = self.nodes();
        let parents = arena_parents(nodes);
        if k > 0 {
            self.lemma_subtree_ancestor(root, x, d, (k - 1) as nat);
            let y = ancestor(parents, x, (k - 1) as nat);
            lemma_subtree(nodes, root, y, (d - (k - 1)) as nat);
            assert(parent_of(parents, y) == nodes[y].parent);
        }
    }

    /// The blocks of the subtree of `root` down to some steps below it, parents first, with the
    /// number of steps.
    #[verifier::spinoff_prover]
    #[verifier::rlimit(60)]
    fn collect_subtree(&self, root: usize, bound: u32) -> (r: (Vec<usize>, Vec<u32>))
        requires
            self.wf(),
            self.has(root),
            subtree_linked(self.nodes(), root),
        ensures
            is_subtree_list(self.nodes(), root, bound as int, r.0@, r.1@),
            r.0@.to_set() == subtree_within(self.nodes(), root, bound as int),
            all_nodes(self.nodes(), r.0@),
    {
        let ghost nodes = self.nodes();
        let ghost edge = child_steps(nodes);
        let mut order: Vec<usize> = Vec::new();
        let mut steps: Vec<u32> = Vec::new();
        order.push(root);
        steps.push(0);
        let mut head: usize = 0;
        proof {
            assert(reaches_in(edge, set![root], root, 0));
        }
        while head < order.len()
            invariant
                head <= order.len(),
                self.wf(),
                self.has(root),
                nodes == self.nodes(),
                edge == child_steps(nodes),
                subtree_linked(nodes, root),
                is_subtree_list(nodes, root, bound as int, order@, steps@),
                forall|k: int|
                    0 < k < order@.len() ==> parent_listed(nodes, #[trigger] order@[k], order@, head as int),
                forall|i: int, c: usize|
                    0 <= i < head && steps@[i] < bound && #[trigger] nodes[order@[i]].children@.contains(
                        c,
                    ) ==> order@.contains(c),
            decreases index_limit() - head,
        {
            let x: usize = order[head];
            let step: u32 = steps[head];
            let ghost start = order@;
            let ghost start_steps = steps@;
            proof {
                lemma_subtree_list_nodes(nodes, root, bound as int, order@, steps@);
                lemma_nodes_count(nodes, order@);
                lemma_subtree(nodes, root, x, step as nat);
                assert(links_wf(nodes, nodes[x]) && children_wf(nodes, x));
            }
            if step != bound {
                let children: &Vec<usize> = &arena_get(&self.arena, x).children;
                let mut m: usize = 0;
                proof {
                    assert(children@.take(0) =~= seq![]);
                    assert(order@ =~= start + children@.take(0));
                }
                while m < children.len()
                    invariant
                        m <= children.len(),
                        nodes == self.nodes(),
                        arena_wf(nodes),
                        nodes.contains_key(root),
                        edge == child_steps(nodes),
                        head < start.len(),
                        start[head as int] == x,
                        start_steps[head as int] == step,
                        step < bound,
                        children@ == nodes[x].children@,
                        children@.no_duplicates(),
                        nodes.contains_key(x),
                        subtree_linked(nodes, root),
                        is_subtree_list(nodes, root, bound as int, start, start_steps),
                        forall|k: int|
                            0 < k < start.len() ==> parent_listed(
                                nodes,
                                #[trigger] start[k],
                                start,
                                head as int,
                            ),
                        is_subtree_list(nodes, root, bound as int, order@, steps@),
                        order@ == start + children@.take(m as int),
                        forall|i: int|
                            0 <= i < start_steps.len() ==> #[trigger] steps@[i] == start_steps[i],
                        forall|k: int|
                            start.len() <= k < order@.len() ==> nodes[#[trigger] order@[k]].parent
                                == x,
                    decreases children.len() - m,
                {
                    let c: usize = children[m];
                    let ghost before = order@;
                    let ghost before_steps = steps@;
                    proof {
                        assert(edge(x, c)) by {
                            assert(children@.contains(children@[m as int]));
                        }
                        assert(reaches_in(edge, set![root], x, step as nat)) by {
                            assert(reaches_in(
                                edge,
                                set![root],
                                start[head as int],
                                start_steps[head as int] as nat,
                            ));
                        }
                        assert(reaches_in(edge, set![root], x, ((step + 1) - 1) as nat));
                        assert(reaches_in(edge, set![root], c, (step + 1) as nat));
                        lemma_new_child(nodes, root, start, head as int, children@, m as int);
                        assert(before[head as int] == nodes[c].parent);
                    }
                    order.push(c);
                    steps.push(step + 1);
                    proof {
                        assert(children@.take(m + 1) =~= children@.take(m as int).push(c));
                        assert(order@ =~= start + children@.take(m + 1));
                        lemma_list_grows(
                            nodes,
                            root,
                            bound as int,
                            before,
                            before_steps,
                            c,
                            (step + 1) as u32,
                        );
                    }
                    m = m + 1;
                }
                assert(children@.take(m as int) =~= children@);
            }
            proof {
                lemma_level_done(nodes, start, order@, head as int, x);
                assert forall|i: int, c: usize|
                    0 <= i < head + 1 && steps@[i] < bound
                        && #[trigger] nodes[order@[i]].children@.contains(c) implies order@.contains(
                    c,
                ) by {
                    if i < head {
                        assert(start[i] == order@[i]);
                        assert(start_steps[i] == steps@[i]);
                        assert(nodes[start[i]].children@.contains(c));
                        let k = choose|k: int| 0 <= k < start.len() && start[k] == c;
                        assert(order@[k] == c);
                    } else {
                        let k = choose|k: int|
                            0 <= k < nodes[x].children@.len() && nodes[x].children@[k] == c;
                        assert(order@[start.len() + k] == c);
                    }
                }
            }
            head = head + 1;
        }
        proof {
            assert forall|v: usize| order@.to_set().contains(v) <==> subtree_within(
                nodes,
                root,
                bound as int,
            ).contains(v) by {
                if order@.contains(v) {
                    let k = choose|k: int| 0 <= k < order@.len() && order@[k] == v;
                    assert(reaches_in(edge, set![root], order@[k], steps@[k] as nat));
                }
                if subtree_within(nodes, root, bound as int).contains(v) {
                    let d = choose|d: nat|
                        d <= bound && #[trigger] reaches_in(edge, set![root], v, d);
                    lemma_all_listed(nodes, root, bound as int, order@, steps@, v, d);
                }
            }
            assert(order@.to_set() =~= subtree_within(nodes, root, bound as int));
            lemma_subtree_list_nodes(nodes, root, bound as int, order@, steps@);
        }
        (order, steps)
    }
}

impl ConsensusGraphInner {
    /// The ancestors of a listed block within the subtree come before it in the list.
    proof fn lemma_ancestor_listed(
        &self,
        root: usize,
        bound: int,
        order: Seq<usize>,
        steps: Seq<u32>,
        i: int,
        k: nat,
    ) -> (j: int)
        requires
            self.wf(),
            self.has(root),
            subtree_linked(self.nodes(), root),
            is_subtree_list(self.nodes(), root, bound, order, steps),
            0 <= i < order.len(),
            k <= steps[i],
        ensures
            0 <= j <= i,
            k > 0 ==> j < i,
            order[j] == ancestor(arena_parents(self.nodes()), order[i], k),
        decreases k,
    {
        let nodes = self.nodes();
        let parents = arena_parents(nodes);
        if k == 0 {
            i
        } else {
            let y = self.lemma_ancestor_listed(root, bound, order, steps, i, (k - 1) as nat);
            self.lemma_subtree_ancestor(root, order[i], steps[i] as nat, (k - 1) as nat);
            lemma_subtree(nodes, root, order[y], (steps[i] - (k - 1)) as nat);
            assert(y > 0);
            assert(parent_listed(nodes, order[y], order, y));
            assert(parent_of(parents, order[y]) == nodes[order[y]].parent);
            choose|j: int| 0 <= j < y && j < order.len() && #[trigger] order[j]
                == nodes[order[y]].parent
        }
    }

    /// The vote of a listed block from those of the blocks before it.
    fn compute_vote(
        &self,
        index: usize,
        step: u32,
        root: usize,
        votes: &HashMap<usize, bool>,
        Ghost(bound): Ghost<int>,
        Ghost(order): Ghost<Seq<usize>>,
        Ghost(steps): Ghost<Seq<u32>>,
        Ghost(i): Ghost<int>,
    ) -> (r: bool)
        requires
            self.wf(),
            self.has(root),
            subtree_linked(self.nodes(), root),
            is_subtree_list(self.nodes(), root, bound, order, steps),
            0 <= i < order.len(),
            index == order[i],
            step == steps[i],
            index != root ==> self.header_known(index),
            forall|j: int|
                0 <= j < i ==> votes@.contains_key(#[trigger] order[j]) && votes@[order[j]]
                    == self.votes_for(order[j], root),
        ensures
            r == self.votes_for(index, root),
    {
        if index == root {
            return true;
        }
        let ghost nodes = self.nodes();
        let ghost parents = arena_parents(nodes);
        proof {
            lemma_subtree(nodes, root, index, step as nat);
        }
        let blame: u32 = self.get_blame(index);
        if blame >= step {
            return false;
        }
        let mut cur: usize = index;
        let mut k: u32 = 0;
        while k < blame + 1
            invariant
                k <= blame + 1,
                blame < step,
                self.wf(),
                self.has(root),
                nodes == self.nodes(),
                parents == arena_parents(nodes),
                subtree_linked(nodes, root),
                reaches_in(child_steps(nodes), set![root], index, step as nat),
                cur == ancestor(parents, index, k as nat),
            decreases blame + 1 - k,
        {
            proof {
                self.lemma_subtree_ancestor(root, index, step as nat, k as nat);
                lemma_subtree(nodes, root, cur, (step - k) as nat);
                assert(parent_of(parents, cur) == nodes[cur].parent);
            }
            cur = arena_get(&self.arena, cur).parent;
            k = k + 1;
        }
        proof {
            self.lemma_subtree_ancestor(root, index, step as nat, (blame + 1) as nat);
            let j = self.lemma_ancestor_listed(root, bound, order, steps, i, (blame + 1) as nat);
            assert(votes@.contains_key(order[j]));
        }
        *votes.get(&cur).unwrap()
    }

    /// Counts the blocks in the subtree of a block that vote against it, and all that vote. Only
    /// blocks up to `blame_bound` steps below count, if that is given.
    pub fn compute_blame_ratio(&self, arena_index: usize, blame_bound: Option<u32>) -> (r: (
        u64,
        u64,
    ))
        requires
            self.wf(),
            self.has(arena_index),
            self.votes_known(arena_index, blame_bound),
        ensures
            r.0 == set_sum(
                self.voters(arena_index, blame_bound),
                self.vote_against(arena_index),
            ),
            r.1 == self.voters(arena_index, blame_bound).len(),
            self.voters(arena_index, blame_bound).finite(),
    {
        let bound: u32 = match blame_bound {
            Some(b) => b,
            None => 0xffff_ffff,
        };
        let (order, steps) = self.collect_subtree(arena_index, bound);
        let ghost f = self.vote_against(arena_index);
        let mut votes: HashMap<usize, bool> = HashMap::new();
        let mut total_blame_count: u64 = 0;
        let mut i: usize = 0;
        proof {
            assert(order@.take(0) =~= seq![]);
            lemma_nodes_count(self.nodes(), order@);
        }
        while i < order.len()
            invariant
                i <= order.len(),
                order@.len() <= index_limit(),
                self.wf(),
                self.has(arena_index),
                self.votes_known(arena_index, blame_bound),
                f == self.vote_against(arena_index),
                bound == (match blame_bound {
                    Some(b) => b,
                    None => u32::MAX,
                }),
                is_subtree_list(self.nodes(), arena_index, bound as int, order@, steps@),
                order@.to_set() == subtree_within(self.nodes(), arena_index, bound as int),
                forall|j: int|
                    0 <= j < i ==> votes@.contains_key(#[trigger] order@[j]) && votes@[order@[j]]
                        == self.votes_for(order@[j], arena_index),
                total_blame_count == list_sum(order@.take(i as int), f),
                total_blame_count <= i,
            decreases order.len() - i,
        {
            let index: usize = order[i];
            proof {
                assert(order@.contains(order@[i as int]));
                assert(order@.to_set().contains(index));
                assert(self.voters(arena_index, blame_bound).contains(index));
                lemma_list_sum_next(order@, f, i as int);
            }
            let vote: bool = self.compute_vote(
                index,
                steps[i],
                arena_index,
                &votes,
                Ghost(bound as int),
                Ghost(order@),
                Ghost(steps@),
                Ghost(i as int),
            );
            let ghost before = votes@;
            votes.insert(index, vote);
            if !vote {
                total_blame_count = total_blame_count + 1;
            }
            proof {
                assert forall|j: int| 0 <= j < i + 1 implies votes@.contains_key(
                    #[trigger] order@[j],
                ) && votes@[order@[j]] == self.votes_for(order@[j], arena_index) by {
                    if j < i {
                        assert(order@[j] != order@[i as int]);
                    }
                }
            }
            i = i + 1;
        }
        proof {
            assert(order@.take(i as int) =~= order@);
            lemma_set_sum_list(order@, f);
            order@.unique_seq_to_set();
        }
        (total_blame_count, order.len() as u64)
    }

    /// Whether the share of votes against a block is below two fifths.
    pub open spec fn trusted_by_votes(&self, i: usize, blame_bound: Option<u32>) -> bool {
        5 * set_sum(self.voters(i, blame_bound), self.vote_against(i)) < 2 * self.voters(
            i,
            blame_bound,
        ).len()
    }

    /// Whether the votes on the blocks of the pivot chain from a position on can be counted, as
    /// far as is needed to find one that is trusted.
    pub open spec fn trust_known_from(&self, p: int, blame_bound: Option<u32>) -> bool
        decreases self.pivot_chain@.len() - p,
    {
        p >= self.pivot_chain@.len() || (self.votes_known(self.pivot_chain@[p], blame_bound) && (
        self.trusted_by_votes(self.pivot_chain@[p], blame_bound) || self.trust_known_from(
            p + 1,
            blame_bound,
        )))
    }

    /// The first position of the pivot chain from `p` on whose block is trusted.
    pub open spec fn first_trusted_from(&self, p: int, blame_bound: Option<u32>) -> Option<int>
        decreases self.pivot_chain@.len() - p,
    {
        if p >= self.pivot_chain@.len() {
            None
        } else if self.trusted_by_votes(self.pivot_chain@[p], blame_bound) {
            Some(p)
        } else {
            self.first_trusted_from(p + 1, blame_bound)
        }
    }

    /// The first position of the pivot chain from `pivot_index` on whose block is blamed by less
    /// than two fifths of its subtree.
    pub fn find_first_with_trusted_blame_starting_from(
        &self,
        pivot_index: usize,
        blame_bound: Option<u32>,
    ) -> (r: Option<usize>)
        requires
            self.wf(),
            self.trust_known_from(pivot_index as int, blame_bound),
        ensures
            match r {
                Some(p) => self.first_trusted_from(pivot_index as int, blame_bound) == Some(
                    p as int,
                ) && pivot_index <= p < self.pivot_chain@.len(),
                None => self.first_trusted_from(pivot_index as int, blame_bound) is None,
            },
    {
        let mut cur_pivot_index: usize = pivot_index;
        while cur_pivot_index < self.pivot_chain.len()
            invariant
                self.wf(),
                pivot_index <= cur_pivot_index,
                self.trust_known_from(cur_pivot_index as int, blame_bound),
                self.first_trusted_from(pivot_index as int, blame_bound)
                    == self.first_trusted_from(cur_pivot_index as int, blame_bound),
            decreases self.pivot_chain.len() - cur_pivot_index,
        {
            let arena_index: usize = self.pivot_chain[cur_pivot_index];
            assert(self.nodes().contains_key(self.pivot_chain@[cur_pivot_index as int]));
            let (blames, votes) = self.compute_blame_ratio(arena_index, blame_bound);
            if 5 * (blames as u128) < 2 * (votes as u128) {
                return Some(cur_pivot_index);
            }
            cur_pivot_index = cur_pivot_index + 1;
        }
        None
    }
}

/// Whether the parent of a block is among the first `n` of a list, and before the block.
spec fn parent_listed(
    nodes: Map<usize, ConsensusGraphNode>,
    x: usize,
    list: Seq<usize>,
    n: int,
) -> bool {
    exists|j: int| 0 <= j < n && j < list.len() && #[trigger] list[j] == nodes[x].parent
}

/// Whether a list holds blocks of a subtree, each once and after its parent, with the right number
/// of steps below the root.
spec fn is_subtree_list(
    nodes: Map<usize, ConsensusGraphNode>,
    root: usize,
    bound: int,
    order: Seq<usize>,
    steps: Seq<u32>,
) -> bool {
    &&& order.len() == steps.len()
    &&& order.len() > 0
    &&& order[0] == root
    &&& order.no_duplicates()
    &&& forall|i: int| 0 <= i < steps.len() ==> #[trigger] steps[i] <= bound
    &&& forall|i: int|
        0 <= i < order.len() ==> reaches_in(
            child_steps(nodes),
            set![root],
            #[trigger] order[i],
            steps[i] as nat,
        )
    &&& forall|k: int| 0 < k < order.len() ==> parent_listed(nodes, #[trigger] order[k], order, k)
}

proof fn lemma_subtree_list_nodes(
    nodes: Map<usize, ConsensusGraphNode>,
    root: usize,
    bound: int,
    order: Seq<usize>,
    steps: Seq<u32>,
)
    requires
        arena_wf(nodes),
        nodes.contains_key(root),
        subtree_linked(nodes, root),
        is_subtree_list(nodes, root, bound, order, steps),
    ensures
        all_nodes(nodes, order),
{
    assert forall|i: int| 0 <= i < order.len() implies nodes.contains_key(#[trigger] order[i]) by {
        lemma_subtree(nodes, root, order[i], steps[i] as nat);
    }
}

/// A child that was not listed yet is not in the list.
proof fn lemma_new_child(
    nodes: Map<usize, ConsensusGraphNode>,
    root: usize,
    start: Seq<usize>,
    head: int,
    children: Seq<usize>,
    m: int,
)
    requires
        arena_wf(nodes),
        nodes.contains_key(root),
        subtree_linked(nodes, root),
        0 <= head < start.len(),
        start[0] == root,
        start.no_duplicates(),
        0 <= m < children.len(),
        children == nodes[start[head]].children@,
        children.no_duplicates(),
        reaches(child_steps(nodes), set![root], start[head]),
        forall|k: int|
            0 < k < start.len() ==> parent_listed(nodes, #[trigger] start[k], start, head),
    ensures
        !(start + children.take(m)).contains(children[m]),
        nodes[children[m]].parent == start[head],
{
    let x = start[head];
    let c = children[m];
    assert(subtree_of(nodes, root).contains(x));
    assert(nodes[x].children@.contains(c)) by {
        assert(children[m] == c);
    }
    assert(nodes[c].parent == x);
    let d = choose|d: nat| reaches_in(child_steps(nodes), set![root], x, d);
    lemma_subtree(nodes, root, x, d);
    assert(links_wf(nodes, nodes[x]));
    assert(nodes[nodes[x].children@[m]].data.sequence_number > nodes[x].data.sequence_number);
    let list = start + children.take(m);
    if list.contains(c) {
        let k = choose|k: int| 0 <= k < list.len() && list[k] == c;
        if k >= start.len() {
            assert(children[k - start.len()] == c);
        } else if k > 0 {
            assert(start[k] == c);
            let j = choose|j: int|
                0 <= j < head && j < start.len() && #[trigger] start[j] == nodes[start[k]].parent;
            assert(start[j] == start[head]);
        }
    }
}

proof fn lemma_list_grows(
    nodes: Map<usize, ConsensusGraphNode>,
    root: usize,
    bound: int,
    order: Seq<usize>,
    steps: Seq<u32>,
    c: usize,
    step: u32,
)
    requires
        is_subtree_list(nodes, root, bound, order, steps),
        !order.contains(c),
        step <= bound,
        reaches_in(child_steps(nodes), set![root], c, step as nat),
        order.contains(nodes[c].parent),
    ensures
        is_subtree_list(nodes, root, bound, order.push(c), steps.push(step)),
{
    let next = order.push(c);
    assert forall|k: int| 0 < k < next.len() implies parent_listed(
        nodes,
        #[trigger] next[k],
        next,
        k,
    ) by {
        if k < order.len() {
            assert(parent_listed(nodes, order[k], order, k));
            let j = choose|j: int|
                0 <= j < k && j < order.len() && #[trigger] order[j] == nodes[order[k]].parent;
            assert(next[j] == nodes[next[k]].parent);
        } else {
            let j = choose|j: int| 0 <= j < order.len() && order[j] == nodes[c].parent;
            assert(next[j] == nodes[c].parent);
        }
    }
    assert forall|i: int| 0 <= i < next.len() implies reaches_in(
        child_steps(nodes),
        set![root],
        #[trigger] next[i],
        steps.push(step)[i] as nat,
    ) by {
        if i < order.len() {
            assert(reaches_in(child_steps(nodes), set![root], order[i], steps[i] as nat));
        }
    }
    assert(next.no_duplicates()) by {
        assert forall|a: int, b: int| 0 <= a < b < next.len() implies next[a] != next[b] by {
            if b == order.len() {
                assert(order.contains(order[a]));
            }
        }
    }
}

proof fn lemma_level_done(
    nodes: Map<usize, ConsensusGraphNode>,
    start: Seq<usize>,
    order: Seq<usize>,
    head: int,
    x: usize,
)
    requires
        0 <= head < start.len(),
        start[head] == x,
        order == start || order == start + nodes[x].children@,
        forall|k: int|
            0 < k < start.len() ==> parent_listed(nodes, #[trigger] start[k], start, head),
        forall|k: int|
            start.len() <= k < order.len() ==> nodes[#[trigger] order[k]].parent == x,
    ensures
        forall|k: int|
            0 < k < order.len() ==> parent_listed(nodes, #[trigger] order[k], order, head + 1),
{
    assert forall|k: int| 0 < k < order.len() implies parent_listed(
        nodes,
        #[trigger] order[k],
        order,
        head + 1,
    ) by {
        if k < start.len() {
            assert(start[k] == order[k]);
            let j = choose|j: int|
                0 <= j < head && j < start.len() && #[trigger] start[j] == nodes[start[k]].parent;
            assert(order[j] == nodes[order[k]].parent);
        } else {
            assert(order[head] == x);
        }
    }
}

/// Once all children of listed blocks are listed, the whole subtree is.
proof fn lemma_all_listed(
    nodes: Map<usize, ConsensusGraphNode>,
    root: usize,
    bound: int,
    order: Seq<usize>,
    steps: Seq<u32>,
    v: usize,
    d: nat,
)
    requires
        arena_wf(nodes),
        nodes.contains_key(root),
        subtree_linked(nodes, root),
        is_subtree_list(nodes, root, bound, order, steps),
        forall|i: int, c: usize|
            0 <= i < order.len() && steps[i] < bound
                && #[trigger] nodes[order[i]].children@.contains(c) ==> order.contains(c),
        d <= bound,
        reaches_in(child_steps(nodes), set![root], v, d),
    ensures
        order.contains(v),
    decreases d,
{
    lemma_subtree(nodes, root, v, d);
    if d == 0 {
        assert(order[0] == v);
    } else {
        let u = nodes[v].parent;
        lemma_all_listed(nodes, root, bound, order, steps, u, (d - 1) as nat);
        let i = choose|i: int| 0 <= i < order.len() && order[i] == u;
        lemma_subtree(nodes, root, u, (d - 1) as nat);
        lemma_subtree(nodes, root, order[i], steps[i] as nat);
        assert(nodes[order[i]].children@.contains(v));
    }
}

} // verus!
