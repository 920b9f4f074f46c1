//! Insertion of blocks into the graph.
use vstd::prelude::*;

use crate::block_data::BlockHeader;
use crate::graph::{all_nodes, arena_wf, children_wf, links_wf, ConsensusGraphInner};
use crate::index_set::index_limit;
use crate::node::{
    arena_get_mut, arena_insert, arena_next_key, ConsensusGraphNode, ConsensusGraphNodeData,
};
use crate::topo::{lemma_occurrences_next, occurrences};
use crate::tree::TreeNode;
use crate::types::{H256, NULL, NULLU64};

verus! {

/// A list that holds one index a number of times.
pub open spec fn repeated(index: usize, n: nat) -> Seq<usize> {
    Seq::new(n, |i: int| index)
}

/// Whether `after` is `before` with the node `index` added, as a child of its parent and as a
/// referrer of its referees.
pub open spec fn links_added(
    before: Map<usize, ConsensusGraphNode>,
    after: Map<usize, ConsensusGraphNode>,
    index: usize,
) -> bool {
    &&& !before.contains_key(index)
    &&& after.dom() == before.dom().insert(index)
    &&& forall|i: usize| #[trigger]
        before.contains_key(i) ==> {
            &&& after[i] == (ConsensusGraphNode {
                children: after[i].children,
                referrers: after[i].referrers,
                ..before[i]
            })
            &&& after[i].children@ == before[i].children@ + repeated(
                index,
                if after[index].parent == i {
                    1
                } else {
                    0
                },
            )
            &&& after[i].referrers@ == before[i].referrers@ + repeated(
                index,
                occurrences(after[index].referees@, i),
            )
        }
}

/// A new node whose links lead to nodes that are there leaves the graph linked well.
proof fn lemma_links_added(
    before: Map<usize, ConsensusGraphNode>,
    after: Map<usize, ConsensusGraphNode>,
    index: usize,
)
    requires
        arena_wf(before),
        links_added(before, after, index),
        index < index_limit(),
        after[index].parent != NULL ==> before.contains_key(after[index].parent),
        all_nodes(before, after[index].referees@),
        after[index].children@ == Seq::<usize>::empty(),
        after[index].referrers@ == Seq::<usize>::empty(),
        after[index].data.blockset_in_own_view_of_epoch@ == Seq::<usize>::empty(),
        after[index].data.ordered_executable_epoch_blocks@ == Seq::<usize>::empty(),
        forall|i: usize| #[trigger]
            before.contains_key(i) ==> before[i].data.sequence_number
                < after[index].data.sequence_number,
    ensures
        arena_wf(after),
{
    assert forall|i: usize| #[trigger] after.contains_key(i) == (before.contains_key(i) || i
        == index) by {
        assert(after.dom().contains(i) == before.dom().insert(index).contains(i));
    }
    assert forall|i: usize| #[trigger] after.contains_key(i) implies i < index_limit() && links_wf(
        after,
        after[i],
    ) && children_wf(after, i) by {
        if i != index {
            assert(before.contains_key(i));
            assert(links_wf(before, before[i]) && children_wf(before, i));
            let n = before[i].children@.len() as int;
            let m = before[i].referrers@.len() as int;
            assert forall|k: int| 0 <= k < after[i].children@.len() implies {
                let c = #[trigger] after[i].children@[k];
                &&& after.contains_key(c)
                &&& after[c].data.sequence_number > after[i].data.sequence_number
                &&& (after[c].parent == i || after[c].parent == NULL)
            } by {
                if k < n {
                    let c = before[i].children@[k];
                    assert(before.contains_key(c));
                    assert(after[i].children@[k] == c);
                } else {
                    assert(after[i].children@[k] == index);
                    assert(after[index].parent == i);
                }
            }
            assert forall|k: int| 0 <= k < after[i].referrers@.len() implies {
                let c = #[trigger] after[i].referrers@[k];
                &&& after.contains_key(c)
                &&& after[c].data.sequence_number > after[i].data.sequence_number
            } by {
                if k < m {
                    let c = before[i].referrers@[k];
                    assert(before.contains_key(c));
                    assert(after[i].referrers@[k] == c);
                } else {
                    assert(after[i].referrers@[k] == index);
                }
            }
            assert forall|a: int, b: int|
                0 <= a < b < after[i].children@.len() implies after[i].children@[a]
                != after[i].children@[b] by {
                assert(before.contains_key(before[i].children@[a]));
                if b < n {
                    assert(before[i].children@[a] != before[i].children@[b]);
                }
            }
            assert forall|k: int| 0 <= k < after[i].referees@.len() implies {
                let c = #[trigger] after[i].referees@[k];
                &&& after.contains_key(c)
                &&& after[c].data.sequence_number < after[i].data.sequence_number
            } by {
                assert(before.contains_key(before[i].referees@[k]));
            }
        } else {
            assert forall|k: int| 0 <= k < after[i].referees@.len() implies {
                let c = #[trigger] after[i].referees@[k];
                &&& after.contains_key(c)
                &&& after[c].data.sequence_number < after[i].data.sequence_number
            } by {
                assert(before.contains_key(after[index].referees@[k]));
            }
        }
    }
}

impl ConsensusGraphInner {
    /// A list of referees with one more, from a position on: nothing is added if it is above a
    /// listed one, and it takes the place of a listed one that is above it.
    pub open spec fn with_referee(&self, list: Seq<usize>, me: usize, i: int) -> Seq<usize>
        decreases list.len() - i,
    {
        if i < 0 || i >= list.len() {
            list.push(me)
        } else if self.common_ancestor(list[i], me) == me {
            list
        } else if self.common_ancestor(list[i], me) == list[i] {
            list.update(i, me)
        } else {
            self.with_referee(list, me, i + 1)
        }
    }

    /// Whether the listed blocks can be compared with another one.
    pub open spec fn comparable_with_all(&self, list: Seq<usize>, me: usize) -> bool {
        forall|k: int|
            0 <= k < list.len() ==> self.has(#[trigger] list[k]) && self.comparable(list[k], me)
    }

    /// Adds a referee to a list, unless a listed one makes it superfluous.
    pub fn insert_referee_if_not_duplicate(&self, referees: &mut Vec<usize>, me: usize)
        requires
            self.wf(),
            self.has(me),
            self.comparable_with_all(old(referees)@, me),
        ensures
            final(referees)@ == self.with_referee(old(referees)@, me, 0),
            final(referees)@.len() <= old(referees)@.len() + 1,
    {
        let mut i: usize = 0;
        while i < referees.len()
            invariant
                i <= referees.len(),
                self.wf(),
                self.has(me),
                referees@ == old(referees)@,
                self.comparable_with_all(referees@, me),
                self.with_referee(old(referees)@, me, 0) == self.with_referee(
                    old(referees)@,
                    me,
                    i as int,
                ),
            decreases referees.len() - i,
        {
            let x: usize = referees[i];
            assert(self.has(referees@[i as int]));
            let lca: usize = self.lca(x, me);
            if lca == me {
                return;
            } else if lca == x {
                referees.set(i, me);
                return;
            }
            i = i + 1;
        }
        referees.push(me);
    }

    /// The referees that come from the first `n` of some hashes: those that are in the graph, each
    /// added unless it is superfluous.
    pub open spec fn referees_from(&self, hashes: Seq<H256>, n: nat) -> Seq<usize>
        decreases n,
    {
        if n == 0 {
            seq![]
        } else {
            let before = self.referees_from(hashes, (n - 1) as nat);
            if self.hash_to_arena_indices@.contains_key(hashes[n - 1]) {
                self.with_referee(before, self.hash_to_arena_indices@[hashes[n - 1]], 0)
            } else {
                before
            }
        }
    }

    /// Whether the blocks of some hashes, as far as they are in the graph, can be compared with each
    /// other.
    pub open spec fn referees_ready(&self, hashes: Seq<H256>) -> bool {
        forall|j: int, k: int|
            0 <= j < k < hashes.len() && self.hash_to_arena_indices@.contains_key(
                #[trigger] hashes[j],
            ) && self.hash_to_arena_indices@.contains_key(#[trigger] hashes[k])
                ==> self.comparable(
                self.hash_to_arena_indices@[hashes[j]],
                self.hash_to_arena_indices@[hashes[k]],
            )
    }

    /// Whether a block is that of one of the first `n` hashes.
    spec fn from_hash(&self, x: usize, hashes: Seq<H256>, n: int) -> bool {
        exists|j: int|
            0 <= j < n && self.hash_to_arena_indices@.contains_key(#[trigger] hashes[j])
                && self.hash_to_arena_indices@[hashes[j]] == x
    }

    /// A block of some of the first hashes is one of more of them.
    proof fn lemma_from_hash_grows(&self, x: usize, hashes: Seq<H256>, n: int)
        requires
            self.from_hash(x, hashes, n),
        ensures
            self.from_hash(x, hashes, n + 1),
    {
        let j = choose|j: int|
            0 <= j < n && self.hash_to_arena_indices@.contains_key(#[trigger] hashes[j])
                && self.hash_to_arena_indices@[hashes[j]] == x;
        assert(self.hash_to_arena_indices@.contains_key(hashes[j]));
    }

    /// A list with a referee more holds what it held and the referee, at most.
    proof fn lemma_with_referee_items(&self, list: Seq<usize>, me: usize, i: int, m: int)
        requires
            0 <= m < self.with_referee(list, me, i).len(),
        ensures
            self.with_referee(list, me, i)[m] == me || (m < list.len() && self.with_referee(
                list,
                me,
                i,
            )[m] == list[m]),
        decreases list.len() - i,
    {
        if 0 <= i < list.len() && self.common_ancestor(list[i], me) != me && self.common_ancestor(
            list[i],
            me,
        ) != list[i] {
            self.lemma_with_referee_items(list, me, i + 1, m);
        }
    }

    pub(crate) fn collect_referees(&self, hashes: &Vec<H256>) -> (r: Vec<usize>)
        requires
            self.wf(),
            self.referees_ready(hashes@),
        ensures
            r@ == self.referees_from(hashes@, hashes@.len()),
            all_nodes(self.nodes(), r@),
            r@.len() <= hashes@.len(),
    {
        let mut referees: Vec<usize> = Vec::new();
        let mut i: usize = 0;
        while i < hashes.len()
            invariant
                i <= hashes.len(),
                self.wf(),
                self.referees_ready(hashes@),
                referees@ == self.referees_from(hashes@, i as nat),
                forall|m: int|
                    0 <= m < referees@.len() ==> self.from_hash(
                        #[trigger] referees@[m],
                        hashes@,
                        i as int,
                    ),
                referees@.len() <= i,
            decreases hashes.len() - i,
        {
            let ghost before = referees@;
            match self.hash_to_arena_indices.get(&hashes[i]) {
                Some(x) => {
                    assert(self.hash_to_arena_indices@.contains_key(hashes@[i as int]));
                    assert(self.comparable_with_all(before, *x)) by {
                        assert forall|m: int| 0 <= m < before.len() implies self.has(
                            #[trigger] before[m],
                        ) && self.comparable(before[m], *x) by {
                            assert(self.from_hash(before[m], hashes@, i as int));
                            let j = choose|j: int|
                                0 <= j < i && self.hash_to_arena_indices@.contains_key(
                                    #[trigger] hashes@[j],
                                ) && self.hash_to_arena_indices@[hashes@[j]] == before[m];
                            assert(self.has(self.hash_to_arena_indices@[hashes@[j]]));
                        }
                    }
                    self.insert_referee_if_not_duplicate(&mut referees, *x);
                },
                None => {},
            }
            proof {
                assert forall|m: int| 0 <= m < referees@.len() implies self.from_hash(
                    #[trigger] referees@[m],
                    hashes@,
                    i + 1,
                ) by {
                    if self.hash_to_arena_indices@.contains_key(hashes@[i as int]) {
                        self.lemma_with_referee_items(
                            before,
                            self.hash_to_arena_indices@[hashes@[i as int]],
                            0,
                            m,
                        );
                    }
                    if m < before.len() && referees@[m] == before[m] {
                        self.lemma_from_hash_grows(before[m], hashes@, i as int);
                    }
                }
            }
            i = i + 1;
        }
        assert forall|m: int| 0 <= m < referees@.len() implies self.nodes().contains_key(
            #[trigger] referees@[m],
        ) by {
            assert(self.from_hash(referees@[m], hashes@, hashes@.len() as int));
            let j = choose|j: int|
                0 <= j < hashes@.len() && self.hash_to_arena_indices@.contains_key(
                    #[trigger] hashes@[j],
                ) && self.hash_to_arena_indices@[hashes@[j]] == referees@[m];
            assert(self.has(self.hash_to_arena_indices@[hashes@[j]]));
        }
        referees
    }

    /// Whether a node can be added: it is new and its links lead to nodes.
    pub open spec fn addable(&self, node: ConsensusGraphNode) -> bool {
        &&& node.parent != NULL ==> self.has(node.parent)
        &&& all_nodes(self.nodes(), node.referees@)
        &&& node.children@ == Seq::<usize>::empty()
        &&& node.referrers@ == Seq::<usize>::empty()
        &&& node.data.blockset_in_own_view_of_epoch@ == Seq::<usize>::empty()
        &&& node.data.ordered_executable_epoch_blocks@ == Seq::<usize>::empty()
        &&& node.data.sequence_number == self.sequence_number_of_block_entrance
    }

    /// Adds a node with the next sequence number and links it.
    pub(crate) fn add_node(&mut self, node: ConsensusGraphNode) -> (index: usize)
        requires
            old(self).base_wf(),
            old(self).room(),
            old(self).addable(node),
            old(self).sequence_number_of_block_entrance < u64::MAX,
            old(self).hash_to_arena_indices@.len() < usize::MAX,
        ensures
            index == arena_next_key(old(self).arena),
            final(self).base_wf(),
            links_added(old(self).nodes(), final(self).nodes(), index),
            final(self).node(index) == node,
            final(self).hash_to_arena_indices@ == old(self).hash_to_arena_indices@.insert(
                node.hash,
                index,
            ),
            *final(self) == (ConsensusGraphInner {
                arena: final(self).arena,
                hash_to_arena_indices: final(self).hash_to_arena_indices,
                sequence_number_of_block_entrance: (old(self).sequence_number_of_block_entrance
                    + 1) as u64,
                ..*old(self)
            }),
    {
        let _sn: u64 = self.get_next_sequence_number();
        let hash: H256 = node.hash;
        let parent: usize = node.parent;
        let referees: Vec<usize> = crate::block_data::copy_indices(&node.referees);
        let ghost before = self.nodes();
        let index: usize = arena_insert(&mut self.arena, node);
        self.hash_to_arena_indices.insert(hash, index);
        if parent != NULL {
            arena_get_mut(&mut self.arena, parent).children.push(index);
        }
        let mut j: usize = 0;
        proof {
            assert(referees@.take(0) =~= seq![]);
            assert(self.nodes().dom() =~= before.dom().insert(index));
            assert forall|i: usize| #[trigger] before.contains_key(i) implies {
                &&& self.nodes()[i].children@ == before[i].children@ + repeated(
                    index,
                    if parent == i {
                        1
                    } else {
                        0
                    },
                )
                &&& self.nodes()[i].referrers@ == before[i].referrers@ + repeated(index, 0)
            } by {
                assert(self.nodes()[i].children@ =~= before[i].children@ + repeated(
                    index,
                    if parent == i {
                        1
                    } else {
                        0
                    },
                ));
                assert(self.nodes()[i].referrers@ =~= before[i].referrers@ + repeated(index, 0));
            }
        }
        while j < referees.len()
            invariant
                j <= referees.len(),
                all_nodes(before, referees@),
                !before.contains_key(index),
                self.nodes().dom() == before.dom().insert(index),
                self.nodes()[index] == node,
                *self == (ConsensusGraphInner {
                    arena: self.arena,
                    hash_to_arena_indices: self.hash_to_arena_indices,
                    sequence_number_of_block_entrance: (old(
                        self,
                    ).sequence_number_of_block_entrance + 1) as u64,
                    ..*old(self)
                }),
                self.hash_to_arena_indices@ == old(self).hash_to_arena_indices@.insert(hash, index),
                self.hash_to_arena_indices.wf(),
                forall|i: usize| #[trigger]
                    before.contains_key(i) ==> {
                        &&& self.nodes()[i] == (ConsensusGraphNode {
                            children: self.nodes()[i].children,
                            referrers: self.nodes()[i].referrers,
                            ..before[i]
                        })
                        &&& self.nodes()[i].children@ == before[i].children@ + repeated(
                            index,
                            if parent == i {
                                1
                            } else {
                                0
                            },
                        )
                        &&& self.nodes()[i].referrers@ == before[i].referrers@ + repeated(
                            index,
                            occurrences(referees@.take(j as int), i),
                        )
                    },
            decreases referees.len() - j,
        {
            let r: usize = referees[j];
            assert(before.contains_key(referees@[j as int]));
            assert(before.dom().insert(index).contains(r));
            let ghost mid = self.nodes();
            arena_get_mut(&mut self.arena, r).referrers.push(index);
            proof {
                assert(self.nodes().dom() =~= before.dom().insert(index));
                assert forall|i: usize| #[trigger]
                    before.contains_key(i) implies self.nodes()[i].referrers@
                    == before[i].referrers@ + repeated(
                    index,
                    occurrences(referees@.take(j + 1), i),
                ) by {
                    lemma_occurrences_next(referees@, j as int, i);
                    assert(self.nodes()[i].referrers@ =~= before[i].referrers@ + repeated(
                        index,
                        occurrences(referees@.take(j + 1), i),
                    ));
                }
            }
            j = j + 1;
        }
        proof {
            assert(referees@.take(j as int) =~= referees@);
            assert(links_added(before, self.nodes(), index));
            assert forall|i: usize| #[trigger]
                before.contains_key(i) implies before[i].data.sequence_number
                < self.nodes()[index].data.sequence_number by {
                assert(old(self).has(i));
            }
            lemma_links_added(before, self.nodes(), index);
            old(self).lemma_added_base_wf(self, index);
        }
        index
    }

    /// Adding a node keeps the state well formed.
    proof fn lemma_added_base_wf(&self, other: &ConsensusGraphInner, index: usize)
        requires
            self.base_wf(),
            links_added(self.nodes(), other.nodes(), index),
            arena_wf(other.nodes()),
            other.node(index).data.sequence_number == self.sequence_number_of_block_entrance,
            other.hash_to_arena_indices.wf(),
            other.hash_to_arena_indices@ == self.hash_to_arena_indices@.insert(
                other.node(index).hash,
                index,
            ),
            self.sequence_number_of_block_entrance < u64::MAX,
            *other == (ConsensusGraphInner {
                arena: other.arena,
                hash_to_arena_indices: other.hash_to_arena_indices,
                sequence_number_of_block_entrance: (self.sequence_number_of_block_entrance
                    + 1) as u64,
                ..*self
            }),
        ensures
            other.base_wf(),
    {
        let before = self.nodes();
        let after = other.nodes();
        assert forall|i: usize| #[trigger] after.contains_key(i) == (before.contains_key(i) || i
            == index) by {
            assert(after.dom().contains(i) == before.dom().insert(index).contains(i));
        }
        assert forall|i: usize| #[trigger] other.has(i) implies other.node(i).data.sequence_number
            < other.sequence_number_of_block_entrance by {
            if i != index {
                assert(self.has(i));
                assert(before.contains_key(i));
            }
        }
        assert forall|h: H256| #[trigger]
            other.hash_to_arena_indices@.contains_key(h) implies other.has(
            other.hash_to_arena_indices@[h],
        ) && other.node(other.hash_to_arena_indices@[h]).hash == h by {
            if h != other.node(index).hash {
                assert(self.hash_to_arena_indices@.contains_key(h));
                assert(before.contains_key(self.hash_to_arena_indices@[h]));
            } else {
                assert(after.contains_key(index));
            }
        }
        assert forall|i: int| 0 <= i < other.pivot_chain@.len() implies after.contains_key(
            #[trigger] other.pivot_chain@[i],
        ) by {
            assert(before.contains_key(self.pivot_chain@[i]));
        }
        assert forall|i: int| 0 <= i < other.timer_chain@.len() implies after.contains_key(
            #[trigger] other.timer_chain@[i],
        ) by {
            assert(before.contains_key(self.timer_chain@[i]));
        }
        assert forall|i: int|
            0 <= i < other.timer_chain_accumulative_lca@.len() implies after.contains_key(
            #[trigger] other.timer_chain_accumulative_lca@[i],
        ) by {
            assert(before.contains_key(self.timer_chain_accumulative_lca@[i]));
        }
        assert forall|v: usize| #[trigger] other.weight_tree.has(v) implies after.contains_key(v)
            && (other.weight_tree.view()[v].parent == NULL || other.weight_tree.view()[v].parent
            == after[v].parent) by {
            assert(before.contains_key(v));
        }
        assert forall|v: usize| #[trigger] other.adaptive_tree.has(v) implies after.contains_key(v)
            && (other.adaptive_tree.view()[v].parent == NULL || other.adaptive_tree.view()[v].parent
            == after[v].parent) by {
            assert(before.contains_key(v));
        }
    }

    /// The block that a hash leads to, `NULL` if it is not in the graph.
    pub open spec fn index_or_null(&self, hash: H256) -> usize {
        if self.hash_to_arena_indices@.contains_key(hash) {
            self.hash_to_arena_indices@[hash]
        } else {
            NULL
        }
    }

    /// Whether a header has neither a parent nor a referee in the graph.
    pub open spec fn unlinked(&self, block_header: BlockHeader) -> bool {
        self.index_or_null(block_header.parent_hash) == NULL && self.referees_from(
            block_header.referee_hashes@,
            block_header.referee_hashes@.len(),
        ).len() == 0
    }

    /// Whether `node` is made for a block outside the era.
    pub open spec fn is_out_era_node(
        &self,
        block_header: BlockHeader,
        partial_invalid: bool,
        node: ConsensusGraphNode,
    ) -> bool {
        &&& node.hash == block_header.hash
        &&& node.height == block_header.height
        &&& node.is_heavy
        &&& node.difficulty == block_header.difficulty
        &&& node.past_num_blocks == 0
        &&& node.past_era_weight == 0
        &&& !node.is_timer
        &&& node.timer_longest_difficulty == 0
        &&& node.last_timer_block_arena_index == 0
        &&& node.timer_chain_height == 0
        &&& node.adaptive == block_header.adaptive
        &&& node.parent == self.index_or_null(block_header.parent_hash)
        &&& node.last_pivot_in_past == 0
        &&& node.era_block == NULL
        &&& node.children@ == Seq::<usize>::empty()
        &&& node.referees@ == self.referees_from(
            block_header.referee_hashes@,
            block_header.referee_hashes@.len(),
        )
        &&& node.referrers@ == Seq::<usize>::empty()
        &&& node.data.epoch_number == NULLU64
        &&& node.data.sequence_number == self.sequence_number_of_block_entrance
        &&& node.data.partial_invalid == partial_invalid
        &&& node.data.pending
        &&& node.data.active_cnt == 0
        &&& node.data.activated
        &&& node.data.force_confirm == NULL
        &&& node.data.blockset_in_own_view_of_epoch@ == Seq::<usize>::empty()
        &&& node.data.ordered_executable_epoch_blocks@ == Seq::<usize>::empty()
        &&& !node.data.blockset_cleared
        &&& node.data.vote_valid_lca_height == NULLU64
        &&& node.data.vote_valid
        &&& node.data.state_valid is None
    }

    /// Inserts a block that is outside the current era and returns its sequence number. If
    /// neither its parent nor any of its referees is in the graph, it is not inserted, but noted
    /// among the blocks of old eras.
    pub fn insert_out_era_block(&mut self, block_header: &BlockHeader, partial_invalid: bool) -> (r:
        u64)
        requires
            old(self).wf(),
            old(self).room(),
            old(self).sequence_number_of_block_entrance < u64::MAX,
            old(self).hash_to_arena_indices@.len() < usize::MAX,
            old(self).referees_ready(block_header.referee_hashes@),
        ensures
            final(self).wf(),
            r == old(self).sequence_number_of_block_entrance,
            old(self).unlinked(*block_header) ==> {
                &&& final(self).old_era_block_set@ == old(self).old_era_block_set@.push(
                    block_header.hash,
                )
                &&& *final(self) == (ConsensusGraphInner {
                    old_era_block_set: final(self).old_era_block_set,
                    sequence_number_of_block_entrance: (r + 1) as u64,
                    ..*old(self)
                })
            },
            !old(self).unlinked(*block_header) ==> {
                let index = arena_next_key(old(self).arena);
                &&& links_added(old(self).nodes(), final(self).nodes(), index)
                &&& old(self).is_out_era_node(
                    *block_header,
                    partial_invalid,
                    final(self).node(index),
                )
                &&& final(self).hash_to_arena_indices@ == old(self).hash_to_arena_indices@.insert(
                    block_header.hash,
                    index,
                )
                &&& final(self).weight_tree.view() == old(self).weight_tree.view().insert(
                    index,
                    TreeNode { parent: NULL, value: 0 },
                )
                &&& final(self).adaptive_tree.view() == old(self).adaptive_tree.view().insert(
                    index,
                    TreeNode { parent: NULL, value: 0 },
                )
                &&& *final(self) == (ConsensusGraphInner {
                    arena: final(self).arena,
                    hash_to_arena_indices: final(self).hash_to_arena_indices,
                    weight_tree: final(self).weight_tree,
                    adaptive_tree: final(self).adaptive_tree,
                    sequence_number_of_block_entrance: (r + 1) as u64,
                    ..*old(self)
                })
            },
    {
        let sn: u64 = self.sequence_number_of_block_entrance;
        let hash: H256 = block_header.hash;
        let parent: usize = match self.hash_to_arena_indices.get(&block_header.parent_hash) {
            Some(p) => *p,
            None => NULL,
        };
        let referees: Vec<usize> = self.collect_referees(&block_header.referee_hashes);
        if parent == NULL && referees.len() == 0 {
            self.old_era_block_set.push(hash);
            let _sn: u64 = self.get_next_sequence_number();
            proof {
                old(self).lemma_noted_wf(self);
            }
            return sn;
        }
        let mut data: ConsensusGraphNodeData = ConsensusGraphNodeData::new(NULLU64, sn, 0);
        data.pending = true;
        data.activated = true;
        data.partial_invalid = partial_invalid;
        let node: ConsensusGraphNode = ConsensusGraphNode {
            hash,
            height: block_header.height,
            is_heavy: true,
            difficulty: block_header.difficulty,
            past_num_blocks: 0,
            past_era_weight: 0,
            is_timer: false,
            timer_longest_difficulty: 0,
            last_timer_block_arena_index: 0,
            timer_chain_height: 0,
            adaptive: block_header.adaptive,
            parent,
            era_block: NULL,
            last_pivot_in_past: 0,
            children: Vec::new(),
            referrers: Vec::new(),
            referees,
            data,
        };
        let index: usize = self.add_node(node);
        let ghost mid = *self;
        proof {
            assert(!old(self).has(index));
            assert(mid.nodes().dom().contains(mid.cur_era_genesis_block_arena_index)) by {
                assert(old(self).nodes().dom().contains(mid.cur_era_genesis_block_arena_index));
            }
            mid.lemma_tree_parents_known(*old(self));
        }
        self.weight_tree.make_tree(index);
        self.adaptive_tree.make_tree(index);
        proof {
            mid.lemma_new_tree_wf(self, index);
        }
        sn
    }

    /// Noting a block of an old era keeps the state well formed.
    proof fn lemma_noted_wf(&self, other: &ConsensusGraphInner)
        requires
            self.wf(),
            self.sequence_number_of_block_entrance < u64::MAX,
            *other == (ConsensusGraphInner {
                old_era_block_set: other.old_era_block_set,
                sequence_number_of_block_entrance: (self.sequence_number_of_block_entrance
                    + 1) as u64,
                ..*self
            }),
        ensures
            other.wf(),
    {
        assert forall|i: usize| #[trigger] other.has(i) implies other.node(i).data.sequence_number
            < other.sequence_number_of_block_entrance by {
            assert(self.has(i));
        }
        assert forall|h: H256| #[trigger]
            other.hash_to_arena_indices@.contains_key(h) implies other.has(
            other.hash_to_arena_indices@[h],
        ) && other.node(other.hash_to_arena_indices@[h]).hash == h by {
            assert(self.has(self.hash_to_arena_indices@[h]));
        }
    }

    /// The links in the trees lead to nodes that were there before.
    proof fn lemma_tree_parents_known(&self, before: ConsensusGraphInner)
        requires
            before.base_wf(),
            self.weight_tree == before.weight_tree,
            self.adaptive_tree == before.adaptive_tree,
        ensures
            forall|u: usize| #[trigger]
                self.weight_tree.has(u) ==> before.has(u) && (self.weight_tree.view()[u].parent
                    == NULL || before.has(self.weight_tree.view()[u].parent)),
            forall|u: usize| #[trigger]
                self.adaptive_tree.has(u) ==> before.has(u) && (
                self.adaptive_tree.view()[u].parent == NULL || before.has(
                    self.adaptive_tree.view()[u].parent,
                )),
    {
        assert forall|u: usize| #[trigger] self.weight_tree.has(u) implies before.has(u) && (
        self.weight_tree.view()[u].parent == NULL || before.has(
            self.weight_tree.view()[u].parent,
        )) by {
            assert(before.weight_tree.has(u));
            assert(before.nodes().contains_key(u));
            assert(links_wf(before.nodes(), before.node(u)));
        }
        assert forall|u: usize| #[trigger] self.adaptive_tree.has(u) implies before.has(u) && (
        self.adaptive_tree.view()[u].parent == NULL || before.has(
            self.adaptive_tree.view()[u].parent,
        )) by {
            assert(before.adaptive_tree.has(u));
            assert(before.nodes().contains_key(u));
            assert(links_wf(before.nodes(), before.node(u)));
        }
    }

    /// A new tree for a node keeps the state well formed.
    pub(crate) proof fn lemma_new_tree_wf(&self, other: &ConsensusGraphInner, index: usize)
        requires
            self.base_wf(),
            self.has(index),
            other.weight_tree.wf(),
            other.adaptive_tree.wf(),
            other.weight_tree.view() == self.weight_tree.view().insert(
                index,
                (TreeNode { parent: NULL, value: 0 }),
            ),
            other.adaptive_tree.view() == self.adaptive_tree.view().insert(
                index,
                (TreeNode { parent: NULL, value: 0 }),
            ),
            *other == (ConsensusGraphInner {
                weight_tree: other.weight_tree,
                adaptive_tree: other.adaptive_tree,
                ..*self
            }),
        ensures
            other.base_wf(),
    {
        assert(other.weight_tree.parents() =~= self.weight_tree.parents().insert(index, NULL));
        assert(other.adaptive_tree.parents() =~= self.adaptive_tree.parents().insert(index, NULL));
        assert forall|v: usize| #[trigger] other.weight_tree.has(v) implies other.nodes().contains_key(
        v) && (other.weight_tree.view()[v].parent == NULL || other.weight_tree.view()[v].parent
            == other.nodes()[v].parent) by {
            if v != index {
                assert(self.weight_tree.has(v));
            }
        }
        assert forall|v: usize| #[trigger] other.adaptive_tree.has(v) implies other.nodes().contains_key(
        v) && (other.adaptive_tree.view()[v].parent == NULL || other.adaptive_tree.view()[v].parent
            == other.nodes()[v].parent) by {
            if v != index {
                assert(self.adaptive_tree.has(v));
            }
        }
        assert forall|i: usize| #[trigger] other.has(i) implies other.node(i).data.sequence_number
            < other.sequence_number_of_block_entrance by {
            assert(self.has(i));
        }
        assert forall|h: H256| #[trigger]
            other.hash_to_arena_indices@.contains_key(h) implies other.has(
            other.hash_to_arena_indices@[h],
        ) && other.node(other.hash_to_arena_indices@[h]).hash == h by {
            assert(self.has(self.hash_to_arena_indices@[h]));
        }
    }
}

} // verus!
