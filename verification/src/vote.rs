//! Whether blocks off the pivot chain blame pivot blocks correctly.
use vstd::prelude::*;

use crate::graph::{all_nodes, same_graph, same_links, ConsensusGraphInner};
use crate::node::{arena_get, arena_get_mut, ConsensusGraphNode, ConsensusGraphNodeData};
use crate::reach::lemma_push_contains;
use crate::types::{H256, NULL};

verus! {

impl ConsensusGraphInner {
    /// Whether `k` blocks from `x` back have wrong states and the one before them has a right one.
    pub open spec fn right_after_wrong(&self, x: usize, k: nat) -> bool
        decreases k,
    {
        if k == 0 {
            self.node(x).data.state_valid == Some(true)
        } else {
            self.node(x).data.state_valid == Some(false) && self.right_after_wrong(
                self.node(x).parent,
                (k - 1) as nat,
            )
        }
    }

    /// Whether the blocks from `x` back were evaluated, as far as is needed.
    pub open spec fn right_after_wrong_known(&self, x: usize, k: nat) -> bool
        decreases k,
    {
        &&& self.node(x).data.state_valid is Some
        &&& k > 0 && self.node(x).data.state_valid == Some(false) ==> self.node(x).parent != NULL
            && self.right_after_wrong_known(self.node(x).parent, (k - 1) as nat)
    }

    fn check_right_after_wrong(&self, x: usize, k: u64) -> (r: bool)
        requires
            self.wf(),
            self.has(x),
            self.right_after_wrong_known(x, k as nat),
        ensures
            r == self.right_after_wrong(x, k as nat),
    {
        let mut cur: usize = x;
        let mut left: u64 = k;
        while left > 0
            invariant
                self.wf(),
                self.has(cur),
                self.right_after_wrong_known(cur, left as nat),
                self.right_after_wrong(x, k as nat) == self.right_after_wrong(cur, left as nat),
            decreases left,
        {
            assert(self.nodes().contains_key(cur));
            if arena_get(&self.arena, cur).data.state_valid.unwrap() {
                return false;
            }
            cur = arena_get(&self.arena, cur).parent;
            left = left - 1;
        }
        arena_get(&self.arena, cur).data.state_valid.unwrap()
    }

    /// Whether the vote of a block was computed for a fork at a height.
    pub open spec fn vote_computed(&self, x: usize, fork_height: u64) -> bool {
        self.node(x).data.vote_valid_lca_height == fork_height
    }

    /// The height of the block that a block does not blame.
    pub open spec fn unblamed_height(&self, x: usize) -> int {
        self.node(x).height - self.blame(x) - 1
    }

    /// Whether a block blames the pivot blocks before the fork point `lca` correctly: it does if
    /// the block that it does not blame does, where that is above the fork; otherwise the block
    /// that it does not blame has to be right, and those that it blames up to the fork wrong.
    pub open spec fn blames_correctly(&self, lca: usize, x: usize) -> bool
        decreases self.age(x),
    {
        let fork_height = self.node(lca).height;
        let next = self.ancestor_at_height(x, self.unblamed_height(x));
        if self.vote_computed(x, fork_height) {
            self.node(x).data.vote_valid
        } else if self.unblamed_height(x) > fork_height {
            self.age(next) < self.age(x) && self.blames_correctly(lca, next)
        } else {
            self.right_after_wrong(lca, (fork_height - self.unblamed_height(x)) as nat)
        }
    }

    /// Whether it can be told if a block blames correctly.
    pub open spec fn vote_known(&self, lca: usize, x: usize) -> bool
        decreases self.age(x),
    {
        let fork_height = self.node(lca).height;
        let next = self.ancestor_at_height(x, self.unblamed_height(x));
        self.vote_computed(x, fork_height) || {
            &&& self.header_known(x)
            &&& self.unblamed_height(x) >= 0
            &&& if self.unblamed_height(x) > fork_height {
                &&& self.weight_tree.has(x)
                &&& self.cur_era_genesis_height <= self.unblamed_height(x)
                &&& self.unblamed_height(x) - self.cur_era_genesis_height <= usize::MAX
                &&& next != NULL
                &&& self.age(next) < self.age(x)
                &&& self.vote_known(lca, next)
            } else {
                self.right_after_wrong_known(
                    lca,
                    (fork_height - self.unblamed_height(x)) as nat,
                )
            }
        }
    }

    /// Whether the vote of `y` is computed on the way from `x`.
    pub open spec fn votes_on_way(&self, lca: usize, x: usize, y: usize) -> bool
        decreases self.age(x),
    {
        let fork_height = self.node(lca).height;
        let next = self.ancestor_at_height(x, self.unblamed_height(x));
        !self.vote_computed(x, fork_height) && (x == y || (self.unblamed_height(x) > fork_height
            && self.age(next) < self.age(x) && self.votes_on_way(lca, next, y)))
    }

    /// Follows unblamed blocks and returns whether the first block blames correctly and the blocks
    /// whose votes follow from that.
    fn follow_votes(&self, lca: usize, me: usize) -> (r: (bool, Vec<usize>))
        requires
            self.wf(),
            self.has(lca),
            self.has(me),
            self.vote_known(lca, me),
        ensures
            r.0 == self.blames_correctly(lca, me),
            all_nodes(self.nodes(), r.1@),
            forall|y: usize| #[trigger] r.1@.contains(y) <==> self.votes_on_way(lca, me, y),
    {
        let fork_height: u64 = arena_get(&self.arena, lca).height;
        let mut list: Vec<usize> = Vec::new();
        let mut cur: usize = me;
        loop
            invariant
                self.wf(),
                self.has(lca),
                self.has(cur),
                fork_height == self.node(lca).height,
                self.vote_known(lca, cur),
                self.blames_correctly(lca, me) == self.blames_correctly(lca, cur),
                all_nodes(self.nodes(), list@),
                forall|y: usize| #[trigger]
                    self.votes_on_way(lca, me, y) <==> list@.contains(y) || self.votes_on_way(
                        lca,
                        cur,
                        y,
                    ),
            decreases self.age(cur),
        {
            assert(self.nodes().contains_key(cur));
            let node: &ConsensusGraphNode = arena_get(&self.arena, cur);
            if node.data.vote_valid_lca_height == fork_height {
                return (node.data.vote_valid, list);
            }
            let hash: H256 = node.hash;
            let blame: u32 = self.data_man.block_header_by_hash(&hash).unwrap().blame;
            let unblamed: u64 = node.height - blame as u64 - 1;
            let ghost before = list@;
            list.push(cur);
            proof {
                lemma_push_contains(before, cur);
            }
            if unblamed > fork_height {
                let next: usize = self.ancestor_at(cur, unblamed);
                assert forall|y: usize| #[trigger]
                    self.votes_on_way(lca, me, y) <==> list@.contains(y) || self.votes_on_way(
                    lca,
                    next,
                    y,
                ) by {
                    assert(self.votes_on_way(lca, cur, y) <==> y == cur || self.votes_on_way(
                        lca,
                        next,
                        y,
                    ));
                }
                cur = next;
            } else {
                let vote: bool = self.check_right_after_wrong(lca, fork_height - unblamed);
                assert forall|y: usize| #[trigger] list@.contains(y) <==> self.votes_on_way(
                    lca,
                    me,
                    y,
                ) by {
                    assert(self.votes_on_way(lca, cur, y) <==> y == cur);
                }
                return (vote, list);
            }
        }
    }

    /// The nodes after the vote of a block was computed.
    pub open spec fn voted(&self, lca: usize, me: usize) -> Map<usize, ConsensusGraphNode> {
        Map::new(
            |y: usize| self.has(y),
            |y: usize|
                if self.votes_on_way(lca, me, y) {
                    ConsensusGraphNode {
                        data: ConsensusGraphNodeData {
                            vote_valid_lca_height: self.node(lca).height,
                            vote_valid: self.blames_correctly(lca, me),
                            ..self.node(y).data
                        },
                        ..self.node(y)
                    }
                } else {
                    self.node(y)
                },
        )
    }

    fn set_votes(&mut self, list: &Vec<usize>, fork_height: u64, vote: bool)
        requires
            old(self).wf(),
            all_nodes(old(self).nodes(), list@),
        ensures
            final(self).wf(),
            final(self).nodes().dom() == old(self).nodes().dom(),
            forall|y: usize| #[trigger]
                old(self).has(y) ==> final(self).node(y) == (if list@.contains(y) {
                    ConsensusGraphNode {
                        data: ConsensusGraphNodeData {
                            vote_valid_lca_height: fork_height,
                            vote_valid: vote,
                            ..old(self).node(y).data
                        },
                        ..old(self).node(y)
                    }
                } else {
                    old(self).node(y)
                }),
            *final(self) == (ConsensusGraphInner { arena: final(self).arena, ..*old(self) }),
    {
        let ghost before = *self;
        let mut i: usize = 0;
        while i < list.len()
            invariant
                i <= list.len(),
                before == *old(self),
                all_nodes(before.nodes(), list@),
                *self == (ConsensusGraphInner { arena: self.arena, ..before }),
                self.nodes().dom() == before.nodes().dom(),
                forall|y: usize| #[trigger]
                    before.has(y) ==> self.node(y) == (if list@.take(i as int).contains(y) {
                        ConsensusGraphNode {
                            data: ConsensusGraphNodeData {
                                vote_valid_lca_height: fork_height,
                                vote_valid: vote,
                                ..before.node(y).data
                            },
                            ..before.node(y)
                        }
                    } else {
                        before.node(y)
                    }),
            decreases list.len() - i,
        {
            let x: usize = list[i];
            assert(before.nodes().contains_key(list@[i as int]));
            assert(before.has(x));
            assert(self.nodes().dom().contains(x));
            let node: &mut ConsensusGraphNode = arena_get_mut(&mut self.arena, x);
            node.data.vote_valid_lca_height = fork_height;
            node.data.vote_valid = vote;
            proof {
                assert(self.nodes().dom() =~= before.nodes().dom());
                assert(list@.take(i + 1) =~= list@.take(i as int).push(x));
                lemma_push_contains(list@.take(i as int), x);
            }
            i = i + 1;
        }
        proof {
            assert(list@.take(i as int) =~= list@);
            assert(same_graph(before.nodes(), self.nodes())) by {
                assert forall|j: usize| #[trigger] self.nodes().contains_key(j) implies same_links(
                    before.nodes()[j],
                    self.nodes()[j],
                ) by {
                    assert(before.nodes().dom().contains(j));
                    assert(before.has(j));
                }
            }
            before.lemma_wf_same(self);
        }
    }

    /// Tells whether a block blames the pivot blocks before it correctly, in the view of a pivot
    /// block, and keeps the votes that were computed on the way.
    pub fn compute_vote_valid_for_pivot_block(&mut self, me: usize, pivot_arena_index: usize) -> (r:
        bool)
        requires
            old(self).wf(),
            old(self).has(me),
            old(self).has(pivot_arena_index),
            old(self).in_tree_or_legacy(me),
            old(self).in_tree_or_legacy(pivot_arena_index),
            old(self).common_ancestor(me, pivot_arena_index) != NULL,
            old(self).vote_known(old(self).common_ancestor(me, pivot_arena_index), me),
        ensures
            r == old(self).blames_correctly(
                old(self).common_ancestor(me, pivot_arena_index),
                me,
            ),
            final(self).wf(),
            final(self).nodes() == old(self).voted(
                old(self).common_ancestor(me, pivot_arena_index),
                me,
            ),
            *final(self) == (ConsensusGraphInner { arena: final(self).arena, ..*old(self) }),
    {
        let lca: usize = self.lca(me, pivot_arena_index);
        let lca_height: u64 = arena_get(&self.arena, lca).height;
        let (vote, list) = self.follow_votes(lca, me);
        self.set_votes(&list, lca_height, vote);
        proof {
            assert(self.nodes() =~= old(self).voted(lca, me)) by {
                assert forall|y: usize| #[trigger] old(self).nodes().contains_key(y) implies
                    self.nodes()[y] == old(self).voted(lca, me)[y] by {
                    assert(old(self).has(y));
                    assert(list@.contains(y) <==> old(self).votes_on_way(lca, me, y));
                }
            }
        }
        vote
    }
}

} // verus!
