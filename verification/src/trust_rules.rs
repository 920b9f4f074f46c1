//! What makes a header trusted: votes on blocks, and blocks that trusted ones vouch for.
use vstd::prelude::*;

use crate::blame::{child_steps, subtree_linked};
use crate::graph::{arena_parents, ConsensusGraphInner};
use crate::lineage::{lemma_ancestor_add, lemma_ancestor_null};
use crate::reach::reaches_in;
use crate::sums::set_sum;
use crate::types::{H256, NULL};

verus! {

impl ConsensusGraphInner {
    /// Whether a list of blocks leads back from each block to the one before those that its header
    /// blames.
    pub open spec fn unblamed_walk(&self, path: Seq<usize>) -> bool {
        &&& path.len() > 0
        &&& forall|i: int, j: int|
            0 <= i && j == i + 1 && j < path.len() ==> #[trigger] path[j] == self.back(
                #[trigger] path[i],
                (self.data_man.headers@[self.node(path[i]).hash].blame + 1) as nat,
            )
    }

    /// Whether one comes from `x` to `root` by going back, again and again, to the block before those
    /// that the header of a block blames.
    pub open spec fn walks_to(&self, x: usize, root: usize) -> bool {
        exists|path: Seq<usize>| #[trigger]
            self.unblamed_walk(path) && path[0] == x && path.last() == root
    }

    /// A block some steps below another has that many steps back to it, over blocks that are
    /// younger than it.
    proof fn lemma_steps_back(&self, x: usize, root: usize, d: nat)
        requires
            self.wf(),
            self.has(root),
            subtree_linked(self.nodes(), root),
            reaches_in(child_steps(self.nodes()), set![root], x, d),
        ensures
            self.has(x),
            x != NULL,
            self.back(x, d) == root,
            d > 0 ==> self.age(root) < self.age(x),
            self.votes_for(x, root) <==> (x == root || (self.blame(x) < d && self.votes_for(
                self.back(x, (self.blame(x) + 1) as nat),
                root,
            ))),
            d == 0 <==> x == root,
        decreases d,
    {
        let nodes = self.nodes();
        crate::blame::lemma_subtree(nodes, root, x, d);
        assert(self.nodes().contains_key(x));
        assert(self.parents() =~= arena_parents(nodes));
        if d > 0 {
            self.lemma_steps_back(nodes[x].parent, root, (d - 1) as nat);
            lemma_ancestor_add(self.parents(), x, 1, (d - 1) as nat);
            assert(self.back(x, 0) == x);
            assert(self.back(x, 1) == nodes[x].parent);
            if self.blame(x) < d {
                self.lemma_subtree_ancestor(root, x, d, (self.blame(x) + 1) as nat);
            }
        } else {
            assert(self.back(x, 0) == x);
        }
    }

    /// A walk goes back in age.
    proof fn lemma_walk_older(&self, path: Seq<usize>, i: int)
        requires
            self.wf(),
            self.unblamed_walk(path),
            0 <= i < path.len(),
            path.last() != NULL,
            self.has(path[0]),
        ensures
            self.has(path[i]),
            i > 0 ==> self.age(path[i]) < self.age(path[0]),
        decreases i,
    {
        if i > 0 {
            self.lemma_walk_older(path, i - 1);
            let k = (self.data_man.headers@[self.node(path[i - 1]).hash].blame + 1) as nat;
            assert(path[i] == self.back(path[i - 1], k));
            if path[i] == NULL {
                self.lemma_walk_null(path, i, path.len() - 1);
            }
            self.lemma_back_older(path[i - 1], k);
        }
    }

    /// A walk that has left the graph does not come back.
    proof fn lemma_walk_null(&self, path: Seq<usize>, i: int, j: int)
        requires
            self.wf(),
            self.unblamed_walk(path),
            0 <= i <= j < path.len(),
            path[i] == NULL,
        ensures
            path[j] == NULL,
        decreases j - i,
    {
        if i < j {
            self.lemma_walk_null(path, i, j - 1);
            let k = (self.data_man.headers@[self.node(path[j - 1]).hash].blame + 1) as nat;
            assert(path[j] == self.back(path[j - 1], k));
            if self.nodes().contains_key(NULL) {
                assert(self.has(NULL));
            }
            lemma_ancestor_null(self.parents(), k);
        }
    }

    /// A block below another votes for it exactly if one comes to it by going back over blamed
    /// blocks: neither it nor a block that it stands by blames the other.
    pub proof fn law_vote_follows_unblamed(&self, x: usize, root: usize, d: nat)
        requires
            self.wf(),
            self.has(root),
            subtree_linked(self.nodes(), root),
            reaches_in(child_steps(self.nodes()), set![root], x, d),
        ensures
            self.votes_for(x, root) <==> self.walks_to(x, root),
        decreases d,
    {
        self.lemma_steps_back(x, root, d);
        let b = (self.data_man.headers@[self.node(x).hash].blame + 1) as nat;
        let next = self.back(x, b);
        if x == root {
            let path = seq![x];
            assert(self.unblamed_walk(path) && path[0] == x && path.last() == root);
        } else if b <= d {
            self.lemma_subtree_ancestor(root, x, d, b);
            assert(self.parents() =~= arena_parents(self.nodes()));
            self.law_vote_follows_unblamed(next, root, (d - b) as nat);
            if self.walks_to(next, root) {
                let rest = choose|path: Seq<usize>| #[trigger]
                    self.unblamed_walk(path) && path[0] == next && path.last() == root;
                let path = seq![x] + rest;
                assert forall|i: int, j: int| 0 <= i && j == i + 1 && j < path.len() implies
                    #[trigger] path[j] == self.back(
                    #[trigger] path[i],
                    (self.data_man.headers@[self.node(path[i]).hash].blame + 1) as nat,
                ) by {
                    if i > 0 {
                        assert(rest[j - 1] == path[j] && rest[i - 1] == path[i]);
                    }
                }
                assert(self.unblamed_walk(path) && path[0] == x && path.last() == root);
            }
            if self.walks_to(x, root) {
                let path = choose|path: Seq<usize>| #[trigger]
                    self.unblamed_walk(path) && path[0] == x && path.last() == root;
                assert(path.len() > 1);
                assert(path[1] == next) by {
                    assert(path[0] == x);
                }
                self.lemma_walk_tail(path, root);
            }
        } else {
            if self.walks_to(x, root) {
                let path = choose|path: Seq<usize>| #[trigger]
                    self.unblamed_walk(path) && path[0] == x && path.last() == root;
                assert(path.len() > 1);
                assert(path[1] == next) by {
                    assert(path[0] == x);
                }
                if next == NULL {
                    self.lemma_walk_null(path, 1, path.len() - 1);
                } else {
                    // What is before `root` is older.
                    lemma_ancestor_add(self.parents(), x, d, (b - d) as nat);
                    self.lemma_back_older(root, (b - d) as nat);
                    let tail = path.subrange(1, path.len() as int);
                    self.lemma_walk_tail(path, root);
                    assert(tail[0] == next);
                    self.lemma_walk_older(tail, tail.len() - 1);
                    assert(tail.last() == root);
                }
            }
        }
    }

    /// A walk without its first block is a walk.
    proof fn lemma_walk_tail(&self, path: Seq<usize>, root: usize)
        requires
            self.unblamed_walk(path),
            path.len() > 1,
            path.last() == root,
        ensures
            self.unblamed_walk(path.subrange(1, path.len() as int)),
            self.walks_to(path[1], root),
    {
        let tail = path.subrange(1, path.len() as int);
        assert forall|i: int, j: int| 0 <= i && j == i + 1 && j < tail.len() implies
            #[trigger] tail[j] == self.back(
            #[trigger] tail[i],
            (self.data_man.headers@[self.node(tail[i]).hash].blame + 1) as nat,
        ) by {
            assert(tail[j] == path[j + 1] && tail[i] == path[i + 1]);
        }
        assert(self.unblamed_walk(tail) && tail[0] == path[1] && tail.last() == root);
    }

    /// The blocks whose votes on a block count are the block and those below it, down to a number of
    /// steps.
    pub proof fn law_voters_are_below(&self, root: usize, blame_bound: Option<u32>)
        requires
            self.wf(),
            self.has(root),
            subtree_linked(self.nodes(), root),
        ensures
            ({
                let bound = match blame_bound {
                    Some(b) => b as int,
                    None => u32::MAX as int,
                };
                let voters = self.voters(root, blame_bound);
                &&& voters.contains(root)
                &&& forall|x: usize| #[trigger]
                    voters.contains(x) ==> self.has(x) && exists|d: nat|
                        d <= bound && #[trigger] self.back(x, d) == root
                &&& forall|x: usize, c: usize, d: nat|
                    voters.contains(x) && #[trigger] self.back(x, d) == root && d < bound
                        && #[trigger] self.node(x).children@.contains(c) ==> voters.contains(c)
            }),
    {
        let nodes = self.nodes();
        let edge = child_steps(nodes);
        let bound = match blame_bound {
            Some(b) => b as int,
            None => u32::MAX as int,
        };
        let voters = self.voters(root, blame_bound);
        assert(reaches_in(edge, set![root], root, 0));
        assert(voters.contains(root));
        assert forall|x: usize| #[trigger] voters.contains(x) implies self.has(x) && exists|d: nat|
            d <= bound && #[trigger] self.back(x, d) == root by {
            let d = choose|d: nat| d <= bound && #[trigger] reaches_in(edge, set![root], x, d);
            self.lemma_steps_back(x, root, d);
            assert(self.back(x, d) == root);
        }
        assert forall|x: usize, c: usize, d: nat|
            voters.contains(x) && #[trigger] self.back(x, d) == root && d < bound
                && #[trigger] self.node(x).children@.contains(c) implies voters.contains(c) by {
            let e = choose|e: nat| e <= bound && #[trigger] reaches_in(edge, set![root], x, e);
            self.lemma_steps_back(x, root, e);
            // The steps back to a block are the same in every way.
            self.lemma_same_steps(x, root, d, e);
            assert(edge(x, c));
            assert(reaches_in(edge, set![root], x, ((e + 1) - 1) as nat));
            assert(reaches_in(edge, set![root], c, e + 1));
        }
    }

    /// A block is met once only going back.
    proof fn lemma_same_steps(&self, x: usize, y: usize, d: nat, e: nat)
        requires
            self.wf(),
            self.has(x),
            y != NULL,
            self.back(x, d) == y,
            self.back(x, e) == y,
        ensures
            d == e,
    {
        if self.nodes().contains_key(NULL) {
            assert(self.has(NULL));
        }
        if d < e {
            self.lemma_back_node(x, d, d);
            lemma_ancestor_add(self.parents(), x, d, (e - d) as nat);
            self.lemma_back_older(y, (e - d) as nat);
        } else if e < d {
            self.lemma_back_node(x, e, e);
            lemma_ancestor_add(self.parents(), x, e, (d - e) as nat);
            self.lemma_back_older(y, (d - e) as nat);
        }
    }

    /// The number of votes against a block is that of its voters from which one does not come to it
    /// by going back over blamed blocks. It is trusted by votes if these are less than two fifths of
    /// its voters.
    pub proof fn law_votes_are_counted(&self, root: usize, blame_bound: Option<u32>)
        requires
            self.wf(),
            self.has(root),
            subtree_linked(self.nodes(), root),
            self.voters(root, blame_bound).finite(),
        ensures
            ({
                let voters = self.voters(root, blame_bound);
                let against = voters.filter(|x: usize| !self.walks_to(x, root));
                &&& set_sum(voters, self.vote_against(root)) == against.len()
                &&& self.trusted_by_votes(root, blame_bound) <==> against.len() * 5
                    < voters.len() * 2
            }),
    {
        let voters = self.voters(root, blame_bound);
        let edge = child_steps(self.nodes());
        assert forall|x: usize| #[trigger] voters.contains(x) implies (self.vote_against(root))(x)
            == (if self.walks_to(x, root) {
            0int
        } else {
            1
        }) by {
            let d = choose|d: nat| #[trigger] reaches_in(edge, set![root], x, d);
            self.law_vote_follows_unblamed(x, root, d);
        }
        lemma_count(voters, self.vote_against(root), |x: usize| !self.walks_to(x, root));
    }

    /// Whether a list of positions of the pivot chain, none before `from`, leads from the first one
    /// from there on that is trusted by votes back over blamed blocks as far as possible.
    pub open spec fn vouched_from(
        &self,
        from: int,
        blame_bound: Option<u32>,
        path: Seq<int>,
    ) -> bool {
        let blame = |p: int| self.data_man.headers@[self.node(self.pivot_chain@[p]).hash].blame;
        &&& path.len() > 0
        &&& forall|i: int|
            0 <= i < path.len() ==> from <= #[trigger] path[i] < self.pivot_chain@.len()
        &&& forall|i: int, j: int|
            0 <= i && j == i + 1 && j < path.len() ==> #[trigger] path[j] == #[trigger] path[i]
                - blame(path[i]) - 1
        &&& self.trusted_by_votes(self.pivot_chain@[path[0]], blame_bound)
        &&& forall|q: int|
            from <= q < path[0] ==> !self.trusted_by_votes(
                #[trigger] self.pivot_chain@[q],
                blame_bound,
            )
        &&& path.last() == from || path.last() - blame(path.last()) - 1 < from
    }

    proof fn lemma_vouched_back(&self, from: int, t: int) -> (path: Seq<int>)
        requires
            0 <= from <= t < self.pivot_chain@.len(),
        ensures
            path.len() > 0,
            path[0] == t,
            path.last() == self.trusted_back(from, t),
            forall|i: int|
                0 <= i < path.len() ==> from <= #[trigger] path[i] < self.pivot_chain@.len(),
            forall|i: int, j: int|
                0 <= i && j == i + 1 && j < path.len() ==> #[trigger] path[j]
                    == #[trigger] path[i] - self.blame(self.pivot_chain@[path[i]]) - 1,
            path.last() == from || path.last() - self.blame(self.pivot_chain@[path.last()]) - 1
                < from,
        decreases t,
    {
        let p = t - self.blame(self.pivot_chain@[t]) - 1;
        if t > from && p >= from {
            let rest = self.lemma_vouched_back(from, p);
            let path = seq![t] + rest;
            assert forall|i: int, j: int| 0 <= i && j == i + 1 && j < path.len() implies
                #[trigger] path[j] == #[trigger] path[i] - self.blame(self.pivot_chain@[path[i]])
                - 1 by {
                if i > 0 {
                    assert(rest[j - 1] == path[j] && rest[i - 1] == path[i]);
                }
            }
            assert forall|i: int| 0 <= i < path.len() implies from <= #[trigger] path[i]
                < self.pivot_chain@.len() by {
                if i > 0 {
                    assert(rest[i - 1] == path[i]);
                }
            }
            assert(path.last() == rest.last());
            path
        } else {
            seq![t]
        }
    }

    /// The trusted position that is found is met from the first one that is trusted by votes, going
    /// back over blamed blocks as far as possible; none is found only where none is trusted by votes.
    pub proof fn law_first_trusted_is_vouched_for(&self, from: int, blame_bound: Option<u32>)
        requires
            0 <= from,
        ensures
            match self.first_trusted(from, blame_bound) {
                Some(t) => exists|path: Seq<int>| #[trigger]
                    self.vouched_from(from, blame_bound, path) && path.last() == t,
                None => forall|q: int|
                    from <= q < self.pivot_chain@.len() ==> !self.trusted_by_votes(
                        #[trigger] self.pivot_chain@[q],
                        blame_bound,
                    ),
            },
    {
        self.law_votes_find_first(from, blame_bound);
        match self.first_trusted_from(from, blame_bound) {
            Some(t) => {
                let path = self.lemma_vouched_back(from, t);
                assert(self.vouched_from(from, blame_bound, path));
            },
            None => {},
        }
    }

    /// The trusted block for a checkpoint is a pivot block that a block trusted by votes vouches for,
    /// at least as many positions after the checkpoint as states are deferred and were asked for. A
    /// block that is not on the pivot chain has none, and neither has one after which no pivot block
    /// from there on is trusted by votes.
    pub proof fn law_trusted_block_for_checkpoint(&self, checkpoint_hash: H256, plus_depth: usize)
        requires
            self.wf(),
        ensures
            ({
                let c = self.hash_to_arena_indices@[checkpoint_hash];
                let position = self.node(c).height - self.cur_era_genesis_height;
                let from = position + plus_depth + 5;
                if self.hash_to_arena_indices@.contains_key(checkpoint_hash) && 0 <= position
                    < self.pivot_chain@.len() && self.pivot_chain@[position] == c {
                    match self.trusted_blame_block(checkpoint_hash, plus_depth) {
                        Some(h) => exists|path: Seq<int>| #[trigger]
                            self.vouched_from(from, None, path) && h == self.node(
                                self.pivot_chain@[path.last()],
                            ).hash,
                        None => forall|q: int|
                            from <= q < self.pivot_chain@.len() ==> !self.trusted_by_votes(
                                #[trigger] self.pivot_chain@[q],
                                None,
                            ),
                    }
                } else {
                    self.trusted_blame_block(checkpoint_hash, plus_depth) is None
                }
            }),
    {
        if self.is_checkpoint(checkpoint_hash) {
            let from = self.trust_from(checkpoint_hash, plus_depth);
            self.law_first_trusted_is_vouched_for(from, None);
            if let Some(t) = self.first_trusted(from, None) {
                let path = choose|path: Seq<int>| #[trigger]
                    self.vouched_from(from, None, path) && path.last() == t;
                assert(self.vouched_from(from, None, path) && path.last() == t);
            }
        }
    }
}

/// A sum of zeros and ones is the number of ones.
proof fn lemma_count(s: Set<usize>, f: spec_fn(usize) -> int, counted: spec_fn(usize) -> bool)
    requires
        s.finite(),
        forall|x: usize| #[trigger]
            s.contains(x) ==> f(x) == (if counted(x) {
                1int
            } else {
                0
            }),
    ensures
        s.filter(counted).finite(),
        set_sum(s, f) == s.filter(counted).len(),
    decreases s.len(),
{
    if s.len() == 0 {
        assert(s.filter(counted) =~= Set::empty());
    } else {
        let x = s.choose();
        assert(s.contains(x));
        lemma_count(s.remove(x), f, counted);
        if counted(x) {
            assert(s.filter(counted) =~= s.remove(x).filter(counted).insert(x));
        } else {
            assert(s.filter(counted) =~= s.remove(x).filter(counted));
        }
    }
}

} // verus!
