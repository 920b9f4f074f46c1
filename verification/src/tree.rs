//! Rooted trees over arena indices with a weight on every node, and updates along paths.
use std::collections::HashMap;

use vstd::prelude::*;
use vstd::std_specs::iter::IteratorSpec;

use crate::lineage::{
    ancestor, ancestor_at_depth, depth, has_depth, is_lca, lca_of, lemma_ancestor_add,
    lemma_ancestor_distinct, lemma_ancestor_prefix, lemma_ancestor_ranked,
    lemma_depth_exists, lemma_depth_is, lemma_depth_of_ancestor, lemma_lca_unique,
    lemma_on_path_by_depth, lemma_on_path_same_depth, lemma_on_path_trans, on_path, parent_of,
    ranked,
};
use crate::types::NULL;

verus! {

broadcast use vstd::std_specs::hash::group_hash_axioms;

/// A node of a tree: its parent, `NULL` at a root, and its weight.
#[derive(Clone, Copy)]
pub struct TreeNode {
    pub parent: usize,
    pub value: i128,
}

/// A forest whose nodes are arena indices.
pub struct LinkCutTree {
    nodes: HashMap<usize, TreeNode>,
    rank: Ghost<Map<usize, nat>>,
}

/// Whether `a` has a parent that is on the line from the root to `v`.
pub open spec fn hangs_on_path(parents: Map<usize, usize>, a: usize, v: usize) -> bool {
    parent_of(parents, a) != NULL && on_path(parents, parent_of(parents, a), v)
}

/// Whether `a` is on the line from `v` up to `top`, `top` itself not counted.
pub open spec fn on_chopped_path(
    parents: Map<usize, usize>,
    a: usize,
    v: usize,
    top: usize,
) -> bool {
    on_path(parents, a, v) && !on_path(parents, a, top)
}

impl LinkCutTree {
    pub closed spec fn view(&self) -> Map<usize, TreeNode> {
        self.nodes@
    }

    /// The parent of each node.
    pub open spec fn parents(&self) -> Map<usize, usize> {
        self.view().map_values(|n: TreeNode| n.parent)
    }

    /// The weight of a node.
    pub open spec fn value(&self, v: usize) -> int {
        self.view()[v].value as int
    }

    pub open spec fn has(&self, v: usize) -> bool {
        self.view().contains_key(v)
    }

    /// Whether every link leads upwards inside the forest.
    pub closed spec fn wf(&self) -> bool {
        ranked(self.parents(), self.rank@)
    }

    /// A rank that falls along every link.
    pub closed spec fn ranks(&self) -> Map<usize, nat> {
        self.rank@
    }

    pub proof fn lemma_ranked(&self)
        requires
            self.wf(),
        ensures
            ranked(self.parents(), self.ranks()),
    {
    }

    /// The parent links are those of the nodes.
    pub proof fn lemma_parents(&self, v: usize)
        ensures
            self.parents().contains_key(v) == self.has(v),
            self.has(v) ==> self.parents()[v] == self.view()[v].parent,
    {
    }

    /// Forests with the same links and weights are the same.
    pub proof fn lemma_same(&self, other: &LinkCutTree)
        requires
            other.parents() == self.parents(),
            forall|u: usize| #[trigger] self.has(u) ==> other.value(u) == self.value(u),
        ensures
            other.view() == self.view(),
    {
        assert(other.view().dom() =~= other.parents().dom());
        assert(self.view().dom() =~= self.parents().dom());
        assert forall|u: usize| #[trigger] self.view().contains_key(u) implies other.view()[u]
            == self.view()[u] by {
            assert(self.has(u));
            other.lemma_parents(u);
            self.lemma_parents(u);
        }
        assert(other.view() =~= self.view());
    }

    pub fn new() -> (r: LinkCutTree)
        ensures
            r.wf(),
            r.view() == Map::<usize, TreeNode>::empty(),
    {
        LinkCutTree { nodes: HashMap::new(), rank: Ghost(Map::empty()) }
    }

    /// Makes `v` a tree of its own, with weight zero.
    pub fn make_tree(&mut self, v: usize)
        requires
            old(self).wf(),
            v != NULL,
            forall|u: usize| #[trigger] old(self).has(u) ==> old(self).view()[u].parent != v,
        ensures
            final(self).wf(),
            final(self).view() == old(self).view().insert(v, TreeNode { parent: NULL, value: 0 }),
    {
        self.nodes.insert(v, TreeNode { parent: NULL, value: 0 });
        assert(ranked(self.parents(), self.rank@)) by {
            assert forall|u: usize| #[trigger]
                self.parents().contains_key(u) && self.parents()[u] != NULL implies self.parents().contains_key(
            self.parents()[u]) && self.rank@[self.parents()[u]] < self.rank@[u] by {
                assert(old(self).has(u));
                assert(old(self).parents().contains_key(u));
                assert(old(self).parents()[u] == self.parents()[u]);
            }
            assert(!old(self).parents().contains_key(NULL));
        }
    }

    /// Hangs the tree rooted at `child` under `parent`.
    pub fn link(&mut self, parent: usize, child: usize)
        requires
            old(self).wf(),
            old(self).has(parent),
            old(self).has(child),
            old(self).view()[child].parent == NULL,
            !on_path(old(self).parents(), child, parent),
        ensures
            final(self).wf(),
            final(self).view() == old(self).view().insert(
                child,
                TreeNode { parent, value: old(self).view()[child].value },
            ),
    {
        let node: TreeNode = *self.nodes.get(&child).unwrap();
        self.nodes.insert(child, TreeNode { parent, value: node.value });
        proof {
            let before = old(self).parents();
            let rank = old(self).rank@;
            let lifted = Map::new(
                |x: usize| true,
                |x: usize|
                    if on_path(before, child, x) {
                        rank[x] + rank[parent] + 1
                    } else {
                        rank[x]
                    },
            );
            self.rank@ = lifted;
            assert(!before.contains_key(NULL));
            assert(before.contains_key(parent));
            assert(before.contains_key(child));
            assert forall|u: usize| #[trigger]
                self.parents().contains_key(u) && self.parents()[u] != NULL implies self.parents().contains_key(
            self.parents()[u]) && lifted[self.parents()[u]] < lifted[u] by {
                if u == child {
                    assert(ancestor(before, child, 0) == child);
                    assert(on_path(before, child, child));
                } else {
                    assert(before.contains_key(u) && before[u] == self.parents()[u]);
                    let p = before[u];
                    assert(before.contains_key(p) && rank[p] < rank[u]);
                    assert(ancestor(before, u, 0) == u);
                    assert(ancestor(before, u, 1) == parent_of(before, ancestor(before, u, 0)));
                    if on_path(before, child, p) {
                        assert(on_path(before, p, u));
                        lemma_on_path_trans(before, child, p, u);
                    }
                    if on_path(before, child, u) {
                        let k = choose|k: nat| #[trigger] ancestor(before, u, k) == child;
                        assert(k != 0);
                        lemma_ancestor_add(before, u, 1, (k - 1) as nat);
                        assert(ancestor(before, p, (k - 1) as nat) == child);
                    }
                }
            }
        }
    }

    /// Cuts `me` off its parent; it becomes a root.
    pub fn split_root(&mut self, parent: usize, me: usize)
        requires
            old(self).wf(),
            old(self).has(me),
            old(self).view()[me].parent == parent,
        ensures
            final(self).wf(),
            final(self).view() == old(self).view().insert(
                me,
                TreeNode { parent: NULL, value: old(self).view()[me].value },
            ),
    {
        let node: TreeNode = *self.nodes.get(&me).unwrap();
        self.nodes.insert(me, TreeNode { parent: NULL, value: node.value });
        assert(ranked(self.parents(), self.rank@)) by {
            let before = old(self).parents();
            assert(!before.contains_key(NULL));
            assert forall|u: usize| #[trigger]
                self.parents().contains_key(u) && self.parents()[u] != NULL implies self.parents().contains_key(
            self.parents()[u]) && self.rank@[self.parents()[u]] < self.rank@[u] by {
                assert(before.contains_key(u) && before[u] == self.parents()[u]);
            }
        }
    }

    /// The weight of `v`.
    pub fn get(&self, v: usize) -> (r: i128)
        requires
            self.has(v),
        ensures
            r == self.value(v),
    {
        self.nodes.get(&v).unwrap().value
    }

    /// The parent of `v`, `NULL` for a root and for what is not in the forest.
    fn parent(&self, v: usize) -> (r: usize)
        ensures
            r == parent_of(self.parents(), v),
    {
        match self.nodes.get(&v) {
            Some(n) => n.parent,
            None => NULL,
        }
    }

    /// Sets the weight of `v`.
    pub fn set(&mut self, v: usize, value: i128)
        requires
            old(self).wf(),
            old(self).has(v),
        ensures
            final(self).wf(),
            final(self).view() == old(self).view().insert(
                v,
                TreeNode { parent: old(self).view()[v].parent, value },
            ),
            final(self).parents() == old(self).parents(),
    {
        let node: TreeNode = *self.nodes.get(&v).unwrap();
        self.nodes.insert(v, TreeNode { parent: node.parent, value });
        assert(self.parents() =~= old(self).parents());
    }

    /// Adds `delta` to the weight of `v` and of all its ancestors.
    pub fn path_apply(&mut self, v: usize, delta: i128)
        requires
            old(self).wf(),
            old(self).has(v),
            forall|u: usize| #[trigger]
                on_path(old(self).parents(), u, v) ==> i128::MIN <= old(self).value(u) + delta
                    <= i128::MAX,
        ensures
            final(self).wf(),
            final(self).parents() == old(self).parents(),
            forall|u: usize| #[trigger]
                final(self).has(u) ==> final(self).value(u) == old(self).value(u) + (if on_path(
                    old(self).parents(),
                    u,
                    v,
                ) {
                    delta as int
                } else {
                    0
                }),
    {
        let ghost parents = self.parents();
        let ghost rank = self.rank@;
        let ghost mut k: nat = 0;
        let mut cur: usize = v;
        assert(ancestor(parents, v, 0) == v);
        assert(parents.contains_key(v));
        assert(!parents.contains_key(NULL));
        proof {
            lemma_ancestor_ranked(parents, rank, v, 0);
        }
        while cur != NULL
            invariant
                parents == old(self).parents(),
                self.rank@ == rank,
                self.parents() == parents,
                ranked(parents, rank),
                parents.contains_key(v),
                cur == ancestor(parents, v, k),
                cur != NULL ==> parents.contains_key(cur) && rank[cur] + k <= rank[v],
                forall|u: usize| #[trigger]
                    on_path(old(self).parents(), u, v) ==> i128::MIN <= old(self).value(u) + delta
                        <= i128::MAX,
                forall|u: usize| #[trigger]
                    self.has(u) ==> self.value(u) == old(self).value(u) + (if exists|j: nat|
                        j < k && u != NULL && #[trigger] ancestor(parents, v, j) == u {
                        delta as int
                    } else {
                        0
                    }),
            decreases
                    if cur == NULL {
                        0
                    } else {
                        rank[cur] + 1
                    },
        {
            let ghost before = *self;
            assert(self.has(cur));
            assert(on_path(parents, cur, v));
            proof {
                assert forall|j: nat| j < k implies #[trigger] ancestor(parents, v, j) != cur by {
                    lemma_ancestor_distinct(parents, rank, v, j, k);
                }
                lemma_ancestor_ranked(parents, rank, v, k + 1);
            }
            assert(self.value(cur) == old(self).value(cur));
            let node: TreeNode = *self.nodes.get(&cur).unwrap();
            self.nodes.insert(cur, TreeNode { parent: node.parent, value: node.value + delta });
            assert(self.parents() =~= parents);
            let ghost at = cur;
            cur = node.parent;
            proof {
                assert(ancestor(parents, v, k + 1) == parent_of(parents, ancestor(parents, v, k)));
                assert forall|u: usize| #[trigger] self.has(u) implies self.value(u) == old(
                    self,
                ).value(u) + (if exists|j: nat|
                    j < k + 1 && u != NULL && #[trigger] ancestor(parents, v, j) == u {
                    delta as int
                } else {
                    0
                }) by {
                    assert(before.has(u));
                    if u == at {
                        assert(ancestor(parents, v, k) == u);
                    } else {
                        if exists|j: nat| j < k + 1 && u != NULL && #[trigger] ancestor(parents, v, j) == u {
                            let j = choose|j: nat|
                                j < k + 1 && u != NULL && #[trigger] ancestor(parents, v, j) == u;
                            assert(j < k);
                        }
                        if exists|j: nat| j < k && u != NULL && #[trigger] ancestor(parents, v, j) == u {
                            let j = choose|j: nat|
                                j < k && u != NULL && #[trigger] ancestor(parents, v, j) == u;
                            assert(j < k + 1);
                        }
                    }
                }
                k = k + 1;
            }
        }
        proof {
            assert forall|u: usize| #[trigger] self.has(u) implies self.value(u) == old(
                self,
            ).value(u) + (if on_path(old(self).parents(), u, v) {
                delta as int
            } else {
                0
            }) by {
                if on_path(parents, u, v) {
                    let j = choose|j: nat| #[trigger] ancestor(parents, v, j) == u;
                    if j >= k {
                        lemma_ancestor_prefix(parents, v, k, j);
                    }
                }
            }
        }
    }

    /// The nodes of the forest, in no particular order.
    fn keys(&self) -> (r: Vec<usize>)
        ensures
            r@.no_duplicates(),
            forall|u: usize| r@.contains(u) == self.has(u),
    {
        let mut r: Vec<usize> = Vec::new();
        let iter = self.nodes.keys();
        let ghost all = iter.remaining();
        for k in it: iter
            invariant
                it.seq() == all,
                r@.len() == it.index(),
                forall|i: int| 0 <= i < r@.len() ==> r@[i] == *#[trigger] all[i],
        {
            r.push(*k);
        }
        proof {
            assert(r@ =~= all.unref());
            assert forall|u: usize| r@.contains(u) == self.has(u) by {
                assert(r@.to_set().contains(u) == self.nodes@.dom().contains(u));
            }
            assert forall|i: int, j: int| 0 <= i < j < r@.len() implies r@[i] != r@[j] by {
                assert(all[i] != all[j]);
            }
        }
        r
    }

    /// Adds `delta` to the weight of every node whose parent is `v` or an ancestor of `v`.
    pub fn caterpillar_apply(&mut self, v: usize, delta: i128)
        requires
            old(self).wf(),
            old(self).has(v),
            forall|u: usize| #[trigger]
                old(self).has(u) && hangs_on_path(old(self).parents(), u, v) ==> i128::MIN <= old(
                    self,
                ).value(u) + delta <= i128::MAX,
        ensures
            final(self).wf(),
            final(self).parents() == old(self).parents(),
            forall|u: usize| #[trigger]
                final(self).has(u) ==> final(self).value(u) == old(self).value(u) + (
                if hangs_on_path(old(self).parents(), u, v) {
                    delta as int
                } else {
                    0
                }),
    {
        let keys: Vec<usize> = self.keys();
        let ghost parents = self.parents();
        let mut i: usize = 0;
        while i < keys.len()
            invariant
                i <= keys.len(),
                keys@.no_duplicates(),
                parents == old(self).parents(),
                self.parents() == parents,
                self.wf(),
                self.has(v),
                forall|u: usize| keys@.contains(u) == self.has(u),
                forall|u: usize| #[trigger]
                    old(self).has(u) && hangs_on_path(parents, u, v) ==> i128::MIN <= old(
                        self,
                    ).value(u) + delta <= i128::MAX,
                forall|u: usize| #[trigger]
                    self.has(u) ==> old(self).has(u) && self.value(u) == old(self).value(u) + (
                    if hangs_on_path(parents, u, v) && keys@.take(i as int).contains(u) {
                        delta as int
                    } else {
                        0
                    }),
            decreases keys.len() - i,
        {
            let u: usize = keys[i];
            assert(keys@.contains(u));
            let ghost before = *self;
            let p: usize = self.parent(u);
            assert(!keys@.take(i as int).contains(u)) by {
                if keys@.take(i as int).contains(u) {
                    let j = choose|j: int| 0 <= j < i && keys@.take(i as int)[j] == u;
                    assert(keys@[j] == keys@[i as int]);
                }
            }
            if p != NULL && self.is_on_path(p, v) {
                let node: TreeNode = *self.nodes.get(&u).unwrap();
                self.nodes.insert(u, TreeNode { parent: node.parent, value: node.value + delta });
                assert(self.parents() =~= parents);
            }
            proof {
                assert forall|w: usize| #[trigger] self.has(w) implies old(self).has(w)
                    && self.value(w) == old(self).value(w) + (if hangs_on_path(parents, w, v)
                    && keys@.take(i + 1).contains(w) {
                    delta as int
                } else {
                    0
                }) by {
                    assert(before.has(w));
                    let next = keys@.take(i + 1);
                    assert(next =~= keys@.take(i as int).push(u));
                    if w == u {
                        assert(next[i as int] == u);
                    } else {
                        if keys@.take(i as int).contains(w) {
                            let j = choose|j: int| 0 <= j < i && keys@.take(i as int)[j] == w;
                            assert(next[j] == w);
                        }
                        if next.contains(w) {
                            let j = choose|j: int| 0 <= j < next.len() && next[j] == w;
                            assert(keys@.take(i as int)[j] == w);
                        }
                    }
                }
            }
            i = i + 1;
        }
        assert(keys@.take(i as int) =~= keys@);
    }

    /// Whether `u` is `v` or an ancestor of it.
    pub fn is_on_path(&self, u: usize, v: usize) -> (r: bool)
        requires
            self.wf(),
            self.has(v),
            u != NULL,
        ensures
            r == on_path(self.parents(), u, v),
    {
        let ghost parents = self.parents();
        let ghost rank = self.rank@;
        let ghost mut k: nat = 0;
        let mut cur: usize = v;
        assert(ancestor(parents, v, 0) == v);
        assert(parents.contains_key(v));
        while cur != NULL
            invariant
                u != NULL,
                parents == self.parents(),
                rank == self.rank@,
                ranked(parents, rank),
                parents.contains_key(v),
                cur == ancestor(parents, v, k),
                cur != NULL ==> parents.contains_key(cur),
                forall|j: nat| j < k ==> #[trigger] ancestor(parents, v, j) != u,
            decreases
                    if cur == NULL {
                        0
                    } else {
                        rank[cur] + 1
                    },
        {
            if cur == u {
                return true;
            }
            proof {
                assert(ancestor(parents, v, k + 1) == parent_of(parents, ancestor(parents, v, k)));
                lemma_ancestor_ranked(parents, rank, v, k + 1);
                k = k + 1;
            }
            cur = self.parent(cur);
        }
        proof {
            if on_path(parents, u, v) {
                let j = choose|j: nat| #[trigger] ancestor(parents, v, j) == u;
                lemma_ancestor_prefix(parents, v, k, j);
            }
        }
        false
    }

    /// The least weight on the line from `v` up to `top`, `top` itself not counted.
    pub fn path_aggregate_chop(&self, v: usize, top: usize) -> (r: i128)
        requires
            self.wf(),
            self.has(v),
            v != top,
            on_path(self.parents(), top, v),
        ensures
            exists|a: usize| #[trigger]
                on_chopped_path(self.parents(), a, v, top) && self.value(a) == r,
            forall|a: usize| #[trigger]
                on_chopped_path(self.parents(), a, v, top) ==> r <= self.value(a),
    {
        let ghost parents = self.parents();
        let ghost rank = self.rank@;
        let ghost n = choose|k: nat| #[trigger] ancestor(parents, v, k) == top;
        assert(ancestor(parents, v, 0) == v);
        assert(parents.contains_key(v));
        proof {
            lemma_ancestor_ranked(parents, rank, v, n);
            assert forall|j: nat| j < n implies on_chopped_path(
                parents,
                #[trigger] ancestor(parents, v, j),
                v,
                top,
            ) by {
                self.lemma_below_top(v, top, j, n);
            }
        }
        let mut best: i128 = self.get(v);
        let mut cur: usize = self.parent(v);
        let ghost mut k: nat = 1;
        assert(ancestor(parents, v, 1) == parent_of(parents, ancestor(parents, v, 0)));
        proof {
            if n >= 1 {
                lemma_ancestor_prefix(parents, v, 1, n);
                lemma_ancestor_ranked(parents, rank, v, 1);
            }
        }
        while cur != top
            invariant
                parents == self.parents(),
                rank == self.rank@,
                ranked(parents, rank),
                parents.contains_key(v),
                cur == ancestor(parents, v, k),
                parents.contains_key(cur),
                1 <= k <= n,
                ancestor(parents, v, n) == top,
                top != NULL,
                exists|j: nat| j < k && self.value(#[trigger] ancestor(parents, v, j)) == best,
                forall|j: nat| j < k ==> best <= self.value(#[trigger] ancestor(parents, v, j)),
            decreases n - k,
        {
            let value: i128 = self.get(cur);
            if value < best {
                best = value;
            }
            proof {
                assert(ancestor(parents, v, k + 1) == parent_of(parents, ancestor(parents, v, k)));
                assert(k < n);
                lemma_ancestor_prefix(parents, v, k + 1, n);
                lemma_ancestor_ranked(parents, rank, v, k + 1);
                assert(self.value(ancestor(parents, v, k)) == value);
                k = k + 1;
            }
            cur = self.parent(cur);
        }
        proof {
            if k < n {
                lemma_ancestor_distinct(parents, rank, v, k, n);
            }
            let j = choose|j: nat| j < k && self.value(#[trigger] ancestor(parents, v, j)) == best;
            assert(on_chopped_path(parents, ancestor(parents, v, j), v, top));
            assert forall|a: usize| #[trigger] on_chopped_path(parents, a, v, top) implies best
                <= self.value(a) by {
                let i = choose|i: nat| #[trigger] ancestor(parents, v, i) == a;
                if i >= n {
                    lemma_ancestor_add(parents, v, n, (i - n) as nat);
                    assert(on_path(parents, a, top));
                }
            }
        }
        best
    }

    proof fn lemma_below_top(&self, v: usize, top: usize, j: nat, n: nat)
        requires
            self.wf(),
            self.has(v),
            top != NULL,
            ancestor(self.parents(), v, n) == top,
            j < n,
        ensures
            on_chopped_path(self.parents(), ancestor(self.parents(), v, j), v, top),
    {
        let parents = self.parents();
        let rank = self.rank@;
        let a = ancestor(parents, v, j);
        lemma_ancestor_prefix(parents, v, j, n);
        lemma_ancestor_ranked(parents, rank, v, n);
        lemma_depth_of_ancestor(parents, rank, v, j);
        lemma_depth_of_ancestor(parents, rank, v, n);
        if on_path(parents, a, top) {
            let i = choose|i: nat| #[trigger] ancestor(parents, top, i) == a;
            lemma_depth_of_ancestor(parents, rank, top, i);
        }
    }

    /// The number of nodes above `v`.
    fn depth_of(&self, v: usize) -> (r: usize)
        requires
            self.wf(),
            self.has(v),
        ensures
            r as nat == depth(self.parents(), v),
    {
        let ghost parents = self.parents();
        let ghost rank = self.rank@;
        let mut d: usize = 0;
        let mut cur: usize = self.parent(v);
        assert(ancestor(parents, v, 0) == v);
        assert(ancestor(parents, v, 1) == parent_of(parents, ancestor(parents, v, 0)));
        proof {
            lemma_ancestor_ranked(parents, rank, v, 0);
            lemma_ancestor_ranked(parents, rank, v, 1);
        }
        while cur != NULL
            invariant
                parents == self.parents(),
                rank == self.rank@,
                self.wf(),
                ranked(parents, rank),
                parents.contains_key(v),
                cur == ancestor(parents, v, (d + 1) as nat),
                cur != NULL ==> parents.contains_key(cur),
                ancestor(parents, v, d as nat) != NULL,
            decreases
                    if cur == NULL {
                        0
                    } else {
                        rank[cur] + 1
                    },
        {
            proof {
                self.lemma_depth_fits(v, (d + 1) as nat);
                assert(ancestor(parents, v, (d + 2) as nat) == parent_of(
                    parents,
                    ancestor(parents, v, (d + 1) as nat),
                ));
                lemma_ancestor_ranked(parents, rank, v, (d + 2) as nat);
            }
            d = d + 1;
            cur = self.parent(cur);
        }
        proof {
            assert(has_depth(parents, v, d as nat));
            lemma_depth_is(parents, v, d as nat);
        }
        d
    }

    /// The nodes of a line are as many different machine words.
    proof fn lemma_depth_fits(&self, v: usize, k: nat)
        requires
            self.wf(),
            self.has(v),
            ancestor(self.parents(), v, k) != NULL,
        ensures
            k < usize::MAX,
    {
        let parents = self.parents();
        let rank = self.rank@;
        let line = Seq::new(k + 1, |i: int| ancestor(parents, v, i as nat));
        assert forall|i: int, j: int| 0 <= i < j < line.len() implies line[i] != line[j] by {
            lemma_ancestor_prefix(parents, v, j as nat, k);
            lemma_ancestor_distinct(parents, rank, v, i as nat, j as nat);
        }
        assert forall|i: int| 0 <= i < line.len() implies #[trigger] line[i] != NULL by {
            lemma_ancestor_prefix(parents, v, i as nat, k);
        }
        assert(line.no_duplicates());
        line.unique_seq_to_set();
        crate::index_set::lemma_bounded_set(line.to_set(), usize::MAX as nat);
    }

    /// The node at depth `at` on the line from the root to `v`, or `NULL` where the line is
    /// shorter.
    pub fn ancestor_at(&self, v: usize, at: usize) -> (r: usize)
        requires
            self.wf(),
            self.has(v),
        ensures
            r == ancestor_at_depth(self.parents(), v, at as nat),
            r != NULL ==> self.has(r),
    {
        let d: usize = self.depth_of(v);
        if at > d {
            return NULL;
        }
        let r: usize = self.climb(v, d - at);
        proof {
            lemma_depth_exists(self.parents(), self.rank@, v);
            lemma_ancestor_prefix(self.parents(), v, (d - at) as nat, d as nat);
        }
        r
    }

    /// The node `steps` above `v`.
    fn climb(&self, v: usize, steps: usize) -> (r: usize)
        requires
            self.wf(),
            self.has(v),
            steps as nat <= depth(self.parents(), v),
        ensures
            r == ancestor(self.parents(), v, steps as nat),
            self.has(r),
    {
        let ghost parents = self.parents();
        let ghost rank = self.rank@;
        let mut cur: usize = v;
        let mut k: usize = 0;
        assert(ancestor(parents, v, 0) == v);
        proof {
            assert(parents.contains_key(v));
            lemma_depth_exists(parents, rank, v);
        }
        while k < steps
            invariant
                parents == self.parents(),
                rank == self.rank@,
                ranked(parents, rank),
                parents.contains_key(v),
                has_depth(parents, v, depth(parents, v)),
                steps as nat <= depth(parents, v),
                k <= steps,
                cur == ancestor(parents, v, k as nat),
                parents.contains_key(cur),
            decreases steps - k,
        {
            proof {
                assert(ancestor(parents, v, (k + 1) as nat) == parent_of(
                    parents,
                    ancestor(parents, v, k as nat),
                ));
                lemma_ancestor_prefix(parents, v, (k + 1) as nat, depth(parents, v));
                lemma_ancestor_ranked(parents, rank, v, (k + 1) as nat);
            }
            cur = self.parent(cur);
            k = k + 1;
        }
        cur
    }

    /// The lowest common ancestor of `u` and `v`, or `NULL` where they are in different trees.
    pub fn lca(&self, u: usize, v: usize) -> (r: usize)
        requires
            self.wf(),
            self.has(u),
            self.has(v),
        ensures
            is_lca(self.parents(), u, v, r),
            r == lca_of(self.parents(), u, v),
            r != NULL ==> self.has(r),
    {
        let ghost parents = self.parents();
        let ghost rank = self.rank@;
        let du: usize = self.depth_of(u);
        let dv: usize = self.depth_of(v);
        let m: usize = if du < dv {
            du
        } else {
            dv
        };
        let mut a: usize = self.climb(u, du - m);
        let mut b: usize = self.climb(v, dv - m);
        let ghost mut i: nat = (du - m) as nat;
        let ghost mut j: nat = (dv - m) as nat;
        proof {
            lemma_depth_exists(parents, rank, u);
            lemma_depth_exists(parents, rank, v);
            assert forall|c: usize| #[trigger]
                on_path(parents, c, u) && on_path(parents, c, v) implies depth(parents, c) <= m by {
                let x = choose|k: nat| #[trigger] ancestor(parents, u, k) == c;
                let y = choose|k: nat| #[trigger] ancestor(parents, v, k) == c;
                lemma_depth_of_ancestor(parents, rank, u, x);
                lemma_depth_of_ancestor(parents, rank, v, y);
            }
        }
        while a != b
            invariant
                parents == self.parents(),
                rank == self.rank@,
                ranked(parents, rank),
                parents.contains_key(u),
                parents.contains_key(v),
                du as nat == depth(parents, u),
                dv as nat == depth(parents, v),
                has_depth(parents, u, du as nat),
                has_depth(parents, v, dv as nat),
                a == ancestor(parents, u, i),
                b == ancestor(parents, v, j),
                du - i == dv - j,
                i <= du + 1,
                a != NULL ==> parents.contains_key(a),
                b != NULL ==> parents.contains_key(b),
                i == du + 1 ==> a == NULL && b == NULL,
                i <= du ==> a != NULL && b != NULL,
                forall|c: usize| #[trigger]
                    on_path(parents, c, u) && on_path(parents, c, v) ==> depth(parents, c) <= du - i,
            decreases du + 1 - i,
        {
            proof {
                lemma_depth_of_ancestor(parents, rank, u, i);
                lemma_depth_of_ancestor(parents, rank, v, j);
                assert forall|c: usize| #[trigger]
                    on_path(parents, c, u) && on_path(parents, c, v) implies depth(parents, c) <= du
                    - i - 1 by {
                    if depth(parents, c) == du - i {
                        assert(on_path(parents, a, u));
                        assert(on_path(parents, b, v));
                        lemma_on_path_same_depth(parents, rank, a, c, u);
                        lemma_on_path_same_depth(parents, rank, b, c, v);
                    }
                }
                assert(ancestor(parents, u, i + 1) == parent_of(parents, ancestor(parents, u, i)));
                assert(ancestor(parents, v, j + 1) == parent_of(parents, ancestor(parents, v, j)));
                lemma_ancestor_ranked(parents, rank, u, i + 1);
                lemma_ancestor_ranked(parents, rank, v, j + 1);
                if i + 1 <= du {
                    lemma_ancestor_prefix(parents, u, i + 1, du as nat);
                    lemma_ancestor_prefix(parents, v, j + 1, dv as nat);
                }
                i = i + 1;
                j = j + 1;
            }
            a = self.parent(a);
            b = self.parent(b);
        }
        proof {
            if a != NULL {
                lemma_depth_of_ancestor(parents, rank, u, i);
                assert(on_path(parents, a, u));
                assert(on_path(parents, a, v));
                assert forall|c: usize| #[trigger]
                    on_path(parents, c, u) && on_path(parents, c, v) implies on_path(
                    parents,
                    c,
                    a,
                ) by {
                    lemma_on_path_by_depth(parents, rank, c, a, u);
                }
            }
            assert(is_lca(parents, u, v, a));
            lemma_lca_unique(parents, rank, u, v, a, lca_of(parents, u, v));
        }
        a
    }
}

/// What hangs on the line to a node is what has a parent on it.
pub proof fn law_hangs_on_line(parents: Map<usize, usize>, a: usize, v: usize)
    ensures
        hangs_on_path(parents, a, v) <==> parents.contains_key(a) && parents[a] != NULL && on_path(
            parents,
            parents[a],
            v,
        ),
{
}

/// Where `top` is above `v`, or `v`, the line from `v` up to `top` without `top` is the nodes above `v`,
/// and `v`, that are below `top`.
pub proof fn law_chopped_line(
    parents: Map<usize, usize>,
    rank: Map<usize, nat>,
    a: usize,
    v: usize,
    top: usize,
)
    requires
        ranked(parents, rank),
        parents.contains_key(v),
        on_path(parents, top, v),
    ensures
        on_chopped_path(parents, a, v, top) <==> on_path(parents, a, v) && on_path(parents, top, a)
            && a != top,
{
    let i = choose|k: nat| #[trigger] ancestor(parents, v, k) == top;
    lemma_ancestor_ranked(parents, rank, v, i);
    assert(ancestor(parents, top, 0) == top);
    assert(on_path(parents, top, top));
    if on_path(parents, a, v) {
        let j = choose|k: nat| #[trigger] ancestor(parents, v, k) == a;
        lemma_ancestor_ranked(parents, rank, v, j);
        lemma_depth_of_ancestor(parents, rank, v, i);
        lemma_depth_of_ancestor(parents, rank, v, j);
        if i <= j {
            lemma_ancestor_add(parents, v, i, (j - i) as nat);
            assert(ancestor(parents, top, (j - i) as nat) == a);
            assert(on_path(parents, a, top));
            if on_path(parents, top, a) && a != top {
                let m = choose|k: nat| #[trigger] ancestor(parents, a, k) == top;
                lemma_depth_of_ancestor(parents, rank, a, m);
                assert(ancestor(parents, a, 0) == a);
            }
        } else {
            lemma_ancestor_add(parents, v, j, (i - j) as nat);
            assert(ancestor(parents, a, (i - j) as nat) == top);
            if on_path(parents, a, top) {
                let m = choose|k: nat| #[trigger] ancestor(parents, top, k) == a;
                lemma_depth_of_ancestor(parents, rank, top, m);
            }
        }
    }
}

} // verus!
