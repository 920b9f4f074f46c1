//! What lists of referees hold.
use vstd::prelude::*;

use crate::graph::ConsensusGraphInner;
use crate::lineage::{
    ancestor, depth, is_lca, lemma_lca_exists, lemma_lca_unique, lemma_on_path_by_depth,
    lemma_on_path_trans, on_path,
};
use crate::types::{H256, NULL};

verus! {

impl ConsensusGraphInner {
    /// Whether a block is in the era and stands in the weight tree.
    pub open spec fn in_era_tree(&self, x: usize) -> bool {
        self.has(x) && !self.legacy(x) && self.weight_tree.has(x)
    }

    /// Whether the listed blocks are in the era and stand in the weight tree.
    pub open spec fn all_in_era_tree(&self, list: Seq<usize>) -> bool {
        forall|k: int| 0 <= k < list.len() ==> self.in_era_tree(#[trigger] list[k])
    }

    /// Whether a block or one below it is listed.
    pub open spec fn listed_below(&self, list: Seq<usize>, x: usize) -> bool {
        exists|m: int|
            0 <= m < list.len() && on_path(self.weight_tree.parents(), x, #[trigger] list[m])
    }

    /// Whether no listed block is above another.
    pub open spec fn none_above_another(&self, list: Seq<usize>) -> bool {
        forall|i: int, j: int|
            0 <= i < list.len() && 0 <= j < list.len() && i != j ==> !on_path(
                self.weight_tree.parents(),
                #[trigger] list[i],
                #[trigger] list[j],
            )
    }

    /// The lowest common ancestor of two blocks is one of them exactly if that is above the other.
    proof fn lemma_ancestor_is_common(&self, a: usize, b: usize)
        requires
            self.wf(),
            self.in_era_tree(a),
            self.in_era_tree(b),
        ensures
            self.common_ancestor(a, b) == a <==> on_path(self.weight_tree.parents(), a, b),
            self.common_ancestor(a, b) == b <==> on_path(self.weight_tree.parents(), b, a),
            on_path(self.weight_tree.parents(), a, a),
    {
        let tp = self.weight_tree.parents();
        let ranks = self.weight_tree.ranks();
        self.weight_tree.lemma_ranked();
        self.weight_tree.lemma_parents(a);
        self.weight_tree.lemma_parents(b);
        lemma_lca_exists(tp, ranks, a, b);
        let r = self.common_ancestor(a, b);
        assert(a != NULL && b != NULL);
        assert(ancestor(tp, a, 0) == a);
        assert(ancestor(tp, b, 0) == b);
        assert(on_path(tp, a, a) && on_path(tp, b, b));
        if on_path(tp, a, b) {
            assert(is_lca(tp, a, b, a));
            lemma_lca_unique(tp, ranks, a, b, r, a);
        }
        if on_path(tp, b, a) {
            assert(is_lca(tp, a, b, b));
            lemma_lca_unique(tp, ranks, a, b, r, b);
        }
    }

    /// Of two blocks above a third, one is above the other.
    proof fn lemma_one_line(&self, a: usize, b: usize, v: usize)
        requires
            self.wf(),
            self.in_era_tree(v),
            on_path(self.weight_tree.parents(), a, v),
            on_path(self.weight_tree.parents(), b, v),
        ensures
            on_path(self.weight_tree.parents(), a, b) || on_path(self.weight_tree.parents(), b, a),
    {
        let tp = self.weight_tree.parents();
        self.weight_tree.lemma_ranked();
        self.weight_tree.lemma_parents(v);
        if depth(tp, a) <= depth(tp, b) {
            lemma_on_path_by_depth(tp, self.weight_tree.ranks(), a, b, v);
        } else {
            lemma_on_path_by_depth(tp, self.weight_tree.ranks(), b, a, v);
        }
    }

    /// The three ways in which a list takes one more referee.
    proof fn lemma_with_referee_ways(&self, list: Seq<usize>, me: usize, i: int)
        requires
            self.wf(),
            self.in_era_tree(me),
            self.all_in_era_tree(list),
            0 <= i <= list.len(),
            forall|k: int|
                0 <= k < i ==> !on_path(self.weight_tree.parents(), me, #[trigger] list[k])
                    && !on_path(self.weight_tree.parents(), list[k], me),
        ensures
            ({
                let tp = self.weight_tree.parents();
                let r = self.with_referee(list, me, i);
                ||| r == list && self.listed_below(list, me)
                ||| exists|k: int|
                    0 <= k < list.len() && on_path(tp, #[trigger] list[k], me) && r == list.update(
                        k,
                        me,
                    )
                ||| r == list.push(me) && forall|k: int|
                    0 <= k < list.len() ==> !on_path(tp, me, #[trigger] list[k]) && !on_path(
                        tp,
                        list[k],
                        me,
                    )
            }),
            forall|k: int|
                0 <= k < i ==> #[trigger] self.with_referee(list, me, i)[k] == list[k],
            self.with_referee(list, me, i).len() >= list.len(),
            self.with_referee(self.with_referee(list, me, i), me, i) == self.with_referee(
                list,
                me,
                i,
            ),
        decreases list.len() - i,
    {
        self.lemma_ancestor_is_common(me, me);
        if i < list.len() {
            assert(self.in_era_tree(list[i]));
            self.lemma_ancestor_is_common(list[i], me);
            if self.common_ancestor(list[i], me) != me && self.common_ancestor(list[i], me)
                != list[i] {
                self.lemma_with_referee_ways(list, me, i + 1);
                let r = self.with_referee(list, me, i + 1);
                assert(r[i] == list[i]);
            } else if self.common_ancestor(list[i], me) == me {
                assert(on_path(self.weight_tree.parents(), me, list[i]));
            } else {
                assert(on_path(self.weight_tree.parents(), list[i], me));
                let r = list.update(i, me);
                assert(r[i] == me);
            }
        } else {
            let r = list.push(me);
            assert(r[i] == me);
        }
    }

    /// A list of blocks of the era, with a referee more, stands for the same blocks and the referee:
    /// the referee or a block below it is listed, each block that was listed is so or has a listed
    /// block below it, and no listed block is above another if none was before. Adding the referee
    /// once more changes nothing.
    pub proof fn law_referee_added(&self, list: Seq<usize>, me: usize)
        requires
            self.wf(),
            self.in_era_tree(me),
            self.all_in_era_tree(list),
        ensures
            ({
                let r = self.with_referee(list, me, 0);
                &&& self.all_in_era_tree(r)
                &&& self.listed_below(r, me)
                &&& forall|x: usize| #[trigger] self.listed_below(list, x) ==> self.listed_below(r, x)
                &&& forall|k: int|
                    0 <= k < list.len() ==> self.listed_below(r, #[trigger] list[k])
                &&& self.none_above_another(list) ==> self.none_above_another(r)
                &&& self.with_referee(r, me, 0) == r
            }),
    {
        let tp = self.weight_tree.parents();
        let r = self.with_referee(list, me, 0);
        self.lemma_with_referee_ways(list, me, 0);
        self.lemma_ancestor_is_common(me, me);
        if r != list && exists|k: int|
            0 <= k < list.len() && on_path(tp, #[trigger] list[k], me) && r == list.update(k, me) {
            let k = choose|k: int|
                0 <= k < list.len() && on_path(tp, #[trigger] list[k], me) && r == list.update(
                    k,
                    me,
                );
            assert(r[k] == me);
            assert(self.listed_below(r, me));
            assert forall|m: int| 0 <= m < r.len() implies self.in_era_tree(#[trigger] r[m]) by {
                assert(m == k || r[m] == list[m]);
                assert(self.in_era_tree(list[m]));
            }
            assert forall|x: usize| #[trigger] self.listed_below(list, x) implies self.listed_below(
                r,
                x,
            ) by {
                let m = choose|m: int| 0 <= m < list.len() && on_path(tp, x, #[trigger] list[m]);
                if m == k {
                    lemma_on_path_trans(tp, x, list[k], me);
                    assert(on_path(tp, x, r[k]));
                } else {
                    assert(on_path(tp, x, r[m]));
                }
            }
            if self.none_above_another(list) {
                assert forall|i: int, j: int|
                    0 <= i < r.len() && 0 <= j < r.len() && i != j implies !on_path(
                    tp,
                    #[trigger] r[i],
                    #[trigger] r[j],
                ) by {
                    assert(!on_path(tp, list[i], list[j]));
                    assert(!on_path(tp, list[j], list[i]));
                    if i == k && on_path(tp, me, list[j]) {
                        lemma_on_path_trans(tp, list[k], me, list[j]);
                    }
                    if j == k && on_path(tp, list[i], me) {
                        self.lemma_one_line(list[i], list[k], me);
                    }
                }
            }
        } else if r != list {
            assert(r == list.push(me));
            let n = list.len() as int;
            assert(r[n] == me);
            assert(self.listed_below(r, me));
            assert forall|m: int| 0 <= m < r.len() implies self.in_era_tree(#[trigger] r[m]) by {
                if m < n {
                    assert(self.in_era_tree(list[m]));
                }
            }
            assert forall|x: usize| #[trigger] self.listed_below(list, x) implies self.listed_below(
                r,
                x,
            ) by {
                let m = choose|m: int| 0 <= m < list.len() && on_path(tp, x, #[trigger] list[m]);
                assert(on_path(tp, x, r[m]));
            }
            if self.none_above_another(list) {
                assert forall|i: int, j: int|
                    0 <= i < r.len() && 0 <= j < r.len() && i != j implies !on_path(
                    tp,
                    #[trigger] r[i],
                    #[trigger] r[j],
                ) by {
                    if i < n && j < n {
                        assert(!on_path(tp, list[i], list[j]));
                    } else if i < n {
                        assert(!on_path(tp, list[i], me));
                    } else {
                        assert(!on_path(tp, me, list[j]));
                    }
                }
            }
        } else {
            if !self.listed_below(list, me) {
                assert(list.push(me).len() != list.len());
            }
        }
        assert forall|k: int| 0 <= k < list.len() implies self.listed_below(
            r,
            #[trigger] list[k],
        ) by {
            assert(self.in_era_tree(list[k]));
            self.lemma_ancestor_is_common(list[k], list[k]);
            assert(on_path(tp, list[k], list[k]));
            assert(self.listed_below(list, list[k]));
        }
    }

    /// The referees that come from hashes of blocks of the era stand for all these blocks, each of
    /// which is listed or has a listed block below it, and none of them is above another.
    pub proof fn law_referees_cover_hashes(&self, hashes: Seq<H256>, n: nat)
        requires
            self.wf(),
            n <= hashes.len(),
            forall|k: int|
                0 <= k < n && self.hash_to_arena_indices@.contains_key(#[trigger] hashes[k])
                    ==> self.in_era_tree(self.hash_to_arena_indices@[hashes[k]]),
        ensures
            self.all_in_era_tree(self.referees_from(hashes, n)),
            self.none_above_another(self.referees_from(hashes, n)),
            forall|k: int|
                0 <= k < n && self.hash_to_arena_indices@.contains_key(#[trigger] hashes[k])
                    ==> self.listed_below(
                    self.referees_from(hashes, n),
                    self.hash_to_arena_indices@[hashes[k]],
                ),
        decreases n,
    {
        if n > 0 {
            self.law_referees_cover_hashes(hashes, (n - 1) as nat);
            let before = self.referees_from(hashes, (n - 1) as nat);
            if self.hash_to_arena_indices@.contains_key(hashes[n - 1]) {
                let me = self.hash_to_arena_indices@[hashes[n - 1]];
                self.law_referee_added(before, me);
                assert forall|k: int|
                    0 <= k < n && self.hash_to_arena_indices@.contains_key(
                        #[trigger] hashes[k],
                    ) implies self.listed_below(
                    self.referees_from(hashes, n),
                    self.hash_to_arena_indices@[hashes[k]],
                ) by {
                    if k < n - 1 {
                        assert(self.listed_below(before, self.hash_to_arena_indices@[hashes[k]]));
                    }
                }
            }
        }
    }
}

} // verus!
