//! Lines of ancestors: walking up from a node by its parent links.
use vstd::prelude::*;

use crate::types::NULL;

verus! {

/// The parent of `v`, or `NULL` for a node without one and for what is not a node.
pub open spec fn parent_of(parents: Map<usize, usize>, v: usize) -> usize {
    if parents.contains_key(v) {
        parents[v]
    } else {
        NULL
    }
}

/// The node `k` steps above `v`, or `NULL` where the line ends before.
pub open spec fn ancestor(parents: Map<usize, usize>, v: usize, k: nat) -> usize
    decreases k,
{
    if k == 0 {
        v
    } else {
        parent_of(parents, ancestor(parents, v, (k - 1) as nat))
    }
}

/// Whether `u` is `v` or above it.
pub open spec fn on_path(parents: Map<usize, usize>, u: usize, v: usize) -> bool {
    u != NULL && exists|k: nat| #[trigger] ancestor(parents, v, k) == u
}

/// Whether every link leads to a node, and to one of smaller rank.
pub open spec fn ranked(parents: Map<usize, usize>, rank: Map<usize, nat>) -> bool {
    &&& !parents.contains_key(NULL)
    &&& forall|v: usize| #[trigger]
        parents.contains_key(v) && parents[v] != NULL ==> parents.contains_key(parents[v])
            && rank[parents[v]] < rank[v]
}

/// Whether `v` has exactly `d` nodes above it.
pub open spec fn has_depth(parents: Map<usize, usize>, v: usize, d: nat) -> bool {
    ancestor(parents, v, d) != NULL && ancestor(parents, v, d + 1) == NULL
}

/// The number of nodes above `v`.
pub open spec fn depth(parents: Map<usize, usize>, v: usize) -> nat {
    choose|d: nat| has_depth(parents, v, d)
}

/// The node at depth `at` on the line from the root to `v`, or `NULL` where the line is shorter.
pub open spec fn ancestor_at_depth(parents: Map<usize, usize>, v: usize, at: nat) -> usize {
    if at <= depth(parents, v) {
        ancestor(parents, v, (depth(parents, v) - at) as nat)
    } else {
        NULL
    }
}

/// Whether `r` is the lowest node that is on the lines of both `u` and `v`, or `NULL` where
/// there is none.
pub open spec fn is_lca(parents: Map<usize, usize>, u: usize, v: usize, r: usize) -> bool {
    if r == NULL {
        forall|c: usize| !(#[trigger] on_path(parents, c, u) && on_path(parents, c, v))
    } else {
        &&& on_path(parents, r, u)
        &&& on_path(parents, r, v)
        &&& forall|c: usize| #[trigger]
            on_path(parents, c, u) && on_path(parents, c, v) ==> on_path(parents, c, r)
    }
}

/// The lowest common ancestor of `u` and `v`.
pub open spec fn lca_of(parents: Map<usize, usize>, u: usize, v: usize) -> usize {
    choose|r: usize| is_lca(parents, u, v, r)
}

/// Steps add up.
pub proof fn lemma_ancestor_add(parents: Map<usize, usize>, v: usize, j: nat, k: nat)
    ensures
        ancestor(parents, ancestor(parents, v, j), k) == ancestor(parents, v, j + k),
    decreases k,
{
    if k > 0 {
        lemma_ancestor_add(parents, v, j, (k - 1) as nat);
    }
}

/// The line does not go on above `NULL`.
pub proof fn lemma_ancestor_null(parents: Map<usize, usize>, k: nat)
    requires
        !parents.contains_key(NULL),
    ensures
        ancestor(parents, NULL, k) == NULL,
    decreases k,
{
    if k > 0 {
        lemma_ancestor_null(parents, (k - 1) as nat);
    }
}

/// Above a node there are only nodes, of smaller and smaller rank.
pub proof fn lemma_ancestor_ranked(
    parents: Map<usize, usize>,
    rank: Map<usize, nat>,
    v: usize,
    k: nat,
)
    requires
        ranked(parents, rank),
        parents.contains_key(v),
    ensures
        ancestor(parents, v, k) != NULL ==> parents.contains_key(ancestor(parents, v, k))
            && rank[ancestor(parents, v, k)] + k <= rank[v],
    decreases k,
{
    if k > 0 {
        lemma_ancestor_ranked(parents, rank, v, (k - 1) as nat);
        let below = ancestor(parents, v, (k - 1) as nat);
        if below != NULL {
            assert(parents.contains_key(below));
        }
    }
}

/// A line has a lower end for every node on it: what is reached stays reached on the way.
pub proof fn lemma_ancestor_prefix(parents: Map<usize, usize>, v: usize, j: nat, k: nat)
    requires
        !parents.contains_key(NULL),
        j <= k,
        ancestor(parents, v, k) != NULL,
    ensures
        ancestor(parents, v, j) != NULL,
{
    lemma_ancestor_add(parents, v, j, (k - j) as nat);
    lemma_ancestor_null(parents, (k - j) as nat);
}

/// No node is met twice on a line.
pub proof fn lemma_ancestor_distinct(
    parents: Map<usize, usize>,
    rank: Map<usize, nat>,
    v: usize,
    i: nat,
    j: nat,
)
    requires
        ranked(parents, rank),
        parents.contains_key(v),
        i < j,
        ancestor(parents, v, j) != NULL,
    ensures
        ancestor(parents, v, i) != ancestor(parents, v, j),
{
    lemma_ancestor_prefix(parents, v, i, j);
    lemma_ancestor_ranked(parents, rank, v, i);
    lemma_ancestor_add(parents, v, i, (j - i) as nat);
    lemma_ancestor_ranked(parents, rank, ancestor(parents, v, i), (j - i) as nat);
}

/// A node has one depth only.
pub proof fn lemma_depth_unique(parents: Map<usize, usize>, v: usize, a: nat, b: nat)
    requires
        !parents.contains_key(NULL),
        has_depth(parents, v, a),
        has_depth(parents, v, b),
    ensures
        a == b,
{
    if a < b {
        lemma_ancestor_prefix(parents, v, a + 1, b);
    } else if b < a {
        lemma_ancestor_prefix(parents, v, b + 1, a);
    }
}

/// The depth of a node that has one.
pub proof fn lemma_depth_is(parents: Map<usize, usize>, v: usize, d: nat)
    requires
        !parents.contains_key(NULL),
        has_depth(parents, v, d),
    ensures
        depth(parents, v) == d,
{
    lemma_depth_unique(parents, v, depth(parents, v), d);
}

/// Every node has a depth, no larger than its rank.
pub proof fn lemma_depth_exists(parents: Map<usize, usize>, rank: Map<usize, nat>, v: usize)
    requires
        ranked(parents, rank),
        parents.contains_key(v),
    ensures
        has_depth(parents, v, depth(parents, v)),
        depth(parents, v) <= rank[v],
    decreases rank[v],
{
    if parents[v] == NULL {
        assert(ancestor(parents, v, 0) == v);
        assert(ancestor(parents, v, 1) == parent_of(parents, ancestor(parents, v, 0)));
        assert(has_depth(parents, v, 0));
        lemma_depth_is(parents, v, 0);
    } else {
        let p = parents[v];
        lemma_depth_exists(parents, rank, p);
        let d = depth(parents, p);
        assert(ancestor(parents, v, 0) == v);
        assert(ancestor(parents, v, 1) == parent_of(parents, ancestor(parents, v, 0)));
        lemma_ancestor_add(parents, v, 1, d);
        lemma_ancestor_add(parents, v, 1, d + 1);
        assert(has_depth(parents, v, d + 1));
        lemma_depth_is(parents, v, d + 1);
    }
}

/// A node `k` steps up is `k` less deep.
pub proof fn lemma_depth_of_ancestor(
    parents: Map<usize, usize>,
    rank: Map<usize, nat>,
    v: usize,
    k: nat,
)
    requires
        ranked(parents, rank),
        parents.contains_key(v),
        ancestor(parents, v, k) != NULL,
    ensures
        k <= depth(parents, v),
        depth(parents, ancestor(parents, v, k)) == depth(parents, v) - k,
{
    lemma_depth_exists(parents, rank, v);
    let d = depth(parents, v);
    if k > d {
        lemma_ancestor_prefix(parents, v, d + 1, k);
    }
    let a = ancestor(parents, v, k);
    lemma_ancestor_add(parents, v, k, (d - k) as nat);
    lemma_ancestor_add(parents, v, k, (d - k + 1) as nat);
    assert(has_depth(parents, a, (d - k) as nat));
    lemma_depth_is(parents, a, (d - k) as nat);
}

/// Above a node on the line stands only what is on the line.
pub proof fn lemma_on_path_trans(parents: Map<usize, usize>, a: usize, b: usize, c: usize)
    requires
        on_path(parents, a, b),
        on_path(parents, b, c),
    ensures
        on_path(parents, a, c),
{
    let j = choose|k: nat| #[trigger] ancestor(parents, b, k) == a;
    let i = choose|k: nat| #[trigger] ancestor(parents, c, k) == b;
    lemma_ancestor_add(parents, c, i, j);
    assert(ancestor(parents, c, i + j) == a);
}

/// Of two nodes on one line, the less deep one is above the other.
pub proof fn lemma_on_path_by_depth(
    parents: Map<usize, usize>,
    rank: Map<usize, nat>,
    a: usize,
    b: usize,
    v: usize,
)
    requires
        ranked(parents, rank),
        parents.contains_key(v),
        on_path(parents, a, v),
        on_path(parents, b, v),
        depth(parents, a) <= depth(parents, b),
    ensures
        on_path(parents, a, b),
{
    let i = choose|k: nat| #[trigger] ancestor(parents, v, k) == a;
    let j = choose|k: nat| #[trigger] ancestor(parents, v, k) == b;
    lemma_depth_of_ancestor(parents, rank, v, i);
    lemma_depth_of_ancestor(parents, rank, v, j);
    lemma_ancestor_add(parents, v, j, (i - j) as nat);
    assert(ancestor(parents, b, (i - j) as nat) == a);
}

/// On the line of `v` one node stands at each depth.
pub proof fn lemma_on_path_same_depth(
    parents: Map<usize, usize>,
    rank: Map<usize, nat>,
    a: usize,
    b: usize,
    v: usize,
)
    requires
        ranked(parents, rank),
        parents.contains_key(v),
        on_path(parents, a, v),
        on_path(parents, b, v),
        depth(parents, a) == depth(parents, b),
    ensures
        a == b,
{
    let i = choose|k: nat| #[trigger] ancestor(parents, v, k) == a;
    let j = choose|k: nat| #[trigger] ancestor(parents, v, k) == b;
    lemma_depth_of_ancestor(parents, rank, v, i);
    lemma_depth_of_ancestor(parents, rank, v, j);
}

/// Two nodes have one lowest common ancestor only.
pub proof fn lemma_lca_unique(
    parents: Map<usize, usize>,
    rank: Map<usize, nat>,
    u: usize,
    v: usize,
    a: usize,
    b: usize,
)
    requires
        ranked(parents, rank),
        parents.contains_key(u),
        is_lca(parents, u, v, a),
        is_lca(parents, u, v, b),
    ensures
        a == b,
{
    if a != NULL && b != NULL {
        assert(on_path(parents, a, b));
        assert(on_path(parents, b, a));
        let i = choose|k: nat| #[trigger] ancestor(parents, u, k) == a;
        let j = choose|k: nat| #[trigger] ancestor(parents, u, k) == b;
        lemma_depth_of_ancestor(parents, rank, u, i);
        lemma_depth_of_ancestor(parents, rank, u, j);
        lemma_ancestor_ranked(parents, rank, u, i);
        lemma_ancestor_ranked(parents, rank, u, j);
        let m = choose|k: nat| #[trigger] ancestor(parents, a, k) == b;
        let n = choose|k: nat| #[trigger] ancestor(parents, b, k) == a;
        lemma_depth_of_ancestor(parents, rank, a, m);
        lemma_depth_of_ancestor(parents, rank, b, n);
    } else if a != NULL {
        assert(on_path(parents, a, u) && on_path(parents, a, v));
    } else if b != NULL {
        assert(on_path(parents, b, u) && on_path(parents, b, v));
    }
}

/// What is above a node is the node or above its parent.
pub proof fn lemma_on_path_parent(parents: Map<usize, usize>, c: usize, u: usize)
    ensures
        on_path(parents, c, u) <==> (c == u && u != NULL) || on_path(
            parents,
            c,
            parent_of(parents, u),
        ),
{
    let p = parent_of(parents, u);
    assert(ancestor(parents, u, 0) == u);
    assert(ancestor(parents, u, 1) == p) by {
        assert(ancestor(parents, u, 0) == u);
    }
    if on_path(parents, c, u) {
        let k = choose|k: nat| #[trigger] ancestor(parents, u, k) == c;
        if k > 0 {
            lemma_ancestor_add(parents, u, 1, (k - 1) as nat);
            assert(ancestor(parents, p, (k - 1) as nat) == c);
        }
    }
    if on_path(parents, c, p) {
        let k = choose|k: nat| #[trigger] ancestor(parents, p, k) == c;
        lemma_ancestor_add(parents, u, 1, k);
        assert(ancestor(parents, u, 1 + k) == c);
    }
}

/// Two nodes have a lowest common ancestor, or nothing in common.
pub proof fn lemma_lca_exists(
    parents: Map<usize, usize>,
    rank: Map<usize, nat>,
    u: usize,
    v: usize,
)
    requires
        ranked(parents, rank),
        parents.contains_key(u),
        parents.contains_key(v),
    ensures
        is_lca(parents, u, v, lca_of(parents, u, v)),
    decreases rank[u],
{
    let p = parents[u];
    assert(ancestor(parents, u, 0) == u);
    if on_path(parents, u, v) {
        assert(is_lca(parents, u, v, u));
    } else if p == NULL {
        assert forall|c: usize| !(#[trigger] on_path(parents, c, u) && on_path(
            parents,
            c,
            v,
        )) by {
            lemma_on_path_parent(parents, c, u);
            if on_path(parents, c, NULL) {
                let k = choose|k: nat| #[trigger] ancestor(parents, NULL, k) == c;
                lemma_ancestor_null(parents, k);
            }
        }
        assert(is_lca(parents, u, v, NULL));
    } else {
        lemma_lca_exists(parents, rank, p, v);
        let r = lca_of(parents, p, v);
        assert forall|c: usize| #[trigger] on_path(parents, c, u) && on_path(
            parents,
            c,
            v,
        ) implies on_path(parents, c, p) by {
            lemma_on_path_parent(parents, c, u);
        }
        lemma_on_path_parent(parents, r, u);
        assert(is_lca(parents, u, v, r));
    }
}

/// What is above a node, or the node, is the node, and what is so of its parent, if it has one, and
/// nothing else.
pub proof fn law_line_of_parents(
    parents: Map<usize, usize>,
    rank: Map<usize, nat>,
    c: usize,
    v: usize,
)
    requires
        ranked(parents, rank),
        parents.contains_key(v),
    ensures
        on_path(parents, c, v) <==> c == v || (parents[v] != NULL && on_path(
            parents,
            c,
            parents[v],
        )),
{
    lemma_on_path_parent(parents, c, v);
    if parents[v] == NULL && on_path(parents, c, NULL) {
        let k = choose|k: nat| #[trigger] ancestor(parents, NULL, k) == c;
        lemma_ancestor_null(parents, k);
    }
}

/// The depth of a root is zero, and that of any other node one more than that of its parent.
pub proof fn law_depth_by_parents(parents: Map<usize, usize>, rank: Map<usize, nat>, v: usize)
    requires
        ranked(parents, rank),
        parents.contains_key(v),
    ensures
        parents[v] == NULL ==> depth(parents, v) == 0,
        parents[v] != NULL ==> depth(parents, v) == depth(parents, parents[v]) + 1,
{
    assert(ancestor(parents, v, 0) == v);
    assert(ancestor(parents, v, 1) == parents[v]);
    if parents[v] == NULL {
        lemma_depth_is(parents, v, 0);
    } else {
        lemma_depth_of_ancestor(parents, rank, v, 1);
    }
}

/// The node at a depth on the line to a node is on that line and has that depth, and there is none where
/// the node is less deep.
pub proof fn law_ancestor_has_the_depth(
    parents: Map<usize, usize>,
    rank: Map<usize, nat>,
    v: usize,
    at: nat,
)
    requires
        ranked(parents, rank),
        parents.contains_key(v),
    ensures
        at <= depth(parents, v) ==> on_path(parents, ancestor_at_depth(parents, v, at), v) && depth(
            parents,
            ancestor_at_depth(parents, v, at),
        ) == at,
        at > depth(parents, v) ==> ancestor_at_depth(parents, v, at) == NULL,
{
    let d = depth(parents, v);
    lemma_depth_exists(parents, rank, v);
    if at <= d {
        let k = (d - at) as nat;
        lemma_ancestor_prefix(parents, v, k, d);
        lemma_depth_of_ancestor(parents, rank, v, k);
    }
}

} // verus!
