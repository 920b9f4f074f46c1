//! Sums over lists and sets of blocks.
use vstd::prelude::*;

verus! {

/// The sum of `f` over a list.
pub open spec fn list_sum(list: Seq<usize>, f: spec_fn(usize) -> int) -> int
    decreases list.len(),
{
    if list.len() == 0 {
        0
    } else {
        list_sum(list.drop_last(), f) + f(list.last())
    }
}

/// The sum of `f` over a finite set.
pub open spec fn set_sum(s: Set<usize>, f: spec_fn(usize) -> int) -> int
    decreases s.len(),
    when s.finite()
{
    if s.len() == 0 {
        0
    } else {
        let x = s.choose();
        f(x) + set_sum(s.remove(x), f)
    }
}

/// The sum over a set can be taken apart at any item.
pub proof fn lemma_set_sum_remove(s: Set<usize>, f: spec_fn(usize) -> int, x: usize)
    requires
        s.finite(),
        s.contains(x),
    ensures
        set_sum(s, f) == f(x) + set_sum(s.remove(x), f),
    decreases s.len(),
{
    let y = s.choose();
    assert(s.contains(y));
    if x != y {
        lemma_set_sum_remove(s.remove(y), f, x);
        lemma_set_sum_remove(s.remove(x), f, y);
        assert(s.remove(x).remove(y) =~= s.remove(y).remove(x));
    }
}

/// The sum over a set is the sum over any list of its items without repetition.
pub proof fn lemma_set_sum_list(list: Seq<usize>, f: spec_fn(usize) -> int)
    requires
        list.no_duplicates(),
    ensures
        list.to_set().finite(),
        set_sum(list.to_set(), f) == list_sum(list, f),
    decreases list.len(),
{
    vstd::seq_lib::seq_to_set_is_finite(list);
    if list.len() == 0 {
        assert(list.to_set() =~= Set::empty());
    } else {
        let x = list.last();
        let init = list.drop_last();
        assert(list.contains(x)) by {
            assert(list[list.len() - 1] == x);
        }
        assert(init.to_set() =~= list.to_set().remove(x)) by {
            assert forall|y: usize| list.to_set().remove(x).contains(y) implies init.contains(
                y,
            ) by {
                let k = choose|k: int| 0 <= k < list.len() && list[k] == y;
                assert(init[k] == y);
            }
            assert forall|y: usize| init.contains(y) implies list.to_set().remove(x).contains(
                y,
            ) by {
                let k = choose|k: int| 0 <= k < init.len() && init[k] == y;
                assert(list[k] == y);
            }
        }
        lemma_set_sum_list(init, f);
        lemma_set_sum_remove(list.to_set(), f, x);
    }
}

/// A sum of what is not negative grows along a list.
pub proof fn lemma_list_sum_grows(list: Seq<usize>, f: spec_fn(usize) -> int, n: int)
    requires
        0 <= n <= list.len(),
        forall|x: usize| #[trigger] f(x) >= 0,
    ensures
        0 <= list_sum(list.take(n), f) <= list_sum(list, f),
    decreases list.len() + n,
{
    if n < list.len() {
        lemma_list_sum_grows(list.drop_last(), f, n);
        assert(list.drop_last().take(n) =~= list.take(n));
    } else {
        assert(list.take(n) =~= list);
        if n > 0 {
            lemma_list_sum_grows(list.drop_last(), f, n - 1);
            assert(list.drop_last().take(n - 1) =~= list.drop_last());
        }
    }
}

/// The sum over one item more.
pub proof fn lemma_list_sum_next(list: Seq<usize>, f: spec_fn(usize) -> int, n: int)
    requires
        0 <= n < list.len(),
    ensures
        list_sum(list.take(n + 1), f) == list_sum(list.take(n), f) + f(list[n]),
{
    assert(list.take(n + 1).drop_last() =~= list.take(n));
}

/// What is left of a sum after some items is bounded by what is left of the sum of bounds.
pub proof fn lemma_list_sum_bound(
    list: Seq<usize>,
    f: spec_fn(usize) -> int,
    b: spec_fn(usize) -> int,
    n: int,
)
    requires
        0 <= n <= list.len(),
        forall|x: usize| -b(x) <= #[trigger] f(x) <= b(x),
    ensures
        -(list_sum(list, b) - list_sum(list.take(n), b)) <= list_sum(list, f) - list_sum(
            list.take(n),
            f,
        ) <= list_sum(list, b) - list_sum(list.take(n), b),
    decreases list.len(),
{
    if n < list.len() {
        lemma_list_sum_bound(list.drop_last(), f, b, n);
        assert(list.drop_last().take(n) =~= list.take(n));
        assert(-b(list.last()) <= f(list.last()) <= b(list.last()));
    } else {
        assert(list.take(n) =~= list);
    }
}

/// The sum of opposites is the opposite of the sum.
pub proof fn lemma_list_sum_opposite(
    list: Seq<usize>,
    f: spec_fn(usize) -> int,
    g: spec_fn(usize) -> int,
)
    requires
        forall|x: usize| #[trigger] f(x) == -g(x),
    ensures
        list_sum(list, f) == -list_sum(list, g),
    decreases list.len(),
{
    if list.len() > 0 {
        lemma_list_sum_opposite(list.drop_last(), f, g);
        assert(f(list.last()) == -g(list.last()));
    }
}

/// Equal functions have equal sums.
pub proof fn lemma_list_sum_same(
    list: Seq<usize>,
    f: spec_fn(usize) -> int,
    g: spec_fn(usize) -> int,
)
    requires
        forall|k: int| 0 <= k < list.len() ==> f(#[trigger] list[k]) == g(list[k]),
    ensures
        list_sum(list, f) == list_sum(list, g),
    decreases list.len(),
{
    if list.len() > 0 {
        assert forall|k: int| 0 <= k < list.drop_last().len() implies f(
            #[trigger] list.drop_last()[k],
        ) == g(list.drop_last()[k]) by {
            assert(f(list[k]) == g(list[k]));
        }
        lemma_list_sum_same(list.drop_last(), f, g);
        assert(f(list[list.len() - 1]) == g(list[list.len() - 1]));
    }
}

/// The sum of sums.
pub proof fn lemma_set_sum_add(
    s: Set<usize>,
    f: spec_fn(usize) -> int,
    g: spec_fn(usize) -> int,
    h: spec_fn(usize) -> int,
)
    requires
        s.finite(),
        forall|i: usize| #[trigger] s.contains(i) ==> f(i) == g(i) + h(i),
    ensures
        set_sum(s, f) == set_sum(s, g) + set_sum(s, h),
    decreases s.len(),
{
    if s.len() > 0 {
        let x = s.choose();
        assert(s.contains(x));
        lemma_set_sum_add(s.remove(x), f, g, h);
    }
}

/// Functions that are equal on a set have equal sums over it.
pub proof fn lemma_set_sum_same(
    s: Set<usize>,
    f: spec_fn(usize) -> int,
    g: spec_fn(usize) -> int,
)
    requires
        s.finite(),
        forall|i: usize| #[trigger] s.contains(i) ==> f(i) == g(i),
    ensures
        set_sum(s, f) == set_sum(s, g),
    decreases s.len(),
{
    if s.len() > 0 {
        let x = s.choose();
        assert(s.contains(x));
        lemma_set_sum_same(s.remove(x), f, g);
    }
}

/// A sum in which one item counts at most.
pub proof fn lemma_set_sum_single(s: Set<usize>, f: spec_fn(usize) -> int, x: usize)
    requires
        s.finite(),
        forall|i: usize| #[trigger] s.contains(i) && i != x ==> f(i) == 0,
    ensures
        set_sum(s, f) == (if s.contains(x) {
            f(x)
        } else {
            0
        }),
    decreases s.len(),
{
    if s.len() > 0 {
        let y = s.choose();
        assert(s.contains(y));
        lemma_set_sum_single(s.remove(y), f, x);
    }
}

/// A sum over a set is that over a part and that over the rest.
pub proof fn lemma_set_sum_split(s: Set<usize>, part: Set<usize>, f: spec_fn(usize) -> int)
    requires
        s.finite(),
        part.subset_of(s),
    ensures
        set_sum(s, f) == set_sum(part, f) + set_sum(s.difference(part), f),
    decreases part.len(),
{
    vstd::set_lib::lemma_set_subset_finite(s, part);
    if part.len() == 0 {
        assert(part =~= Set::empty());
        assert(s.difference(part) =~= s);
    } else {
        let x = part.choose();
        assert(part.contains(x));
        lemma_set_sum_split(s, part.remove(x), f);
        let rest = s.difference(part.remove(x));
        vstd::set_lib::lemma_set_subset_finite(s, rest);
        lemma_set_sum_remove(rest, f, x);
        assert(rest.remove(x) =~= s.difference(part));
    }
}

} // verus!
