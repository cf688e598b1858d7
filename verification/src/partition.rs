//! Partitions of the elements `0..n` as a mathematical object: every element
//! has a representative, and merging two sets hands the smaller set over to
//! the representative of the larger. Specification and proof only.

use crate::graph::{
    is_walk, lemma_reaches_more, lemma_reaches_self, lemma_reaches_step, lemma_reaches_trans,
    reaches,
};
use vstd::prelude::*;
use vstd::set_lib::*;

verus! {

/// The partition in which every one of `n` elements is alone: each element is
/// its own representative.
pub open spec fn singletons(n: nat) -> Seq<int> {
    Seq::new(n, |x: int| x)
}

/// The elements whose representative in `reps` is `r`.
pub open spec fn members(reps: Seq<int>, r: int) -> Set<int> {
    Set::new(|x: int| 0 <= x < reps.len() && reps[x] == r)
}

/// `reps` with every element represented by `from` handed over to `to`.
pub open spec fn relabel(reps: Seq<int>, from: int, to: int) -> Seq<int> {
    Seq::new(
        reps.len(),
        |x: int|
            if reps[x] == from {
                to
            } else {
                reps[x]
            },
    )
}

/// The partition after the sets of `a` and `b` are united: nothing changes
/// when they share a representative; otherwise the representative of the
/// strictly larger set takes over the other set, and on equal sizes the
/// representative of `b` takes over the set of `a`.
pub open spec fn unite(reps: Seq<int>, a: int, b: int) -> Seq<int> {
    if reps[a] == reps[b] {
        reps
    } else if members(reps, reps[a]).len() > members(reps, reps[b]).len() {
        relabel(reps, reps[b], reps[a])
    } else {
        relabel(reps, reps[a], reps[b])
    }
}

/// A set of a partition of `reps.len()` elements is finite and no larger than
/// the whole.
pub proof fn lemma_members_bounded(reps: Seq<int>, r: int)
    ensures
        members(reps, r).finite(),
        members(reps, r).len() <= reps.len(),
{
    let all = set_int_range(0, reps.len() as int);
    lemma_int_range(0, reps.len() as int);
    assert(members(reps, r).subset_of(all));
    lemma_len_subset(members(reps, r), all);
}

/// After a relabelling from `from` to a different `to`, the set of `to` is the
/// union of the two earlier sets and has their sizes added up.
pub proof fn lemma_relabel_members(reps: Seq<int>, from: int, to: int)
    requires
        from != to,
    ensures
        members(relabel(reps, from, to), to) == members(reps, from).union(members(reps, to)),
        members(relabel(reps, from, to), to).len() == members(reps, from).len() + members(
            reps,
            to,
        ).len(),
        forall|r: int|
            r != from && r != to ==> #[trigger] members(relabel(reps, from, to), r) == members(
                reps,
                r,
            ),
{
    let after = relabel(reps, from, to);
    lemma_members_bounded(reps, from);
    lemma_members_bounded(reps, to);
    assert(members(after, to) =~= members(reps, from).union(members(reps, to)));
    assert(members(reps, from).disjoint(members(reps, to)));
    lemma_set_disjoint_lens(members(reps, from), members(reps, to));
    assert forall|r: int| r != from && r != to implies #[trigger] members(after, r) == members(
        reps,
        r,
    ) by {
        assert(members(after, r) =~= members(reps, r));
    }
}

/// Every element of the partition has a representative among the elements,
/// and a representative represents itself.
pub open spec fn is_partition(reps: Seq<int>) -> bool {
    forall|x: int|
        0 <= x < reps.len() ==> 0 <= #[trigger] reps[x] < reps.len() && reps[reps[x]] == reps[x]
}

/// Uniting two sets of a partition gives a partition in which the two
/// elements share a set, and elements that shared a set still do.
pub proof fn lemma_unite(reps: Seq<int>, a: int, b: int)
    requires
        is_partition(reps),
        0 <= a < reps.len(),
        0 <= b < reps.len(),
    ensures
        is_partition(unite(reps, a, b)),
        unite(reps, a, b).len() == reps.len(),
        unite(reps, a, b)[a] == unite(reps, a, b)[b],
        forall|x: int, y: int|
            0 <= x < reps.len() && 0 <= y < reps.len() && reps[x] == reps[y] ==> unite(
                reps,
                a,
                b,
            )[x] == unite(reps, a, b)[y],
        forall|x: int, y: int|
            0 <= x < reps.len() && 0 <= y < reps.len() && unite(reps, a, b)[x] == unite(
                reps,
                a,
                b,
            )[y] ==> reps[x] == reps[y] || (reps[x] == reps[a] && reps[y] == reps[b]) || (reps[x]
                == reps[b] && reps[y] == reps[a]),
{
    let after = unite(reps, a, b);
    assert(reps[reps[a]] == reps[a]);
    assert(reps[reps[b]] == reps[b]);
    assert forall|x: int| 0 <= x < after.len() implies 0 <= #[trigger] after[x] < after.len()
        && after[after[x]] == after[x] by {
        assert(reps[reps[x]] == reps[x]);
    }
}

/// The partition of `n` elements after the merges `ops`, made in order on
/// sets of one element each.
pub open spec fn after_merges(n: nat, ops: Seq<(int, int)>) -> Seq<int>
    decreases ops.len(),
{
    if ops.len() == 0 {
        singletons(n)
    } else {
        unite(after_merges(n, ops.drop_last()), ops.last().0, ops.last().1)
    }
}

/// All merges are of elements below `n`.
pub open spec fn merges_within(n: nat, ops: Seq<(int, int)>) -> bool {
    forall|m: int| 0 <= m < ops.len() ==> 0 <= (#[trigger] ops[m]).0 < n && 0 <= ops[m].1 < n
}

/// The graph of the merges: an edge joins two elements that one of the
/// merges named, in either order.
pub open spec fn merged(ops: Seq<(int, int)>) -> spec_fn(int, int) -> bool {
    |x: int, y: int|
        exists|m: int| 0 <= m < ops.len() && (#[trigger] ops[m] == (x, y) || ops[m] == (y, x))
}

/// A chain of merges connects `a` and `b`.
pub open spec fn chained(ops: Seq<(int, int)>, a: int, b: int) -> bool {
    reaches(merged(ops), a, b)
}

/// Merges of elements below `n` leave a partition of `n` elements.
pub proof fn lemma_after_merges(n: nat, ops: Seq<(int, int)>)
    requires
        merges_within(n, ops),
    ensures
        is_partition(after_merges(n, ops)),
        after_merges(n, ops).len() == n,
    decreases ops.len(),
{
    if ops.len() > 0 {
        lemma_after_merges(n, ops.drop_last());
        lemma_unite(after_merges(n, ops.drop_last()), ops.last().0, ops.last().1);
    }
}

/// A chain of merges stays a chain when a merge is added.
pub proof fn lemma_chained_longer(ops: Seq<(int, int)>, a: int, b: int)
    requires
        ops.len() > 0,
        chained(ops.drop_last(), a, b),
    ensures
        chained(ops, a, b),
{
    let fewer = ops.drop_last();
    assert forall|x: int, y: int| #[trigger] merged(fewer)(x, y) implies merged(ops)(x, y) by {
        let m = choose|m: int|
            0 <= m < fewer.len() && (#[trigger] fewer[m] == (x, y) || fewer[m] == (y, x));
        assert(ops[m] == fewer[m]);
    }
    lemma_reaches_more(merged(fewer), merged(ops), a, b);
}

/// Two elements that a merge named are in one set after all the merges.
pub proof fn lemma_merged_together(n: nat, ops: Seq<(int, int)>, m: int)
    requires
        merges_within(n, ops),
        0 <= m < ops.len(),
    ensures
        after_merges(n, ops)[ops[m].0] == after_merges(n, ops)[ops[m].1],
    decreases ops.len(),
{
    let fewer = ops.drop_last();
    lemma_after_merges(n, fewer);
    lemma_unite(after_merges(n, fewer), ops.last().0, ops.last().1);
    if m < ops.len() - 1 {
        assert(fewer[m] == ops[m]);
        lemma_merged_together(n, fewer, m);
    }
}

/// Along a chain of merges, every element is in the set of the first.
pub proof fn lemma_walk_together(n: nat, ops: Seq<(int, int)>, p: Seq<int>, k: int)
    requires
        merges_within(n, ops),
        is_walk(merged(ops), p),
        0 <= k < p.len(),
    ensures
        after_merges(n, ops)[p[0]] == after_merges(n, ops)[p[k]],
    decreases k,
{
    if k > 0 {
        lemma_walk_together(n, ops, p, k - 1);
        assert(merged(ops)(p[k - 1], p[k - 1 + 1]));
        let m = choose|m: int|
            0 <= m < ops.len() && (#[trigger] ops[m] == (p[k - 1], p[k]) || ops[m] == (
                p[k],
                p[k - 1],
            ));
        lemma_merged_together(n, ops, m);
    }
}

/// After any sequence of merges, two elements are in the same set exactly
/// if a chain of those merges connects them.
pub proof fn lemma_same_set_iff_chained(n: nat, ops: Seq<(int, int)>, a: int, b: int)
    requires
        merges_within(n, ops),
        0 <= a < n,
        0 <= b < n,
    ensures
        after_merges(n, ops)[a] == after_merges(n, ops)[b] <==> chained(ops, a, b),
    decreases ops.len(),
{
    let after = after_merges(n, ops);
    if chained(ops, a, b) {
        let p = choose|p: Seq<int>| #[trigger]
            is_walk(merged(ops), p) && p.first() == a && p.last() == b;
        lemma_walk_together(n, ops, p, p.len() - 1);
    }
    if after[a] == after[b] {
        if ops.len() == 0 {
            lemma_reaches_self(merged(ops), a);
        } else {
            let fewer = ops.drop_last();
            let before = after_merges(n, fewer);
            let (x, y) = ops.last();
            assert(merges_within(n, fewer)) by {
                assert forall|m: int| 0 <= m < fewer.len() implies 0 <= (#[trigger] fewer[m]).0
                    < n && 0 <= fewer[m].1 < n by {
                    assert(fewer[m] == ops[m]);
                }
            }
            lemma_after_merges(n, fewer);
            lemma_unite(before, x, y);
            if before[a] == before[b] {
                lemma_same_set_iff_chained(n, fewer, a, b);
                lemma_chained_longer(ops, a, b);
            } else {
                // one of the two was in the set of `x`, the other in that of `y`
                let (s, t) = if before[a] == before[x] {
                    (x, y)
                } else {
                    (y, x)
                };
                lemma_same_set_iff_chained(n, fewer, a, s);
                lemma_same_set_iff_chained(n, fewer, t, b);
                lemma_chained_longer(ops, a, s);
                lemma_chained_longer(ops, t, b);
                assert(merged(ops)(s, t)) by {
                    let m = ops.len() - 1;
                    assert(ops[m] == (s, t) || ops[m] == (t, s));
                }
                lemma_reaches_step(merged(ops), a, s, t);
                lemma_reaches_trans(merged(ops), a, t, b);
            }
        }
    }
}

} // verus!
