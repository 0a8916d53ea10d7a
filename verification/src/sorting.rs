//! Sorting numbers in ascending order, with equal ones kept in place.

use crate::binary32::Binary32;
use crate::buckets::sorted;
use vstd::prelude::*;

verus! {

/// None of the numbers is a not-a-number.
pub open spec fn comparable(ps: Seq<Binary32>) -> bool {
    forall|i: int| 0 <= i < ps.len() ==> !(#[trigger] ps[i]).nan()
}

/// The numbers at one position in the order of the numbers, in the order in which they come.
pub open spec fn ranked(ps: Seq<Binary32>, rank: int) -> Seq<Binary32>
    decreases ps.len(),
{
    if ps.len() == 0 {
        seq![]
    } else if ps.last().rank() == rank {
        ranked(ps.drop_last(), rank).push(ps.last())
    } else {
        ranked(ps.drop_last(), rank)
    }
}

/// Of two sequences in a row, those of the first come first.
proof fn lemma_ranked_joined(a: Seq<Binary32>, b: Seq<Binary32>, rank: int)
    ensures
        ranked(a + b, rank) == ranked(a, rank) + ranked(b, rank),
    decreases b.len(),
{
    if b.len() == 0 {
        assert(a + b =~= a);
        assert(ranked(a, rank) + ranked(b, rank) =~= ranked(a, rank));
    } else {
        lemma_ranked_joined(a, b.drop_last(), rank);
        assert((a + b).drop_last() =~= a + b.drop_last());
        assert(ranked(a + b, rank) =~= ranked(a, rank) + ranked(b, rank));
    }
}

/// Where nothing has the rank, nothing is left.
proof fn lemma_ranked_none(ps: Seq<Binary32>, rank: int)
    requires
        forall|i: int| 0 <= i < ps.len() ==> (#[trigger] ps[i]).rank() != rank,
    ensures
        ranked(ps, rank) == Seq::<Binary32>::empty(),
    decreases ps.len(),
{
    if ps.len() > 0 {
        assert(ps.last() == ps[ps.len() - 1]);
        let head = ps.drop_last();
        assert forall|i: int| 0 <= i < head.len() implies (#[trigger] head[i]).rank() != rank by {
            assert(head[i] == ps[i]);
        }
        lemma_ranked_none(head, rank);
    }
}

/// `out` holds what `left` and `right` hold; it is sorted, and equal numbers keep their order with
/// those of `left` first, where both were sorted.
pub open spec fn merged(out: Seq<Binary32>, left: Seq<Binary32>, right: Seq<Binary32>) -> bool {
    &&& out.to_multiset() == left.to_multiset().add(right.to_multiset())
    &&& out.len() == left.len() + right.len()
    &&& sorted(left) && sorted(right) && comparable(left) && comparable(right) ==> {
        &&& sorted(out)
        &&& forall|rank: int| #[trigger]
            ranked(out, rank) == ranked(left, rank) + ranked(right, rank)
    }
}

/// What the merge keeps while it has taken `i` numbers from `left` and `j` from `right`: what is
/// out is sorted and not above what is left, and what came from `right` is below what is left of
/// `left`.
spec fn merging(
    out: Seq<Binary32>,
    left: Seq<Binary32>,
    right: Seq<Binary32>,
    i: int,
    j: int,
) -> bool {
    &&& sorted(out)
    &&& forall|a: int|
        0 <= a < out.len() && i < left.len() ==> (#[trigger] out[a]).at_most(left[i])
    &&& forall|a: int|
        0 <= a < out.len() && j < right.len() ==> (#[trigger] out[a]).at_most(right[j])
    &&& forall|b: int| 0 <= b < j && i < left.len() ==> (#[trigger] right[b]).below(left[i])
    &&& forall|rank: int| #[trigger]
        ranked(out, rank) == ranked(left.take(i), rank) + ranked(right.take(j), rank)
}

/// Taking the next number of `left` keeps the merge going.
proof fn lemma_take_left(
    out: Seq<Binary32>,
    left: Seq<Binary32>,
    right: Seq<Binary32>,
    i: int,
    j: int,
)
    requires
        sorted(left),
        sorted(right),
        comparable(left),
        comparable(right),
        0 <= i < left.len(),
        0 <= j <= right.len(),
        merging(out, left, right, i, j),
        j < right.len() ==> !right[j].below(left[i]),
    ensures
        merging(out.push(left[i]), left, right, i + 1, j),
{
    let x = left[i];
    let next = out.push(x);
    if i + 1 < left.len() {
        assert(left[i].at_most(left[i + 1]));
    }
    if j < right.len() {
        assert(x.at_most(right[j]));
    }
    assert forall|rank: int| #[trigger] ranked(next, rank) == ranked(left.take(i + 1), rank)
        + ranked(right.take(j), rank) by {
        assert(next.drop_last() =~= out);
        assert(left.take(i + 1).drop_last() =~= left.take(i));
        assert(left.take(i + 1).last() == x);
        assert(ranked(out, rank) == ranked(left.take(i), rank) + ranked(right.take(j), rank));
        if x.rank() == rank {
            let taken = right.take(j);
            assert forall|b: int| 0 <= b < taken.len() implies (#[trigger] taken[b]).rank()
                != rank by {
                assert(right[b].below(left[i]));
            }
            lemma_ranked_none(taken, rank);
            assert(ranked(next, rank) =~= ranked(left.take(i + 1), rank) + ranked(taken, rank));
        }
    }
}

/// Taking the next number of `right` keeps the merge going.
proof fn lemma_take_right(
    out: Seq<Binary32>,
    left: Seq<Binary32>,
    right: Seq<Binary32>,
    i: int,
    j: int,
)
    requires
        sorted(left),
        sorted(right),
        comparable(left),
        comparable(right),
        0 <= i <= left.len(),
        0 <= j < right.len(),
        merging(out, left, right, i, j),
        i < left.len() ==> right[j].below(left[i]),
    ensures
        merging(out.push(right[j]), left, right, i, j + 1),
{
    let x = right[j];
    let next = out.push(x);
    if j + 1 < right.len() {
        assert(right[j].at_most(right[j + 1]));
    }
    assert forall|rank: int| #[trigger] ranked(next, rank) == ranked(left.take(i), rank) + ranked(
        right.take(j + 1),
        rank,
    ) by {
        assert(next.drop_last() =~= out);
        assert(right.take(j + 1).drop_last() =~= right.take(j));
        assert(right.take(j + 1).last() == x);
        assert(ranked(out, rank) == ranked(left.take(i), rank) + ranked(right.take(j), rank));
        assert(ranked(next, rank) =~= ranked(left.take(i), rank) + ranked(right.take(j + 1), rank));
    }
}

/// Merges two sequences; of two equal numbers, that of `left` comes first.
fn merge(left: &Vec<Binary32>, right: &Vec<Binary32>) -> (out: Vec<Binary32>)
    requires
        left@.len() + right@.len() <= usize::MAX,
    ensures
        merged(out@, left@, right@),
{
    let mut out: Vec<Binary32> = Vec::new();
    let mut i: usize = 0;
    let mut j: usize = 0;
    let ghost neat = sorted(left@) && sorted(right@) && comparable(left@) && comparable(right@);
    proof {
        broadcast use vstd::seq_lib::group_to_multiset_ensures;

        assert(left@.take(0) =~= Seq::empty());
        assert(right@.take(0) =~= Seq::empty());
        assert(out@.to_multiset() =~= left@.take(0).to_multiset().add(
            right@.take(0).to_multiset(),
        ));
        assert forall|rank: int| #[trigger] ranked(out@, rank) == ranked(left@.take(0), rank)
            + ranked(right@.take(0), rank) by {
            assert(ranked(left@.take(0), rank) + ranked(right@.take(0), rank) =~= Seq::empty());
        }
    }
    while i < left.len() || j < right.len()
        invariant
            i <= left@.len(),
            j <= right@.len(),
            left@.len() + right@.len() <= usize::MAX,
            out@.len() == i + j,
            neat == (sorted(left@) && sorted(right@) && comparable(left@) && comparable(right@)),
            out@.to_multiset() == left@.take(i as int).to_multiset().add(
                right@.take(j as int).to_multiset(),
            ),
            neat ==> merging(out@, left@, right@, i as int, j as int),
        decreases left@.len() + right@.len() - i - j,
    {
        let from_left: bool = if i == left.len() {
            false
        } else if j == right.len() {
            true
        } else {
            !right[j].is_below(left[i])
        };
        if from_left {
            proof {
                if neat {
                    lemma_take_left(out@, left@, right@, i as int, j as int);
                }
                assert(left@.take(i + 1) =~= left@.take(i as int).push(left@[i as int]));
                left@.take(i as int).to_multiset_ensures();
                out@.to_multiset_ensures();
            }
            out.push(left[i]);
            i = i + 1;
            assert(out@.to_multiset() =~= left@.take(i as int).to_multiset().add(
                right@.take(j as int).to_multiset(),
            ));
        } else {
            proof {
                if neat {
                    lemma_take_right(out@, left@, right@, i as int, j as int);
                }
                assert(right@.take(j + 1) =~= right@.take(j as int).push(right@[j as int]));
                right@.take(j as int).to_multiset_ensures();
                out@.to_multiset_ensures();
            }
            out.push(right[j]);
            j = j + 1;
            assert(out@.to_multiset() =~= left@.take(i as int).to_multiset().add(
                right@.take(j as int).to_multiset(),
            ));
        }
    }
    assert(left@.take(i as int) =~= left@);
    assert(right@.take(j as int) =~= right@);
    out
}

/// `out` is `ps` in ascending order, with equal numbers in the order in which they came. Where a
/// not-a-number is among them no order is promised.
pub open spec fn sorts(out: Seq<Binary32>, ps: Seq<Binary32>) -> bool {
    &&& out.to_multiset() == ps.to_multiset()
    &&& out.len() == ps.len()
    &&& comparable(ps) ==> {
        &&& sorted(out)
        &&& comparable(out)
        &&& forall|rank: int| #[trigger] ranked(out, rank) == ranked(ps, rank)
    }
}

/// Numbers that can be compared stay so in any order.
proof fn lemma_comparable(out: Seq<Binary32>, ps: Seq<Binary32>)
    requires
        out.to_multiset() == ps.to_multiset(),
        comparable(ps),
    ensures
        comparable(out),
{
    broadcast use vstd::seq_lib::group_to_multiset_ensures;

    assert forall|i: int| 0 <= i < out.len() implies !(#[trigger] out[i]).nan() by {
        assert(out.contains(out[i]));
        assert(ps.to_multiset().count(out[i]) > 0);
        assert(ps.contains(out[i]));
        let k = choose|k: int| 0 <= k < ps.len() && ps[k] == out[i];
        assert(!ps[k].nan());
    }
}

/// Sorts the numbers from `from` up to `to`.
fn sort_range(ps: &[Binary32], from: usize, to: usize) -> (out: Vec<Binary32>)
    requires
        from <= to <= ps@.len(),
    ensures
        sorts(out@, ps@.subrange(from as int, to as int)),
    decreases to - from,
{
    let ghost part = ps@.subrange(from as int, to as int);
    if to - from <= 1 {
        let mut out: Vec<Binary32> = Vec::new();
        if from < to {
            out.push(ps[from]);
        }
        assert(out@ =~= part);
        return out;
    }
    let middle: usize = from + (to - from) / 2;
    let left: Vec<Binary32> = sort_range(ps, from, middle);
    let right: Vec<Binary32> = sort_range(ps, middle, to);
    let out: Vec<Binary32> = merge(&left, &right);
    proof {
        let a = ps@.subrange(from as int, middle as int);
        let b = ps@.subrange(middle as int, to as int);
        assert(part =~= a + b);
        vstd::seq_lib::lemma_multiset_commutative(a, b);
        if comparable(part) {
            assert forall|i: int| 0 <= i < a.len() implies !(#[trigger] a[i]).nan() by {
                assert(a[i] == part[i]);
            }
            assert forall|i: int| 0 <= i < b.len() implies !(#[trigger] b[i]).nan() by {
                assert(b[i] == part[i + a.len()]);
            }
            assert forall|rank: int| #[trigger] ranked(out@, rank) == ranked(part, rank) by {
                lemma_ranked_joined(a, b, rank);
                assert(ranked(left@, rank) == ranked(a, rank));
                assert(ranked(right@, rank) == ranked(b, rank));
            }
            lemma_comparable(out@, part);
        }
    }
    out
}

/// Sorts the numbers in ascending order; equal numbers stay in the order in which they come.
pub fn sort_ascending(ps: &[Binary32]) -> (out: Vec<Binary32>)
    ensures
        sorts(out@, ps@),
{
    assert(ps@.subrange(0, ps@.len() as int) =~= ps@);
    sort_range(ps, 0, ps.len())
}

/// What has a rank is among the numbers.
proof fn lemma_ranked_some(ps: Seq<Binary32>, rank: int) -> (i: int)
    requires
        ranked(ps, rank).len() > 0,
    ensures
        0 <= i < ps.len(),
        ps[i].rank() == rank,
    decreases ps.len(),
{
    if ps.last().rank() == rank {
        ps.len() - 1
    } else {
        let i = lemma_ranked_some(ps.drop_last(), rank);
        assert(ps.drop_last()[i] == ps[i]);
        i
    }
}

/// Two sorted sequences with the same numbers of each rank in the same order are the same.
proof fn lemma_sorted_same(a: Seq<Binary32>, b: Seq<Binary32>)
    requires
        sorted(a),
        sorted(b),
        a.len() == b.len(),
        forall|rank: int| #[trigger] ranked(a, rank) == ranked(b, rank),
    ensures
        a == b,
    decreases a.len(),
{
    if a.len() > 0 {
        let r = a.last().rank();
        assert(ranked(a, r).last() == a.last());
        assert(ranked(a, r) == ranked(b, r));
        let i = lemma_ranked_some(b, r);
        assert(b[i].at_most(b[b.len() - 1]));
        let s = b.last().rank();
        assert(ranked(b, s).last() == b.last());
        assert(ranked(a, s) == ranked(b, s));
        let j = lemma_ranked_some(a, s);
        assert(a[j].at_most(a[a.len() - 1]));
        assert(r == s);
        assert(a.last() == b.last());
        let c = a.drop_last();
        let d = b.drop_last();
        assert forall|rank: int| #[trigger] ranked(c, rank) == ranked(d, rank) by {
            assert(ranked(a, rank) == ranked(b, rank));
            if rank == r {
                assert(ranked(c, rank) =~= ranked(a, rank).drop_last());
                assert(ranked(d, rank) =~= ranked(b, rank).drop_last());
            }
        }
        assert forall|x: int, y: int| 0 <= x <= y < c.len() implies (#[trigger] c[x]).at_most(
            #[trigger] c[y],
        ) by {
            assert(a[x].at_most(a[y]));
        }
        assert forall|x: int, y: int| 0 <= x <= y < d.len() implies (#[trigger] d[x]).at_most(
            #[trigger] d[y],
        ) by {
            assert(b[x].at_most(b[y]));
        }
        lemma_sorted_same(c, d);
        assert(a =~= c.push(a.last()));
        assert(b =~= d.push(b.last()));
    } else {
        assert(a =~= b);
    }
}

/// Numbers that can be compared have one sorted order.
pub proof fn law_sorted_order_is_unique(a: Seq<Binary32>, b: Seq<Binary32>, ps: Seq<Binary32>)
    requires
        comparable(ps),
        sorts(a, ps),
        sorts(b, ps),
    ensures
        a == b,
{
    assert forall|rank: int| #[trigger] ranked(a, rank) == ranked(b, rank) by {
        assert(ranked(a, rank) == ranked(ps, rank));
        assert(ranked(b, rank) == ranked(ps, rank));
    }
    lemma_sorted_same(a, b);
}

/// Sorting keeps the numbers and puts those that can be compared into ascending order of their
/// values; numbers of the same value stay in the order in which they came.
pub proof fn law_sorting_orders_by_value(out: Seq<Binary32>, ps: Seq<Binary32>, i: int, j: int)
    requires
        sorts(out, ps),
        0 <= i <= j < out.len(),
    ensures
        out.len() == ps.len(),
        out.to_multiset() == ps.to_multiset(),
        comparable(ps) && out[i].finite() && out[j].finite() ==> out[i].value() <= out[j].value(),
        comparable(ps) ==> ranked(out, out[i].rank()) == ranked(ps, out[i].rank()),
{
    if comparable(ps) {
        assert(out[i].at_most(out[j]));
        if out[i].finite() && out[j].finite() {
            crate::integers::law_rank_orders_values(out[i], out[j]);
        }
    }
}

/// The numbers of a rank are those of that rank, in the order in which they come.
pub proof fn law_numbers_of_a_rank_keep_their_order(ps: Seq<Binary32>, rank: int)
    ensures
        ranked(ps, rank) == ps.filter(|p: Binary32| p.rank() == rank),
    decreases ps.len(),
{
    reveal(Seq::filter);
    if ps.len() > 0 {
        law_numbers_of_a_rank_keep_their_order(ps.drop_last(), rank);
    }
}

} // verus!
