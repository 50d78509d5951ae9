//! A stable insertion sort at the specification level.
//!
//! The feed engine must pin its output down to one exact sequence, so
//! its sort is specified as a deterministic function rather than as
//! "some sorted permutation": `insertion_sort` inserts each element
//! after every earlier element that precedes-or-ties it, which is
//! exactly a stable sort. The executable sorts in the engine mirror it
//! one insertion at a time.
use vstd::prelude::*;

use vstd::relations::{sorted_by, strongly_connected, transitive};
use vstd::seq_lib::lemma_multiset_commutative;

verus! {

/// `x` inserted into `s` before the first element that does not precede
/// or tie it.
pub open spec fn insert_ordered<A>(s: Seq<A>, x: A, leq: spec_fn(A, A) -> bool) -> Seq<A>
    decreases s.len(),
{
    if s.len() > 0 && leq(s[0], x) {
        seq![s[0]] + insert_ordered(s.drop_first(), x, leq)
    } else {
        seq![x] + s
    }
}

/// The stable insertion sort of `s` under `leq`.
pub open spec fn insertion_sort<A>(s: Seq<A>, leq: spec_fn(A, A) -> bool) -> Seq<A>
    decreases s.len(),
{
    if s.len() == 0 {
        Seq::empty()
    } else {
        insert_ordered(insertion_sort(s.drop_last(), leq), s.last(), leq)
    }
}

pub proof fn lemma_insert_ordered_multiset<A>(s: Seq<A>, x: A, leq: spec_fn(A, A) -> bool)
    ensures
        insert_ordered(s, x, leq).to_multiset() =~= s.to_multiset().insert(x),
        insert_ordered(s, x, leq).len() == s.len() + 1,
    decreases s.len(),
{
    broadcast use vstd::seq_lib::group_to_multiset_ensures;

    if s.len() > 0 && leq(s[0], x) {
        lemma_insert_ordered_multiset(s.drop_first(), x, leq);
        lemma_multiset_commutative(seq![s[0]], insert_ordered(s.drop_first(), x, leq));
        lemma_multiset_commutative(seq![s[0]], s.drop_first());
        assert(seq![s[0]] + s.drop_first() =~= s);
        assert(seq![s[0]] =~= Seq::<A>::empty().push(s[0]));
        assert(insert_ordered(s, x, leq).to_multiset() =~= s.to_multiset().insert(x));
    } else {
        lemma_multiset_commutative(seq![x], s);
        assert(seq![x] =~= Seq::<A>::empty().push(x));
        assert(insert_ordered(s, x, leq).to_multiset() =~= s.to_multiset().insert(x));
    }
}

/// Every element of the insertion is the inserted element or one of the
/// original elements.
pub proof fn lemma_insert_ordered_contains<A>(s: Seq<A>, x: A, leq: spec_fn(A, A) -> bool)
    ensures
        forall|i: int|
            0 <= i < insert_ordered(s, x, leq).len() ==> #[trigger] insert_ordered(s, x, leq)[i]
                == x || s.contains(insert_ordered(s, x, leq)[i]),
    decreases s.len(),
{
    if s.len() > 0 && leq(s[0], x) {
        lemma_insert_ordered_contains(s.drop_first(), x, leq);
        let r = insert_ordered(s, x, leq);
        let rr = insert_ordered(s.drop_first(), x, leq);
        assert forall|i: int| 0 <= i < r.len() implies #[trigger] r[i] == x || s.contains(
            r[i],
        ) by {
            if i == 0 {
                assert(s.contains(s[0]));
            } else {
                assert(r[i] == rr[i - 1]);
                if rr[i - 1] != x {
                    let j = choose|j: int| 0 <= j < s.drop_first().len() && s.drop_first()[j]
                        == rr[i - 1];
                    assert(s[j + 1] == rr[i - 1]);
                }
            }
        }
    }
}

pub proof fn lemma_insert_ordered_sorted<A>(s: Seq<A>, x: A, leq: spec_fn(A, A) -> bool)
    requires
        sorted_by(s, leq),
        transitive(leq),
        strongly_connected(leq),
    ensures
        sorted_by(insert_ordered(s, x, leq), leq),
    decreases s.len(),
{
    let r = insert_ordered(s, x, leq);
    if s.len() > 0 && leq(s[0], x) {
        assert(sorted_by(s.drop_first(), leq));
        lemma_insert_ordered_sorted(s.drop_first(), x, leq);
        lemma_insert_ordered_contains(s.drop_first(), x, leq);
        let rr = insert_ordered(s.drop_first(), x, leq);
        assert forall|i: int, j: int| 0 <= i < j < r.len() implies #[trigger] leq(
            r[i],
            r[j],
        ) by {
            if i == 0 {
                assert(r[j] == rr[j - 1]);
                if rr[j - 1] == x {
                } else {
                    let m = choose|m: int| 0 <= m < s.drop_first().len() && s.drop_first()[m]
                        == rr[j - 1];
                    assert(leq(s[0], s[m + 1]));
                }
            } else {
                assert(r[i] == rr[i - 1] && r[j] == rr[j - 1]);
            }
        }
    } else {
        assert forall|i: int, j: int| 0 <= i < j < r.len() implies #[trigger] leq(
            r[i],
            r[j],
        ) by {
            if i == 0 {
                if s.len() > 0 {
                    assert(!leq(s[0], x));
                    assert(leq(x, s[0]));
                    if j > 1 {
                        assert(leq(s[0], s[j - 1]));
                    }
                }
            }
        }
    }
}

/// The insertion sort returns a sorted permutation of its input.
pub proof fn lemma_insertion_sort_ensures<A>(s: Seq<A>, leq: spec_fn(A, A) -> bool)
    requires
        transitive(leq),
        strongly_connected(leq),
    ensures
        sorted_by(insertion_sort(s, leq), leq),
        insertion_sort(s, leq).to_multiset() =~= s.to_multiset(),
        insertion_sort(s, leq).len() == s.len(),
    decreases s.len(),
{
    broadcast use vstd::seq_lib::group_to_multiset_ensures;

    if s.len() > 0 {
        lemma_insertion_sort_ensures(s.drop_last(), leq);
        lemma_insert_ordered_sorted(insertion_sort(s.drop_last(), leq), s.last(), leq);
        lemma_insert_ordered_multiset(insertion_sort(s.drop_last(), leq), s.last(), leq);
        assert(s.drop_last().push(s.last()) =~= s);
        assert(s.drop_last().push(s.last()).to_multiset() =~= s.drop_last().to_multiset().insert(
            s.last(),
        ));
    }
}

/// Where `x` belongs: inserting before position `p` is the same as
/// splitting there, as long as everything before `p` precedes-or-ties
/// `x` and the element at `p` (if any) does not.
pub proof fn lemma_insert_ordered_at<A>(s: Seq<A>, x: A, leq: spec_fn(A, A) -> bool, p: int)
    requires
        0 <= p <= s.len(),
        forall|i: int| 0 <= i < p ==> leq(#[trigger] s[i], x),
        p < s.len() ==> !leq(s[p], x),
    ensures
        insert_ordered(s, x, leq) == s.subrange(0, p) + seq![x] + s.subrange(p, s.len() as int),
    decreases s.len(),
{
    if p == 0 {
        if s.len() == 0 {
            assert(insert_ordered(s, x, leq) =~= s.subrange(0, 0) + seq![x] + s.subrange(
                0,
                s.len() as int,
            ));
        } else {
            assert(!leq(s[0], x));
            assert(insert_ordered(s, x, leq) =~= s.subrange(0, 0) + seq![x] + s.subrange(
                0,
                s.len() as int,
            ));
        }
    } else {
        assert(leq(s[0], x));
        let rest = s.drop_first();
        assert(forall|i: int| 0 <= i < p - 1 ==> leq(#[trigger] rest[i], x));
        lemma_insert_ordered_at(rest, x, leq, p - 1);
        assert(rest.subrange(0, p - 1) =~= s.subrange(1, p));
        assert(rest.subrange(p - 1, rest.len() as int) =~= s.subrange(p, s.len() as int));
        assert(insert_ordered(s, x, leq) =~= s.subrange(0, p) + seq![x] + s.subrange(
            p,
            s.len() as int,
        ));
    }
}

/// Appending one element extends the sort by one insertion.
pub proof fn lemma_insertion_sort_push<A>(s: Seq<A>, x: A, leq: spec_fn(A, A) -> bool)
    ensures
        insertion_sort(s.push(x), leq) == insert_ordered(insertion_sort(s, leq), x, leq),
{
    assert(s.push(x).drop_last() =~= s);
    assert(s.push(x).last() == x);
}

} // verus!
