//! Ranking of items and the stable sort.
//!
//! An [`Orderable`] type ranks its values by a total preorder: any two values
//! compare, but two values of the same rank need not be the same value. The
//! stable sort of a sequence is the one ascending arrangement of its items
//! that keeps items of the same rank in the order they came in.
use vstd::prelude::*;
use vstd::seq_lib::{lemma_multiset_commutative, to_multiset_insert};

verus! {

/// A type whose values are ranked by a total preorder that code can decide.
pub trait Orderable: Sized {
    /// `self` ranks no higher than `other`.
    spec fn ranks_at_most(&self, other: &Self) -> bool;

    /// Any two values compare.
    proof fn lemma_ranks_total(a: &Self, b: &Self)
        ensures
            a.ranks_at_most(b) || b.ranks_at_most(a),
    ;

    /// Ranking is transitive.
    proof fn lemma_ranks_transitive(a: &Self, b: &Self, c: &Self)
        requires
            a.ranks_at_most(b),
            b.ranks_at_most(c),
        ensures
            a.ranks_at_most(c),
    ;

    /// Decides [`Orderable::ranks_at_most`].
    fn at_most(&self, other: &Self) -> (yes: bool)
        ensures
            yes == self.ranks_at_most(other),
    ;
}

/// `a` and `b` rank the same.
pub open spec fn same_rank<T: Orderable>(a: T, b: T) -> bool {
    a.ranks_at_most(&b) && b.ranks_at_most(&a)
}

/// No item of `s` ranks higher than a later one.
pub open spec fn ascending<T: Orderable>(s: Seq<T>) -> bool {
    forall|i: int, j: int| 0 <= i < j < s.len() ==> #[trigger] s[i].ranks_at_most(&s[j])
}

/// The test for ranking the same as `k`.
pub open spec fn of_rank<T: Orderable>(k: T) -> spec_fn(T) -> bool {
    |x: T| same_rank(x, k)
}

/// The items of `s` that rank the same as `k`, in the order they have in `s`.
pub open spec fn peers<T: Orderable>(s: Seq<T>, k: T) -> Seq<T> {
    s.filter(of_rank(k))
}

/// `out` holds the items of `inp`, ascending, and items of the same rank in
/// the order they have in `inp`.
pub open spec fn is_stable_sort_of<T: Orderable>(out: Seq<T>, inp: Seq<T>) -> bool {
    &&& out.to_multiset() == inp.to_multiset()
    &&& ascending(out)
    &&& forall|k: T| #[trigger] peers(out, k) == peers(inp, k)
}

/// The stable sort of `s`. There is one, by [`lemma_stable_sort_exists`], and
/// only one, by [`lemma_stable_sort_unique`].
pub open spec fn stably_sorted<T: Orderable>(s: Seq<T>) -> Seq<T> {
    choose|out: Seq<T>| is_stable_sort_of(out, s)
}

/// Where `x` goes into the ascending `out` so that it comes before every item
/// of its own rank: no item before place `p` admits `x` at or below it, the
/// item at `p`, if there is one, does.
spec fn lands_at<T: Orderable>(out: Seq<T>, x: T, p: int) -> bool {
    &&& 0 <= p <= out.len()
    &&& forall|i: int| 0 <= i < p ==> !x.ranks_at_most(#[trigger] &out[i])
    &&& p < out.len() ==> x.ranks_at_most(&out[p])
}

/// Every value ranks the same as itself.
pub proof fn lemma_ranks_reflexive<T: Orderable>(a: T)
    ensures
        a.ranks_at_most(&a),
{
    T::lemma_ranks_total(&a, &a);
}

/// A sequence without an item that passes `pred` has an empty filter.
proof fn lemma_filter_of_none<T>(s: Seq<T>, pred: spec_fn(T) -> bool)
    requires
        forall|i: int| 0 <= i < s.len() ==> !pred(#[trigger] s[i]),
    ensures
        s.filter(pred) == Seq::<T>::empty(),
    decreases s.len(),
{
    reveal(Seq::filter);
    if s.len() > 0 {
        let front = s.drop_last();
        assert forall|i: int| 0 <= i < front.len() implies !pred(#[trigger] front[i]) by {
            assert(front[i] == s[i]);
        }
        lemma_filter_of_none(front, pred);
    }
}

/// The peers in a sequence that starts with `x`: `x` if it is one, then the
/// peers in the rest.
proof fn lemma_peers_of_prepended<T: Orderable>(x: T, s: Seq<T>, k: T)
    ensures
        peers(seq![x] + s, k) == if same_rank(x, k) {
            seq![x] + peers(s, k)
        } else {
            peers(s, k)
        },
{
    s.lemma_filter_prepend(x, of_rank(k));
    if !same_rank(x, k) {
        assert(Seq::<T>::empty() + peers(s, k) =~= peers(s, k));
    }
}

/// Putting `x` where it lands in the stable sort of `tail` gives the stable
/// sort of `x` followed by `tail`.
proof fn lemma_insert_keeps_stable_sort<T: Orderable>(out: Seq<T>, tail: Seq<T>, x: T, p: int)
    requires
        is_stable_sort_of(out, tail),
        lands_at(out, x, p),
    ensures
        is_stable_sort_of(out.insert(p, x), seq![x] + tail),
{
    let grown = out.insert(p, x);
    let inp = seq![x] + tail;
    let (low, high) = (out.subrange(0, p), out.subrange(p, out.len() as int));
    assert(out =~= low + high);
    assert(grown =~= low + (seq![x] + high));

    assert(grown.to_multiset() == inp.to_multiset()) by {
        to_multiset_insert(out, p, x);
        assert(inp =~= tail.insert(0, x));
        to_multiset_insert(tail, 0, x);
    }

    assert forall|i: int| 0 <= i < low.len() implies #[trigger] low[i].ranks_at_most(&x) by {
        assert(!x.ranks_at_most(&out[i]));
        T::lemma_ranks_total(&x, &out[i]);
    }
    assert forall|j: int| 0 <= j < high.len() implies x.ranks_at_most(#[trigger] &high[j]) by {
        if j > 0 {
            assert(out[p].ranks_at_most(&out[p + j]));
            T::lemma_ranks_transitive(&x, &out[p], &out[p + j]);
        }
    }
    assert(ascending(grown)) by {
        assert forall|i: int, j: int| 0 <= i < j < grown.len() implies #[trigger] grown[i].ranks_at_most(
            &grown[j],
        ) by {
            if j < p {
                assert(out[i].ranks_at_most(&out[j]));
            } else if j == p {
                assert(low[i].ranks_at_most(&x));
            } else if i < p {
                assert(low[i].ranks_at_most(&x));
                assert(x.ranks_at_most(&high[j - p - 1]));
                T::lemma_ranks_transitive(&grown[i], &x, &grown[j]);
            } else if i == p {
                assert(x.ranks_at_most(&high[j - p - 1]));
            } else {
                assert(out[i - 1].ranks_at_most(&out[j - 1]));
            }
        }
    }

    assert forall|k: T| #[trigger] peers(grown, k) == peers(inp, k) by {
        let pred = of_rank(k);
        assert(peers(out, k) == peers(tail, k));
        Seq::filter_distributes_over_add(low, high, pred);
        Seq::filter_distributes_over_add(low, seq![x] + high, pred);
        lemma_peers_of_prepended(x, high, k);
        lemma_peers_of_prepended(x, tail, k);
        if same_rank(x, k) {
            assert forall|i: int| 0 <= i < low.len() implies !pred(#[trigger] low[i]) by {
                if same_rank(low[i], k) {
                    T::lemma_ranks_transitive(&x, &k, &low[i]);
                    assert(low[i] == out[i]);
                }
            }
            lemma_filter_of_none(low, pred);
            assert(peers(grown, k) =~= seq![x] + peers(high, k));
            assert(peers(out, k) =~= peers(high, k));
        }
    }
}

/// Every item has a place to land in an ascending sequence.
proof fn lemma_landing_exists<T: Orderable>(out: Seq<T>, x: T, from: int) -> (p: int)
    requires
        0 <= from <= out.len(),
        forall|i: int| 0 <= i < from ==> !x.ranks_at_most(#[trigger] &out[i]),
    ensures
        lands_at(out, x, p),
    decreases out.len() - from,
{
    if from < out.len() && !x.ranks_at_most(&out[from]) {
        lemma_landing_exists(out, x, from + 1)
    } else {
        from
    }
}

/// Every sequence has a stable sort.
pub proof fn lemma_stable_sort_exists<T: Orderable>(s: Seq<T>) -> (out: Seq<T>)
    ensures
        is_stable_sort_of(out, s),
    decreases s.len(),
{
    if s.len() == 0 {
        assert(is_stable_sort_of(s, s));
        s
    } else {
        let tail = s.drop_first();
        let sorted_tail = lemma_stable_sort_exists(tail);
        let p = lemma_landing_exists(sorted_tail, s[0], 0);
        lemma_insert_keeps_stable_sort(sorted_tail, tail, s[0], p);
        assert(s =~= seq![s[0]] + tail);
        sorted_tail.insert(p, s[0])
    }
}

/// Two ascending sequences with the same peers for every rank are the same
/// sequence.
proof fn lemma_ascending_with_same_peers<T: Orderable>(a: Seq<T>, b: Seq<T>)
    requires
        ascending(a),
        ascending(b),
        forall|k: T| #[trigger] peers(a, k) == peers(b, k),
    ensures
        a == b,
    decreases a.len() + b.len(),
{
    if a.len() == 0 && b.len() == 0 {
        assert(a =~= b);
    } else {
        // One of them has a first item; its peers are found in both.
        let lead = if a.len() > 0 {
            a[0]
        } else {
            b[0]
        };
        lemma_ranks_reflexive(lead);
        assert(peers(a, lead) == peers(b, lead));
        assert(a.len() > 0 && b.len() > 0) by {
            let pred = of_rank(lead);
            if a.len() == 0 {
                assert(a.filter(pred) =~= Seq::<T>::empty()) by {
                    lemma_filter_of_none(a, pred);
                }
                b.lemma_filter_contains(pred, 0);
            }
            if b.len() == 0 {
                assert(b.filter(pred) =~= Seq::<T>::empty()) by {
                    lemma_filter_of_none(b, pred);
                }
                a.lemma_filter_contains(pred, 0);
            }
        }
        let (a0, b0) = (a[0], b[0]);
        let (a1, b1) = (a.drop_first(), b.drop_first());
        assert(a =~= seq![a0] + a1);
        assert(b =~= seq![b0] + b1);
        lemma_first_ranks_lowest(a, b);
        lemma_first_ranks_lowest(b, a);
        assert(same_rank(b0, a0));
        lemma_ranks_reflexive(a0);
        lemma_peers_of_prepended(a0, a1, a0);
        lemma_peers_of_prepended(b0, b1, a0);
        assert(peers(a, a0) == peers(b, a0));
        assert(a0 == b0) by {
            assert(peers(a, a0)[0] == a0);
            assert(peers(b, a0)[0] == b0);
        }
        assert forall|k: T| #[trigger] peers(a1, k) == peers(b1, k) by {
            lemma_peers_of_prepended(a0, a1, k);
            lemma_peers_of_prepended(b0, b1, k);
            assert(peers(a, k) == peers(b, k));
            if same_rank(a0, k) {
                assert(peers(a1, k) =~= peers(a, k).drop_first());
                assert(peers(b1, k) =~= peers(b, k).drop_first());
            }
        }
        assert(ascending(a1)) by {
            assert forall|i: int, j: int| 0 <= i < j < a1.len() implies #[trigger] a1[i].ranks_at_most(
                &a1[j],
            ) by {
                assert(a[i + 1].ranks_at_most(&a[j + 1]));
            }
        }
        assert(ascending(b1)) by {
            assert forall|i: int, j: int| 0 <= i < j < b1.len() implies #[trigger] b1[i].ranks_at_most(
                &b1[j],
            ) by {
                assert(b[i + 1].ranks_at_most(&b[j + 1]));
            }
        }
        lemma_ascending_with_same_peers(a1, b1);
    }
}

/// The first item of an ascending sequence ranks no higher than the first
/// item of another that has a peer of it.
proof fn lemma_first_ranks_lowest<T: Orderable>(a: Seq<T>, b: Seq<T>)
    requires
        a.len() > 0,
        b.len() > 0,
        ascending(a),
        peers(a, b[0]) == peers(b, b[0]),
    ensures
        a[0].ranks_at_most(&b[0]),
{
    let pred = of_rank(b[0]);
    lemma_ranks_reflexive(b[0]);
    b.lemma_filter_contains(pred, 0);
    assert(a.filter(pred).contains(b[0]));
    a.lemma_filter_contains_rev(pred, b[0]);
    let j = choose|j: int| 0 <= j < a.len() && a[j] == b[0];
    if j > 0 {
        assert(a[0].ranks_at_most(&a[j]));
    }
}

/// A sequence has no more than one stable sort.
pub proof fn lemma_stable_sort_unique<T: Orderable>(a: Seq<T>, b: Seq<T>, inp: Seq<T>)
    requires
        is_stable_sort_of(a, inp),
        is_stable_sort_of(b, inp),
    ensures
        a == b,
{
    assert forall|k: T| #[trigger] peers(a, k) == peers(b, k) by {
        assert(peers(a, k) == peers(inp, k));
        assert(peers(b, k) == peers(inp, k));
    }
    lemma_ascending_with_same_peers(a, b);
}

/// The stable sort keeps the items, puts them in ascending order and keeps
/// items of the same rank in the order they came in.
pub proof fn lemma_stably_sorted_is_stable_sort<T: Orderable>(s: Seq<T>)
    ensures
        is_stable_sort_of(stably_sorted(s), s),
{
    let out = lemma_stable_sort_exists(s);
    assert(is_stable_sort_of(out, s));
}

/// An ascending sequence is its own stable sort.
pub proof fn lemma_ascending_is_sorted<T: Orderable>(s: Seq<T>)
    requires
        ascending(s),
    ensures
        stably_sorted(s) == s,
{
    lemma_stably_sorted_is_stable_sort(s);
    assert(is_stable_sort_of(s, s));
    lemma_stable_sort_unique(stably_sorted(s), s, s);
}

/// Sorting what is sorted changes nothing.
pub proof fn lemma_sort_idempotent<T: Orderable>(s: Seq<T>)
    ensures
        stably_sorted(stably_sorted(s)) == stably_sorted(s),
{
    lemma_stably_sorted_is_stable_sort(s);
    lemma_ascending_is_sorted(stably_sorted(s));
}

/// The stable sort of no items is no items.
pub proof fn lemma_sort_of_empty<T: Orderable>()
    ensures
        stably_sorted(Seq::<T>::empty()) == Seq::<T>::empty(),
{
    lemma_ascending_is_sorted(Seq::<T>::empty());
}

/// `out` holds the items of `l` and of `r`, ascending, and items of the same
/// rank in the order they have in `l` followed by `r`.
spec fn is_merge_of<T: Orderable>(out: Seq<T>, l: Seq<T>, r: Seq<T>) -> bool {
    &&& out.to_multiset() == (l + r).to_multiset()
    &&& ascending(out)
    &&& forall|k: T| #[trigger] peers(out, k) == peers(l, k) + peers(r, k)
}

/// A merge of the ascending `l` and `r` that has come down to the places `li`
/// and `ri`: `done` is the merge of what lies at and after them. No item taken
/// from `l` ranks as low as an item still waiting in `r`, and no item still
/// waiting ranks higher than an item of `done`.
spec fn merging<T: Orderable>(done: Seq<T>, l: Seq<T>, r: Seq<T>, li: int, ri: int) -> bool {
    &&& 0 <= li <= l.len()
    &&& 0 <= ri <= r.len()
    &&& is_merge_of(done, l.subrange(li, l.len() as int), r.subrange(ri, r.len() as int))
    &&& forall|i: int, j: int|
        li <= i < l.len() && 0 <= j < ri ==> !#[trigger] l[i].ranks_at_most(&r[j])
    &&& forall|t: int, i: int|
        0 <= t < done.len() && 0 <= i < li ==> #[trigger] l[i].ranks_at_most(&done[t])
    &&& forall|t: int, j: int|
        0 <= t < done.len() && 0 <= j < ri ==> #[trigger] r[j].ranks_at_most(&done[t])
}

/// The next item of the merge is the last one waiting in `r`, if no item is
/// waiting in `l` or the last of them ranks no higher.
proof fn lemma_merge_takes_right<T: Orderable>(done: Seq<T>, l: Seq<T>, r: Seq<T>, li: int, ri: int)
    requires
        ascending(l),
        ascending(r),
        merging(done, l, r, li, ri),
        ri > 0,
        li > 0 ==> l[li - 1].ranks_at_most(&r[ri - 1]),
    ensures
        merging(seq![r[ri - 1]] + done, l, r, li, ri - 1),
{
    let x = r[ri - 1];
    let grown = seq![x] + done;
    let (lt, rt) = (l.subrange(li, l.len() as int), r.subrange(ri, r.len() as int));
    let rt1 = r.subrange(ri - 1, r.len() as int);
    assert(rt1 =~= seq![x] + rt);
    lemma_ranks_reflexive(x);

    assert(grown.to_multiset() == (lt + rt1).to_multiset()) by {
        assert(grown =~= done.insert(0, x));
        to_multiset_insert(done, 0, x);
        assert(lt + rt1 =~= (lt + rt).insert(lt.len() as int, x));
        to_multiset_insert(lt + rt, lt.len() as int, x);
    }
    assert(ascending(grown)) by {
        assert forall|i: int, j: int| 0 <= i < j < grown.len() implies #[trigger] grown[i].ranks_at_most(
            &grown[j],
        ) by {
            if i == 0 {
                assert(r[ri - 1].ranks_at_most(&done[j - 1]));
            } else {
                assert(done[i - 1].ranks_at_most(&done[j - 1]));
            }
        }
    }
    assert forall|k: T| #[trigger] peers(grown, k) == peers(lt, k) + peers(rt1, k) by {
        assert(peers(done, k) == peers(lt, k) + peers(rt, k));
        lemma_peers_of_prepended(x, done, k);
        lemma_peers_of_prepended(x, rt, k);
        if same_rank(x, k) {
            assert forall|i: int| 0 <= i < lt.len() implies !of_rank(k)(#[trigger] lt[i]) by {
                if same_rank(lt[i], k) {
                    assert(!l[li + i].ranks_at_most(&r[ri - 1]));
                    T::lemma_ranks_transitive(&lt[i], &k, &x);
                }
            }
            lemma_filter_of_none(lt, of_rank(k));
            assert(peers(grown, k) =~= peers(lt, k) + peers(rt1, k));
        }
    }
    assert forall|t: int, i: int| 0 <= t < grown.len() && 0 <= i < li implies #[trigger] l[i].ranks_at_most(
        &grown[t],
    ) by {
        if t == 0 {
            if i < li - 1 {
                assert(l[i].ranks_at_most(&l[li - 1]));
                T::lemma_ranks_transitive(&l[i], &l[li - 1], &x);
            }
        } else {
            assert(l[i].ranks_at_most(&done[t - 1]));
        }
    }
    assert forall|t: int, j: int| 0 <= t < grown.len() && 0 <= j < ri - 1 implies #[trigger] r[j].ranks_at_most(
        &grown[t],
    ) by {
        if t == 0 {
            assert(r[j].ranks_at_most(&r[ri - 1]));
        } else {
            assert(r[j].ranks_at_most(&done[t - 1]));
        }
    }
}

/// The next item of the merge is the last one waiting in `l`, if no item is
/// waiting in `r` or the last of them ranks lower.
proof fn lemma_merge_takes_left<T: Orderable>(done: Seq<T>, l: Seq<T>, r: Seq<T>, li: int, ri: int)
    requires
        ascending(l),
        ascending(r),
        merging(done, l, r, li, ri),
        li > 0,
        ri > 0 ==> !l[li - 1].ranks_at_most(&r[ri - 1]),
    ensures
        merging(seq![l[li - 1]] + done, l, r, li - 1, ri),
{
    let x = l[li - 1];
    let grown = seq![x] + done;
    let (lt, rt) = (l.subrange(li, l.len() as int), r.subrange(ri, r.len() as int));
    let lt1 = l.subrange(li - 1, l.len() as int);
    assert(lt1 =~= seq![x] + lt);
    lemma_ranks_reflexive(x);

    assert(grown.to_multiset() == (lt1 + rt).to_multiset()) by {
        assert(grown =~= done.insert(0, x));
        to_multiset_insert(done, 0, x);
        assert(lt1 + rt =~= (lt + rt).insert(0, x));
        to_multiset_insert(lt + rt, 0, x);
    }
    assert(ascending(grown)) by {
        assert forall|i: int, j: int| 0 <= i < j < grown.len() implies #[trigger] grown[i].ranks_at_most(
            &grown[j],
        ) by {
            if i == 0 {
                assert(l[li - 1].ranks_at_most(&done[j - 1]));
            } else {
                assert(done[i - 1].ranks_at_most(&done[j - 1]));
            }
        }
    }
    assert forall|k: T| #[trigger] peers(grown, k) == peers(lt1, k) + peers(rt, k) by {
        assert(peers(done, k) == peers(lt, k) + peers(rt, k));
        lemma_peers_of_prepended(x, done, k);
        lemma_peers_of_prepended(x, lt, k);
        assert(peers(grown, k) =~= peers(lt1, k) + peers(rt, k));
    }
    assert forall|i: int, j: int| li - 1 <= i < l.len() && 0 <= j < ri implies !#[trigger] l[i].ranks_at_most(
        &r[j],
    ) by {
        if i == li - 1 && l[i].ranks_at_most(&r[j]) {
            if j < ri - 1 {
                assert(r[j].ranks_at_most(&r[ri - 1]));
                T::lemma_ranks_transitive(&l[i], &r[j], &r[ri - 1]);
            }
        }
    }
    assert forall|t: int, i: int| 0 <= t < grown.len() && 0 <= i < li - 1 implies #[trigger] l[i].ranks_at_most(
        &grown[t],
    ) by {
        if t == 0 {
            assert(l[i].ranks_at_most(&l[li - 1]));
        } else {
            assert(l[i].ranks_at_most(&done[t - 1]));
        }
    }
    assert forall|t: int, j: int| 0 <= t < grown.len() && 0 <= j < ri implies #[trigger] r[j].ranks_at_most(
        &grown[t],
    ) by {
        if t == 0 {
            T::lemma_ranks_total(&l[li - 1], &r[ri - 1]);
            if j < ri - 1 {
                assert(r[j].ranks_at_most(&r[ri - 1]));
                T::lemma_ranks_transitive(&r[j], &r[ri - 1], &x);
            }
        } else {
            assert(r[j].ranks_at_most(&done[t - 1]));
        }
    }
}

/// Merging the stable sorts of two sequences gives the stable sort of the
/// first followed by the second.
proof fn lemma_merge_sorts<T: Orderable>(out: Seq<T>, l: Seq<T>, r: Seq<T>, a: Seq<T>, b: Seq<T>)
    requires
        is_stable_sort_of(l, a),
        is_stable_sort_of(r, b),
        is_merge_of(out, l, r),
    ensures
        is_stable_sort_of(out, a + b),
{
    lemma_multiset_commutative(l, r);
    lemma_multiset_commutative(a, b);
    assert forall|k: T| #[trigger] peers(out, k) == peers(a + b, k) by {
        assert(peers(l, k) == peers(a, k));
        assert(peers(r, k) == peers(b, k));
        Seq::filter_distributes_over_add(a, b, of_rank(k));
    }
}

/// Merges two ascending sequences. Where an item of `left` and an item of
/// `right` rank the same, the one of `left` comes first.
fn merge<T: Orderable>(left: Vec<T>, right: Vec<T>) -> (out: Vec<T>)
    requires
        ascending(left@),
        ascending(right@),
    ensures
        is_merge_of(out@, left@, right@),
{
    let ghost l = left@;
    let ghost r = right@;
    let mut left = left;
    let mut right = right;
    // The merge is built from its end, so `backwards` holds it last item first.
    let mut backwards: Vec<T> = Vec::new();
    let ghost mut done: Seq<T> = Seq::empty();
    proof {
        assert(l.subrange(l.len() as int, l.len() as int) + r.subrange(
            r.len() as int,
            r.len() as int,
        ) =~= done);
        assert forall|k: T| #[trigger] peers(done, k) == peers(
            l.subrange(l.len() as int, l.len() as int),
            k,
        ) + peers(r.subrange(r.len() as int, r.len() as int), k) by {
            lemma_filter_of_none(done, of_rank(k));
            lemma_filter_of_none(l.subrange(l.len() as int, l.len() as int), of_rank(k));
            lemma_filter_of_none(r.subrange(r.len() as int, r.len() as int), of_rank(k));
        }
        assert(backwards@.reverse() =~= done);
    }
    while left.len() > 0 || right.len() > 0
        invariant
            ascending(l),
            ascending(r),
            left@ == l.subrange(0, left@.len() as int),
            right@ == r.subrange(0, right@.len() as int),
            merging(done, l, r, left@.len() as int, right@.len() as int),
            backwards@.reverse() == done,
        decreases left.len() + right.len(),
    {
        let from_right = if left.len() == 0 {
            true
        } else if right.len() == 0 {
            false
        } else {
            left[left.len() - 1].at_most(&right[right.len() - 1])
        };
        let ghost (li, ri) = (left@.len() as int, right@.len() as int);
        let x = if from_right {
            proof {
                lemma_merge_takes_right(done, l, r, li, ri);
            }
            right.pop().unwrap()
        } else {
            proof {
                lemma_merge_takes_left(done, l, r, li, ri);
            }
            left.pop().unwrap()
        };
        proof {
            assert(backwards@.push(x).reverse() =~= seq![x] + backwards@.reverse());
            done = seq![x] + done;
            assert(left@ =~= l.subrange(0, left@.len() as int));
            assert(right@ =~= r.subrange(0, right@.len() as int));
        }
        backwards.push(x);
    }
    proof {
        assert(l.subrange(0, l.len() as int) =~= l);
        assert(r.subrange(0, r.len() as int) =~= r);
    }
    let mut out: Vec<T> = Vec::new();
    while backwards.len() > 0
        invariant
            out@ + backwards@.reverse() == done,
        decreases backwards.len(),
    {
        let ghost before = backwards@;
        let x = backwards.pop().unwrap();
        proof {
            assert(before.reverse() =~= seq![x] + backwards@.reverse());
            assert(out@.push(x) + backwards@.reverse() =~= out@ + before.reverse());
        }
        out.push(x);
    }
    proof {
        assert(out@ + backwards@.reverse() =~= out@);
    }
    out
}

/// Sorts `items` in ascending order; items of the same rank stay in the order
/// they came in.
pub fn sort_stably<T: Orderable>(items: Vec<T>) -> (out: Vec<T>)
    ensures
        out@ == stably_sorted(items@),
        is_stable_sort_of(out@, items@),
    decreases items@.len(),
{
    let n: usize = items.len();
    if n <= 1 {
        proof {
            assert(is_stable_sort_of(items@, items@));
            lemma_ascending_is_sorted(items@);
        }
        return items;
    }
    let ghost inp = items@;
    let mut first = items;
    let second = first.split_off(n / 2);
    proof {
        assert(inp =~= first@ + second@);
    }
    let ghost (a, b) = (first@, second@);
    let sorted_first = sort_stably(first);
    let sorted_second = sort_stably(second);
    let out = merge(sorted_first, sorted_second);
    proof {
        lemma_merge_sorts(out@, sorted_first@, sorted_second@, a, b);
        lemma_stably_sorted_is_stable_sort(inp);
        lemma_stable_sort_unique(out@, stably_sorted(inp), inp);
    }
    out
}

} // verus!
