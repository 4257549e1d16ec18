//! Stable sorting by an order on views.

use crate::text::views;
use vstd::prelude::*;

verus! {

/// A type whose values are put in order by their views.
pub trait Ranked: View + Sized {
    /// `a` goes before `b`.
    spec fn before(a: Self::V, b: Self::V) -> bool;

    /// Whether this value goes before the other.
    fn goes_before(&self, other: &Self) -> (r: bool)
        ensures
            r == Self::before(self@, other@),
    ;
}

/// `item` put into `s` behind every value that it does not go before.
pub open spec fn placed<T: Ranked>(s: Seq<T::V>, item: T::V) -> Seq<T::V>
    decreases s.len(),
{
    if s.len() == 0 || !T::before(item, s.last()) {
        s.push(item)
    } else {
        placed::<T>(s.drop_last(), item).push(s.last())
    }
}

/// The values of `s` in order; values of which neither goes before the other keep their places.
pub open spec fn ranked<T: Ranked>(s: Seq<T::V>) -> Seq<T::V>
    decreases s.len(),
{
    if s.len() == 0 {
        s
    } else {
        placed::<T>(ranked::<T>(s.drop_last()), s.last())
    }
}

/// `before` is a strict order in which being on a level is transitive.
pub open spec fn is_weak_order<T: Ranked>() -> bool {
    &&& forall|a: T::V, b: T::V| #[trigger] T::before(a, b) ==> !T::before(b, a)
    &&& forall|a: T::V, b: T::V, c: T::V|
        !(#[trigger] T::before(a, b)) && !(#[trigger] T::before(b, c)) ==> !T::before(a, c)
}

/// No value of `s` goes before one that stands in front of it.
pub open spec fn in_order<T: Ranked>(s: Seq<T::V>) -> bool {
    forall|i: int, j: int|
        0 <= i < j < s.len() ==> !T::before(#[trigger] s[j], #[trigger] s[i])
}

proof fn lemma_placed_multiset<T: Ranked>(s: Seq<T::V>, item: T::V)
    ensures
        placed::<T>(s, item).to_multiset() == s.to_multiset().insert(item),
    decreases s.len(),
{
    broadcast use vstd::seq_lib::group_to_multiset_ensures;

    if s.len() == 0 || !T::before(item, s.last()) {
    } else {
        lemma_placed_multiset::<T>(s.drop_last(), item);
        assert(s =~= s.drop_last().push(s.last()));
        assert(s.drop_last().to_multiset().insert(item).insert(s.last())
            =~= s.drop_last().to_multiset().insert(s.last()).insert(item));
    }
}

/// Sorting keeps every value as often as it occurs.
pub proof fn lemma_ranked_multiset<T: Ranked>(s: Seq<T::V>)
    ensures
        ranked::<T>(s).to_multiset() == s.to_multiset(),
        ranked::<T>(s).len() == s.len(),
    decreases s.len(),
{
    broadcast use vstd::seq_lib::group_to_multiset_ensures;

    if s.len() > 0 {
        lemma_ranked_multiset::<T>(s.drop_last());
        lemma_placed_multiset::<T>(ranked::<T>(s.drop_last()), s.last());
        assert(s =~= s.drop_last().push(s.last()));
    }
    vstd::seq_lib::to_multiset_len(s);
    vstd::seq_lib::to_multiset_len(ranked::<T>(s));
}

/// Sorting neither adds nor loses a value.
pub proof fn lemma_ranked_contains<T: Ranked>(s: Seq<T::V>, x: T::V)
    ensures
        ranked::<T>(s).contains(x) <==> s.contains(x),
{
    lemma_ranked_multiset::<T>(s);
    vstd::seq_lib::to_multiset_contains(s, x);
    vstd::seq_lib::to_multiset_contains(ranked::<T>(s), x);
}

proof fn lemma_placed_in_order<T: Ranked>(s: Seq<T::V>, item: T::V)
    requires
        is_weak_order::<T>(),
        in_order::<T>(s),
    ensures
        in_order::<T>(placed::<T>(s, item)),
        forall|x: T::V|
            #![trigger placed::<T>(s, item).contains(x)]
            placed::<T>(s, item).contains(x) ==> x == item || s.contains(x),
    decreases s.len(),
{
    let r = placed::<T>(s, item);
    if s.len() == 0 || !T::before(item, s.last()) {
        assert forall|i: int, j: int| 0 <= i < j < r.len() implies !T::before(
            #[trigger] r[j],
            #[trigger] r[i],
        ) by {
            if j == s.len() {
                if i < s.len() - 1 {
                    assert(!T::before(s.last(), s[i]));
                }
            }
        }
        assert forall|x: T::V| #![trigger r.contains(x)] r.contains(x) implies x == item
            || s.contains(x) by {
            let k = choose|k: int| 0 <= k < r.len() && r[k] == x;
            if k < s.len() {
                assert(s[k] == x);
            }
        }
    } else {
        let front = s.drop_last();
        assert(in_order::<T>(front)) by {
            assert forall|i: int, j: int| 0 <= i < j < front.len() implies !T::before(
                #[trigger] front[j],
                #[trigger] front[i],
            ) by {
                assert(!T::before(s[j], s[i]));
            }
        }
        lemma_placed_in_order::<T>(front, item);
        let p = placed::<T>(front, item);
        assert forall|i: int, j: int| 0 <= i < j < r.len() implies !T::before(
            #[trigger] r[j],
            #[trigger] r[i],
        ) by {
            if j == p.len() {
                assert(p.contains(p[i]));
                if p[i] != item {
                    let k = choose|k: int| 0 <= k < front.len() && front[k] == p[i];
                    assert(!T::before(s[s.len() - 1], s[k]));
                }
            } else {
                assert(!T::before(p[j], p[i]));
            }
        }
        assert forall|x: T::V| #![trigger r.contains(x)] r.contains(x) implies x == item
            || s.contains(x) by {
            let k = choose|k: int| 0 <= k < r.len() && r[k] == x;
            if k < p.len() {
                assert(p.contains(x));
                if x != item {
                    let m = choose|m: int| 0 <= m < front.len() && front[m] == x;
                    assert(s[m] == x);
                }
            } else {
                assert(s[s.len() - 1] == x);
            }
        }
    }
}

/// The sorted values stand in order.
pub proof fn lemma_ranked_in_order<T: Ranked>(s: Seq<T::V>)
    requires
        is_weak_order::<T>(),
    ensures
        in_order::<T>(ranked::<T>(s)),
    decreases s.len(),
{
    if s.len() > 0 {
        lemma_ranked_in_order::<T>(s.drop_last());
        lemma_placed_in_order::<T>(ranked::<T>(s.drop_last()), s.last());
    }
}

/// Puts `item` into `out` behind every value that it does not go before.
fn place<T: Ranked>(out: &mut Vec<T>, item: T)
    ensures
        views(final(out)@) == placed::<T>(views(old(out)@), item@),
{
    let ghost s = views(out@);
    let mut p: usize = out.len();
    proof {
        assert(s.take(p as int) =~= s);
        assert(s.skip(p as int) =~= Seq::<T::V>::empty());
        assert(placed::<T>(s, item@) + s.skip(p as int) =~= placed::<T>(s, item@));
    }
    while p > 0 && item.goes_before(&out[p - 1])
        invariant
            p <= out@.len(),
            s == views(out@),
            placed::<T>(s, item@) == placed::<T>(s.take(p as int), item@) + s.skip(p as int),
        decreases p,
    {
        proof {
            let front = s.take(p as int);
            assert(front.drop_last() =~= s.take(p - 1));
            assert(front.last() == out@[p - 1]@);
            assert(placed::<T>(s.take(p - 1), item@).push(front.last()) + s.skip(p as int)
                =~= placed::<T>(s.take(p - 1), item@) + s.skip(p - 1));
        }
        p = p - 1;
    }
    proof {
        assert(s.take(p as int).len() > 0 ==> s.take(p as int).last() == out@[p - 1]@);
        assert(placed::<T>(s.take(p as int), item@) == s.take(p as int).push(item@));
    }
    let ghost before = out@;
    let ghost iv = item@;
    out.insert(p, item);
    proof {
        assert(views(out@) =~= s.take(p as int).push(iv) + s.skip(p as int));
    }
}

/// The values in order; values of which neither goes before the other keep their places.
pub fn sorted<T: Ranked>(items: Vec<T>) -> (r: Vec<T>)
    ensures
        views(r@) == ranked::<T>(views(items@)),
{
    let mut out: Vec<T> = Vec::new();
    let ghost all = views(items@);
    proof {
        assert(views(out@) =~= ranked::<T>(all.take(0)));
    }
    for item in it: items
        invariant
            it.seq() == items@,
            all == views(items@),
            views(out@) == ranked::<T>(all.take(it.index())),
    {
        proof {
            assert(all.take(it.index() + 1).drop_last() =~= all.take(it.index()));
            assert(all.take(it.index() + 1).last() == item@);
        }
        place(&mut out, item);
    }
    proof {
        assert(all.take(all.len() as int) =~= all);
    }
    out
}

/// A type of which one value can stand for several.
pub trait Merged: View + Sized {
    /// The two values are taken to be the same.
    spec fn same(a: Self::V, b: Self::V) -> bool;

    /// Whether this value and the other are taken to be the same.
    fn is_same(&self, other: &Self) -> (r: bool)
        ensures
            r == Self::same(self@, other@),
    ;
}

/// The values of `s` without those that are the same as the value kept in front of them.
pub open spec fn merged<T: Merged>(s: Seq<T::V>) -> Seq<T::V>
    decreases s.len(),
{
    if s.len() == 0 {
        s
    } else {
        let r = merged::<T>(s.drop_last());
        if r.len() > 0 && T::same(r.last(), s.last()) {
            r
        } else {
            r.push(s.last())
        }
    }
}

/// The values without those that are the same as the value kept in front of them.
pub fn dedup<T: Merged>(items: Vec<T>) -> (r: Vec<T>)
    ensures
        views(r@) == merged::<T>(views(items@)),
{
    let mut out: Vec<T> = Vec::new();
    let ghost all = views(items@);
    proof {
        assert(views(out@) =~= merged::<T>(all.take(0)));
    }
    for item in it: items
        invariant
            it.seq() == items@,
            all == views(items@),
            views(out@) == merged::<T>(all.take(it.index())),
    {
        let ghost shown = views(out@);
        proof {
            assert(all.take(it.index() + 1).drop_last() =~= all.take(it.index()));
            assert(all.take(it.index() + 1).last() == item@);
            if out@.len() > 0 {
                assert(shown.last() == out@[out@.len() - 1]@);
            }
        }
        let repeated: bool = if out.len() > 0 {
            out[out.len() - 1].is_same(&item)
        } else {
            false
        };
        if !repeated {
            let ghost iv = item@;
            out.push(item);
            proof {
                assert(views(out@) =~= shown.push(iv));
            }
        }
    }
    proof {
        assert(all.take(all.len() as int) =~= all);
    }
    out
}

/// No two neighbours that are left are the same.
pub proof fn lemma_merged_distinct<T: Merged>(s: Seq<T::V>)
    ensures
        forall|i: int|
            0 <= i < merged::<T>(s).len() - 1 ==> !T::same(
                #[trigger] merged::<T>(s)[i],
                merged::<T>(s)[i + 1],
            ),
        merged::<T>(s).len() <= s.len(),
        forall|x: T::V| #[trigger] merged::<T>(s).contains(x) ==> s.contains(x),
    decreases s.len(),
{
    if s.len() > 0 {
        let front = s.drop_last();
        lemma_merged_distinct::<T>(front);
        let r = merged::<T>(front);
        let m = merged::<T>(s);
        assert forall|i: int| 0 <= i < m.len() - 1 implies !T::same(
            #[trigger] m[i],
            m[i + 1],
        ) by {
            if i < r.len() - 1 {
                assert(!T::same(r[i], r[i + 1]));
            }
        }
        assert forall|x: T::V| #[trigger] m.contains(x) implies s.contains(x) by {
            let k = choose|k: int| 0 <= k < m.len() && m[k] == x;
            if k < r.len() {
                assert(r.contains(x)) by {
                    assert(r[k] == x);
                }
                let j = choose|j: int| 0 <= j < front.len() && front[j] == x;
                assert(s[j] == x);
            } else {
                assert(s[s.len() - 1] == x);
            }
        }
    }
}

/// A list of places as integers.
pub open spec fn place_ints(s: Seq<usize>) -> Seq<int> {
    Seq::new(s.len(), |i: int| s[i] as int)
}

/// A value is kept by a filter exactly if it is there and meets the condition.
pub proof fn lemma_kept<A>(s: Seq<A>, p: spec_fn(A) -> bool)
    ensures
        forall|x: A| #[trigger] s.filter(p).contains(x) <==> s.contains(x) && p(x),
    decreases s.len(),
{
    reveal(Seq::filter);
    if s.len() > 0 {
        let front = s.drop_last();
        lemma_kept(front, p);
        let f = front.filter(p);
        let r = s.filter(p);
        assert forall|x: A| #[trigger] r.contains(x) <==> s.contains(x) && p(x) by {
            if r.contains(x) {
                let k = choose|k: int| 0 <= k < r.len() && r[k] == x;
                if k < f.len() {
                    assert(f[k] == x);
                    assert(f.contains(x));
                    let i = choose|i: int| 0 <= i < front.len() && front[i] == x;
                    assert(s[i] == x);
                } else {
                    assert(s[s.len() - 1] == x);
                }
            }
            if s.contains(x) && p(x) {
                let i = choose|i: int| 0 <= i < s.len() && s[i] == x;
                if i < front.len() {
                    assert(front[i] == x);
                    assert(front.contains(x));
                    assert(f.contains(x));
                    let k = choose|k: int| 0 <= k < f.len() && f[k] == x;
                    assert(r[k] == x);
                } else {
                    assert(r[f.len() as int] == x);
                }
            }
        }
    } else {
        assert(s.filter(p) =~= s);
    }
}

proof fn lemma_filter_push<A>(s: Seq<A>, x: A, p: spec_fn(A) -> bool)
    ensures
        s.push(x).filter(p) == if p(x) {
            s.filter(p).push(x)
        } else {
            s.filter(p)
        },
{
    reveal(Seq::filter);
    assert(s.push(x).drop_last() =~= s);
}

proof fn lemma_placed_stable<T: Ranked>(s: Seq<T::V>, item: T::V, p: spec_fn(T::V) -> bool, x: T::V)
    requires
        is_weak_order::<T>(),
        forall|v: T::V| #[trigger] p(v) == (!T::before(v, x) && !T::before(x, v)),
    ensures
        placed::<T>(s, item).filter(p) == s.push(item).filter(p),
    decreases s.len(),
{
    lemma_filter_push(s, item, p);
    if s.len() == 0 || !T::before(item, s.last()) {
    } else {
        let front = s.drop_last();
        let last = s.last();
        lemma_placed_stable::<T>(front, item, p, x);
        lemma_filter_push(front, item, p);
        lemma_filter_push(placed::<T>(front, item), last, p);
        lemma_filter_push(front, last, p);
        assert(front.push(last) =~= s);
        if p(item) && p(last) {
            assert(!T::before(item, x) && !T::before(x, last));
            assert(!T::before(item, last));
        }
    }
}

/// Sorting keeps the places of values of which neither goes before the other: among those that
/// stand level with a value, the order is as it was.
pub proof fn lemma_ranked_stable<T: Ranked>(s: Seq<T::V>, x: T::V)
    requires
        is_weak_order::<T>(),
    ensures
        ranked::<T>(s).filter(|v: T::V| !T::before(v, x) && !T::before(x, v)) == s.filter(
            |v: T::V| !T::before(v, x) && !T::before(x, v),
        ),
    decreases s.len(),
{
    if s.len() > 0 {
        let p = |v: T::V| !T::before(v, x) && !T::before(x, v);
        lemma_ranked_stable::<T>(s.drop_last(), x);
        lemma_placed_stable::<T>(ranked::<T>(s.drop_last()), s.last(), p, x);
        lemma_filter_push(ranked::<T>(s.drop_last()), s.last(), p);
        lemma_filter_push(s.drop_last(), s.last(), p);
        assert(s.drop_last().push(s.last()) =~= s);
    }
}

/// Every value is kept or stands behind one that is taken to be the same, and the first is always
/// kept.
pub proof fn lemma_merged_keeps<T: Merged>(s: Seq<T::V>)
    ensures
        s.len() > 0 ==> merged::<T>(s).len() > 0 && merged::<T>(s)[0] == s[0],
        forall|x: T::V| #[trigger]
            s.contains(x) ==> merged::<T>(s).contains(x) || exists|y: T::V| #[trigger]
                merged::<T>(s).contains(y) && T::same(y, x),
    decreases s.len(),
{
    if s.len() > 0 {
        let front = s.drop_last();
        lemma_merged_keeps::<T>(front);
        let r = merged::<T>(front);
        let m = merged::<T>(s);
        assert forall|x: T::V| #[trigger] s.contains(x) implies m.contains(x) || exists|y: T::V|
         #[trigger]
            m.contains(y) && T::same(y, x) by {
            let i = choose|i: int| 0 <= i < s.len() && s[i] == x;
            if i < front.len() {
                assert(front[i] == x);
                assert(front.contains(x));
                if r.contains(x) {
                    let k = choose|k: int| 0 <= k < r.len() && r[k] == x;
                    assert(m[k] == x);
                } else {
                    let y = choose|y: T::V| #[trigger] r.contains(y) && T::same(y, x);
                    let k = choose|k: int| 0 <= k < r.len() && r[k] == y;
                    assert(m[k] == y);
                    assert(m.contains(y));
                }
            } else if r.len() > 0 && T::same(r.last(), s.last()) {
                assert(m[r.len() - 1] == r.last());
                assert(m.contains(r.last()));
            } else {
                assert(m[r.len() as int] == x);
            }
        }
    }
}

/// What is left of values that stand in order stands in order.
pub proof fn lemma_merged_in_order<T: Ranked + Merged>(s: Seq<<T as View>::V>)
    requires
        in_order::<T>(s),
    ensures
        in_order::<T>(merged::<T>(s)),
    decreases s.len(),
{
    if s.len() > 0 {
        let front = s.drop_last();
        assert forall|i: int, j: int| 0 <= i < j < front.len() implies !T::before(
            #[trigger] front[j],
            #[trigger] front[i],
        ) by {
            assert(!T::before(s[j], s[i]));
        }
        lemma_merged_in_order::<T>(front);
        lemma_merged_distinct::<T>(front);
        let r = merged::<T>(front);
        let m = merged::<T>(s);
        assert forall|i: int, j: int| 0 <= i < j < m.len() implies !T::before(
            #[trigger] m[j],
            #[trigger] m[i],
        ) by {
            if j < r.len() {
                assert(!T::before(r[j], r[i]));
            } else {
                assert(r.contains(r[i]));
                let k = choose|k: int| 0 <= k < front.len() && front[k] == r[i];
                assert(!T::before(s[s.len() - 1], s[k]));
            }
        }
    }
}

} // verus!
