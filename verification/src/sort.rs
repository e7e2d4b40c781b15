//! A stable sort for anything whose views carry a ranking.

use vstd::prelude::*;

use crate::views::views;

verus! {

/// A type whose views are ranked: by a relation that is total and transitive. Two views may
/// rank level without being equal.
pub trait Ranked: View + Sized {
    /// `a` ranks before `b`, or level with it.
    spec fn precedes(a: Self::V, b: Self::V) -> bool;

    /// Of any two views, one precedes the other.
    proof fn lemma_precedes_total(a: Self::V, b: Self::V)
        ensures
            Self::precedes(a, b) || Self::precedes(b, a),
    ;

    /// Precedence carries over a middle view.
    proof fn lemma_precedes_transitive(a: Self::V, b: Self::V, c: Self::V)
        requires
            Self::precedes(a, b),
            Self::precedes(b, c),
        ensures
            Self::precedes(a, c),
    ;

    /// Decides the ranking of two values.
    fn comes_first(&self, other: &Self) -> (b: bool)
        ensures
            b == Self::precedes(self@, other@),
    ;
}

/// No view of `s` ranks strictly before one that stands earlier in `s`.
pub open spec fn ordered<T: Ranked>(s: Seq<T::V>) -> bool {
    forall|i: int, j: int| #![trigger s[i], s[j]] 0 <= i <= j < s.len() ==> T::precedes(s[i], s[j])
}

/// `s` with `x` put behind the last view that precedes it.
pub open spec fn placed<T: Ranked>(s: Seq<T::V>, x: T::V) -> Seq<T::V>
    decreases s.len(),
{
    if s.len() == 0 {
        seq![x]
    } else if T::precedes(s.last(), x) {
        s.push(x)
    } else {
        placed::<T>(s.drop_last(), x).push(s.last())
    }
}

/// The views of `s` in ranking order; views that rank level keep the order they had in `s`.
pub open spec fn sorted<T: Ranked>(s: Seq<T::V>) -> Seq<T::V>
    decreases s.len(),
{
    if s.len() == 0 {
        s
    } else {
        placed::<T>(sorted::<T>(s.drop_last()), s.last())
    }
}

/// The views of `s` that rank level with `k`, in the order they have in `s`.
pub open spec fn level_with<T: Ranked>(s: Seq<T::V>, k: T::V) -> Seq<T::V>
    decreases s.len(),
{
    if s.len() == 0 {
        s
    } else if T::precedes(s.last(), k) && T::precedes(k, s.last()) {
        level_with::<T>(s.drop_last(), k).push(s.last())
    } else {
        level_with::<T>(s.drop_last(), k)
    }
}

/// Sorts by the ranking, keeping values that rank level in the order they came in.
pub fn sort_stable<T: Ranked>(v: Vec<T>) -> (out: Vec<T>)
    ensures
        views(out@) == sorted::<T>(views(v@)),
        ordered::<T>(views(out@)),
        views(out@).to_multiset() == views(v@).to_multiset(),
    decreases v.len(),
{
    proof {
        lemma_sorted_ordered::<T>(views(v@));
        lemma_sorted_permutes::<T>(views(v@));
    }
    let mut left = v;
    let n = left.len();
    if n <= 1 {
        proof {
            let s = views(left@);
            if n == 1 {
                assert(sorted::<T>(s.drop_last()) =~= Seq::<T::V>::empty());
                assert(s =~= seq![s.last()]);
            }
        }
        return left;
    }
    let right = left.split_off(n / 2);
    proof {
        assert(views(v@) =~= views(left@) + views(right@));
        lemma_sorted_concat::<T>(views(left@), views(right@));
    }
    let left = sort_stable(left);
    let right = sort_stable(right);
    merge(left, right)
}

/// The two sequences woven into one from the back: the later view is taken from `b` unless the
/// last of `a` ranks strictly behind the last of `b`.
spec fn merged<T: Ranked>(a: Seq<T::V>, b: Seq<T::V>) -> Seq<T::V>
    decreases a.len() + b.len(),
{
    if a.len() == 0 {
        b
    } else if b.len() == 0 {
        a
    } else if T::precedes(a.last(), b.last()) {
        merged::<T>(a, b.drop_last()).push(b.last())
    } else {
        merged::<T>(a.drop_last(), b).push(a.last())
    }
}

/// Weaves two vectors into one, always taking the later of the two last values.
fn merge<T: Ranked>(a: Vec<T>, b: Vec<T>) -> (out: Vec<T>)
    ensures
        views(out@) == merged::<T>(views(a@), views(b@)),
{
    let ghost whole = merged::<T>(views(a@), views(b@));
    let mut a = a;
    let mut b = b;
    let mut tail: Vec<T> = Vec::new();
    while a.len() > 0 && b.len() > 0
        invariant
            whole == merged::<T>(views(a@), views(b@)) + views(tail@).reverse(),
        decreases a.len() + b.len(),
    {
        let ghost before = merged::<T>(views(a@), views(b@));
        let ghost a0 = a@;
        let ghost b0 = b@;
        let ghost t0 = tail@;
        if a[a.len() - 1].comes_first(&b[b.len() - 1]) {
            let x = b.pop().unwrap();
            tail.push(x);
            assert(views(b@) =~= views(b0).drop_last());
        } else {
            let x = a.pop().unwrap();
            tail.push(x);
            assert(views(a@) =~= views(a0).drop_last());
        }
        assert(before + views(t0).reverse() =~= merged::<T>(views(a@), views(b@)) + views(
            tail@,
        ).reverse());
    }
    let mut out = if a.len() > 0 { a } else { b };
    while tail.len() > 0
        invariant
            whole == views(out@) + views(tail@).reverse(),
        decreases tail.len(),
    {
        let ghost o0 = out@;
        let ghost t0 = tail@;
        let x = tail.pop().unwrap();
        out.push(x);
        assert(views(o0) + views(t0).reverse() =~= views(out@) + views(tail@).reverse());
    }
    assert(views(out@) =~= views(out@) + views(tail@).reverse());
    out
}

/// What comes out of sorting is ordered.
pub proof fn lemma_sorted_ordered<T: Ranked>(s: Seq<T::V>)
    ensures
        ordered::<T>(sorted::<T>(s)),
        sorted::<T>(s).len() == s.len(),
    decreases s.len(),
{
    if s.len() > 0 {
        lemma_sorted_ordered::<T>(s.drop_last());
        lemma_placed_ordered::<T>(sorted::<T>(s.drop_last()), s.last());
        lemma_placed_len::<T>(sorted::<T>(s.drop_last()), s.last());
    }
}

/// Sorting leaves an ordered sequence as it is.
pub proof fn lemma_sorted_of_ordered<T: Ranked>(s: Seq<T::V>)
    requires
        ordered::<T>(s),
    ensures
        sorted::<T>(s) == s,
    decreases s.len(),
{
    if s.len() > 0 {
        let front = s.drop_last();
        assert forall|i: int, j: int| 0 <= i <= j < front.len() implies T::precedes(
            front[i],
            front[j],
        ) by {
            assert(T::precedes(s[i], s[j]));
        }
        lemma_sorted_of_ordered::<T>(front);
        if front.len() > 0 {
            assert(T::precedes(s[front.len() - 1], s[s.len() - 1]));
        }
        assert(placed::<T>(front, s.last()) =~= s);
    }
}

/// Sorting rearranges: every view stays as often as it was there.
pub proof fn lemma_sorted_permutes<T: Ranked>(s: Seq<T::V>)
    ensures
        sorted::<T>(s).to_multiset() == s.to_multiset(),
    decreases s.len(),
{
    broadcast use vstd::seq_lib::group_to_multiset_ensures;

    if s.len() == 0 {
    } else {
        lemma_sorted_permutes::<T>(s.drop_last());
        lemma_placed_permutes::<T>(sorted::<T>(s.drop_last()), s.last());
        assert(s =~= s.drop_last().push(s.last()));
    }
}

/// Stability: sorting leaves the views that rank level with one another in the order they
/// came in.
pub proof fn lemma_sorted_stable<T: Ranked>(s: Seq<T::V>, k: T::V)
    ensures
        level_with::<T>(sorted::<T>(s), k) == level_with::<T>(s, k),
    decreases s.len(),
{
    if s.len() > 0 {
        lemma_sorted_stable::<T>(s.drop_last(), k);
        lemma_placed_stable::<T>(sorted::<T>(s.drop_last()), s.last(), k);
    }
}

/// An ordered sequence without its last view is ordered.
pub proof fn lemma_front_ordered<T: Ranked>(s: Seq<T::V>)
    requires
        ordered::<T>(s),
        s.len() > 0,
    ensures
        ordered::<T>(s.drop_last()),
{
    let front = s.drop_last();
    assert forall|i: int, j: int| 0 <= i <= j < front.len() implies T::precedes(
        front[i],
        front[j],
    ) by {
        assert(T::precedes(s[i], s[j]));
    }
}

proof fn lemma_placed_stable<T: Ranked>(s: Seq<T::V>, x: T::V, k: T::V)
    ensures
        level_with::<T>(placed::<T>(s, x), k) == (if T::precedes(x, k) && T::precedes(k, x) {
            level_with::<T>(s, k).push(x)
        } else {
            level_with::<T>(s, k)
        }),
    decreases s.len(),
{
    if s.len() == 0 {
        assert(seq![x].drop_last() =~= s);
    } else if T::precedes(s.last(), x) {
        assert(s.push(x).drop_last() =~= s);
    } else {
        let inner = placed::<T>(s.drop_last(), x);
        lemma_placed_stable::<T>(s.drop_last(), x, k);
        assert(inner.push(s.last()).drop_last() =~= inner);
        if T::precedes(x, k) && T::precedes(k, x) && T::precedes(s.last(), k) && T::precedes(
            k,
            s.last(),
        ) {
            T::lemma_precedes_transitive(s.last(), k, x);
        }
    }
}

/// Putting a view in place keeps every view and adds the one.
proof fn lemma_placed_len<T: Ranked>(s: Seq<T::V>, x: T::V)
    ensures
        placed::<T>(s, x).len() == s.len() + 1,
    decreases s.len(),
{
    if s.len() > 0 && !T::precedes(s.last(), x) {
        lemma_placed_len::<T>(s.drop_last(), x);
    }
}

/// Every view of `placed(s, x)` is `x` or a view of `s`.
proof fn lemma_placed_from<T: Ranked>(s: Seq<T::V>, x: T::V, i: int)
    requires
        0 <= i < placed::<T>(s, x).len(),
    ensures
        placed::<T>(s, x)[i] == x || exists|j: int|
            0 <= j < s.len() && s[j] == placed::<T>(s, x)[i],
    decreases s.len(),
{
    if s.len() > 0 && !T::precedes(s.last(), x) {
        let inner = placed::<T>(s.drop_last(), x);
        lemma_placed_len::<T>(s.drop_last(), x);
        if i < inner.len() {
            lemma_placed_from::<T>(s.drop_last(), x, i);
            if inner[i] != x {
                let j = choose|j: int| 0 <= j < s.drop_last().len() && s.drop_last()[j] == inner[i];
                assert(s[j] == placed::<T>(s, x)[i]);
            }
        } else {
            assert(s[s.len() - 1] == placed::<T>(s, x)[i]);
        }
    } else if s.len() > 0 {
        if i < s.len() {
            assert(s[i] == placed::<T>(s, x)[i]);
        }
    }
}

/// A view put in place in an ordered sequence leaves it ordered.
proof fn lemma_placed_ordered<T: Ranked>(s: Seq<T::V>, x: T::V)
    requires
        ordered::<T>(s),
    ensures
        ordered::<T>(placed::<T>(s, x)),
    decreases s.len(),
{
    let out = placed::<T>(s, x);
    if s.len() == 0 {
        T::lemma_precedes_total(x, x);
    } else if T::precedes(s.last(), x) {
        assert forall|i: int, j: int| 0 <= i <= j < out.len() implies T::precedes(
            out[i],
            out[j],
        ) by {
            if j < s.len() {
                assert(T::precedes(s[i], s[j]));
            } else if i < s.len() {
                assert(T::precedes(s[i], s[s.len() - 1]));
                T::lemma_precedes_transitive(s[i], s.last(), x);
            } else {
                T::lemma_precedes_total(x, x);
            }
        }
    } else {
        let front = s.drop_last();
        let inner = placed::<T>(front, x);
        lemma_front_ordered::<T>(s);
        lemma_placed_ordered::<T>(front, x);
        lemma_placed_len::<T>(front, x);
        T::lemma_precedes_total(s.last(), x);
        assert forall|i: int, j: int| 0 <= i <= j < out.len() implies T::precedes(
            out[i],
            out[j],
        ) by {
            if j < inner.len() {
                assert(T::precedes(inner[i], inner[j]));
            } else if i < inner.len() {
                lemma_placed_from::<T>(front, x, i);
                if inner[i] != x {
                    let k = choose|k: int| 0 <= k < front.len() && front[k] == inner[i];
                    assert(T::precedes(s[k], s[s.len() - 1]));
                }
            } else {
                T::lemma_precedes_total(s.last(), s.last());
            }
        }
    }
}

proof fn lemma_placed_permutes<T: Ranked>(s: Seq<T::V>, x: T::V)
    ensures
        placed::<T>(s, x).to_multiset() == s.to_multiset().insert(x),
    decreases s.len(),
{
    broadcast use vstd::seq_lib::group_to_multiset_ensures;

    if s.len() == 0 {
        assert(seq![x] =~= Seq::<T::V>::empty().push(x));
    } else if T::precedes(s.last(), x) {
    } else {
        lemma_placed_permutes::<T>(s.drop_last(), x);
        assert(s =~= s.drop_last().push(s.last()));
        assert(placed::<T>(s, x).to_multiset() =~= s.to_multiset().insert(x));
    }
}

proof fn lemma_merged_placed<T: Ranked>(a: Seq<T::V>, b: Seq<T::V>, x: T::V)
    ensures
        merged::<T>(a, placed::<T>(b, x)) == placed::<T>(merged::<T>(a, b), x),
    decreases a.len() + b.len(),
{
    let pb = placed::<T>(b, x);
    if a.len() == 0 {
    } else if b.len() == 0 {
        assert(pb.drop_last() =~= b);
        assert(merged::<T>(a, b) == a);
        if T::precedes(a.last(), x) {
        } else {
            lemma_merged_placed::<T>(a.drop_last(), b, x);
            assert(merged::<T>(a.drop_last(), b) =~= a.drop_last());
        }
    } else {
        let la = a.last();
        let lb = b.last();
        if T::precedes(lb, x) {
            assert(pb == b.push(x));
            assert(pb.drop_last() =~= b);
            assert(pb.last() == x);
            if T::precedes(la, x) {
                assert(merged::<T>(a, pb) == merged::<T>(a, b).push(x));
                assert(merged::<T>(a, b).last() == la || merged::<T>(a, b).last() == lb);
            } else {
                lemma_merged_placed::<T>(a.drop_last(), b, x);
                assert(merged::<T>(a, pb) == merged::<T>(a.drop_last(), pb).push(la));
                if T::precedes(la, lb) {
                    T::lemma_precedes_transitive(la, lb, x);
                }
                let m = merged::<T>(a.drop_last(), b);
                assert(merged::<T>(a, b) == m.push(la));
                assert(m.push(la).drop_last() =~= m);
            }
        } else {
            let inner = placed::<T>(b.drop_last(), x);
            assert(pb == inner.push(lb));
            assert(pb.drop_last() =~= inner);
            assert(pb.last() == lb);
            if T::precedes(la, lb) {
                lemma_merged_placed::<T>(a, b.drop_last(), x);
                let m = merged::<T>(a, b.drop_last());
                assert(merged::<T>(a, b) == m.push(lb));
                assert(m.push(lb).drop_last() =~= m);
            } else {
                lemma_merged_placed::<T>(a.drop_last(), b, x);
                if T::precedes(la, x) {
                    T::lemma_precedes_total(lb, x);
                    T::lemma_precedes_transitive(la, x, lb);
                }
                let m = merged::<T>(a.drop_last(), b);
                assert(merged::<T>(a, b) == m.push(la));
                assert(m.push(la).drop_last() =~= m);
            }
        }
    }
}

/// Sorting two halves and weaving them gives the whole sorted.
proof fn lemma_sorted_concat<T: Ranked>(l: Seq<T::V>, r: Seq<T::V>)
    ensures
        sorted::<T>(l + r) == merged::<T>(sorted::<T>(l), sorted::<T>(r)),
    decreases r.len(),
{
    if r.len() == 0 {
        assert(l + r =~= l);
        let sl = sorted::<T>(l);
        if sl.len() == 0 {
        }
    } else {
        assert((l + r).drop_last() =~= l + r.drop_last());
        lemma_sorted_concat::<T>(l, r.drop_last());
        lemma_merged_placed::<T>(sorted::<T>(l), sorted::<T>(r.drop_last()), r.last());
    }
}

} // verus!
