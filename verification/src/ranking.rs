//! Deterministic, stable sorting by repeated right-insertion.  The
//! candidate order, the token order inside a phrase, and the final result
//! order are all instances of it.

use vstd::prelude::*;

verus! {

/// `leq(a, b)`: `a` may come no later than `b`.  A usable order relates
/// every two elements and is transitive.
pub open spec fn total_preorder<T>(leq: spec_fn(T, T) -> bool) -> bool {
    &&& forall|a: T, b: T| #[trigger] leq(a, b) || #[trigger] leq(b, a)
    &&& forall|a: T, b: T, c: T|
        #![trigger leq(a, b), leq(b, c)]
        leq(a, b) && leq(b, c) ==> leq(a, c)
}

/// Every earlier element may come no later than every later one.
pub open spec fn ordered_by<T>(s: Seq<T>, leq: spec_fn(T, T) -> bool) -> bool {
    forall|i: int, j: int| 0 <= i < j < s.len() ==> #[trigger] leq(s[i], s[j])
}

/// `x` inserted into `s` from the right: elements strictly after `x` move
/// one place up, and `x` lands after every element not strictly after it,
/// which keeps the insertion stable.
pub open spec fn insert_from_right<T>(s: Seq<T>, x: T, leq: spec_fn(T, T) -> bool) -> Seq<T>
    decreases s.len(),
{
    if s.len() > 0 && !leq(s.last(), x) {
        insert_from_right(s.drop_last(), x, leq).push(s.last())
    } else {
        s.push(x)
    }
}

/// The first `k` elements of `s`, sorted stably by `leq`.
pub open spec fn sort_upto<T>(s: Seq<T>, leq: spec_fn(T, T) -> bool, k: int) -> Seq<T>
    decreases k,
{
    if k <= 0 {
        Seq::empty()
    } else {
        insert_from_right(sort_upto(s, leq, k - 1), s[k - 1], leq)
    }
}

/// `s` sorted stably by `leq`.
pub open spec fn sort_of<T>(s: Seq<T>, leq: spec_fn(T, T) -> bool) -> Seq<T> {
    sort_upto(s, leq, s.len() as int)
}

pub proof fn lemma_insert_from_right_props<T>(s: Seq<T>, x: T, leq: spec_fn(T, T) -> bool)
    requires
        total_preorder(leq),
        ordered_by(s, leq),
    ensures
        ordered_by(insert_from_right(s, x, leq), leq),
        insert_from_right(s, x, leq).to_multiset() == s.to_multiset().insert(x),
        insert_from_right(s, x, leq).len() == s.len() + 1,
    decreases s.len(),
{
    broadcast use vstd::seq_lib::group_to_multiset_ensures;

    let r = insert_from_right(s, x, leq);
    if s.len() > 0 && !leq(s.last(), x) {
        assert(ordered_by(s.drop_last(), leq)) by {
            assert(forall|i: int, j: int|
                0 <= i < j < s.len() - 1 ==> #[trigger] leq(s.drop_last()[i], s.drop_last()[j]));
        }
        lemma_insert_from_right_props(s.drop_last(), x, leq);
        let rr = insert_from_right(s.drop_last(), x, leq);
        assert(s =~= s.drop_last().push(s.last()));
        assert(s.to_multiset() =~= s.drop_last().to_multiset().insert(s.last()));
        assert(r.to_multiset() =~= s.to_multiset().insert(x)) by {
            assert(r =~= rr.push(s.last()));
            assert(r.to_multiset() =~= rr.to_multiset().insert(s.last()));
        }
        assert(leq(x, s.last()));
        assert forall|i: int| 0 <= i < rr.len() implies leq(rr[i], s.last()) by {
            let e = rr[i];
            assert(rr.contains(e));
            assert(rr.to_multiset().count(e) > 0);
            if e == x {
            } else {
                assert(rr.to_multiset() == s.drop_last().to_multiset().insert(x));
                assert(s.drop_last().to_multiset().count(e) > 0);
                assert(s.drop_last().contains(e));
                let w = choose|w: int| 0 <= w < s.drop_last().len() && s.drop_last()[w] == e;
                assert(s[w] == e);
                assert(leq(s[w], s.last()));
            }
        }
        assert(ordered_by(r, leq)) by {
            assert forall|i: int, j: int| 0 <= i < j < r.len() implies leq(r[i], r[j]) by {
                if j < r.len() - 1 {
                    assert(r[i] == rr[i] && r[j] == rr[j]);
                    assert(leq(rr[i], rr[j]));
                } else {
                    assert(r[j] == s.last());
                    assert(r[i] == rr[i]);
                }
            }
        }
    } else {
        assert(r =~= s.push(x));
        assert(r.to_multiset() =~= s.to_multiset().insert(x));
        if s.len() > 0 {
            assert forall|i: int, j: int| 0 <= i < j < r.len() implies leq(r[i], r[j]) by {
                if j == r.len() - 1 {
                    assert(r[j] == x);
                    if i < s.len() - 1 {
                        assert(leq(s[i], s.last()));
                        assert(leq(s.last(), x));
                    }
                }
            }
        }
    }
}

pub proof fn lemma_sort_upto_props<T>(s: Seq<T>, leq: spec_fn(T, T) -> bool, k: int)
    requires
        total_preorder(leq),
        0 <= k <= s.len(),
    ensures
        ordered_by(sort_upto(s, leq, k), leq),
        sort_upto(s, leq, k).to_multiset() == s.take(k).to_multiset(),
        sort_upto(s, leq, k).len() == k,
    decreases k,
{
    broadcast use vstd::seq_lib::group_to_multiset_ensures;

    if k > 0 {
        lemma_sort_upto_props(s, leq, k - 1);
        lemma_insert_from_right_props(sort_upto(s, leq, k - 1), s[k - 1], leq);
        assert(s.take(k) =~= s.take(k - 1).push(s[k - 1]));
        assert(s.take(k).to_multiset() =~= s.take(k - 1).to_multiset().insert(s[k - 1]));
    } else {
        assert(sort_upto(s, leq, k) =~= Seq::<T>::empty());
        assert(s.take(0) =~= Seq::<T>::empty());
    }
}

/// Inserting at the first position whose suffix is strictly after `x` is
/// exactly the right-insertion.
pub proof fn lemma_insert_from_right_at<T>(s: Seq<T>, x: T, leq: spec_fn(T, T) -> bool, j: int)
    requires
        0 <= j <= s.len(),
        forall|m: int| j <= m < s.len() ==> !leq(#[trigger] s[m], x),
        j > 0 ==> leq(s[j - 1], x),
    ensures
        insert_from_right(s, x, leq) == s.insert(j, x),
    decreases s.len(),
{
    if s.len() > 0 && !leq(s.last(), x) {
        assert(j < s.len()) by {
            if j == s.len() {
                assert(leq(s[j - 1], x) || j == 0);
            }
        }
        assert(forall|m: int|
            j <= m < s.drop_last().len() ==> !leq(#[trigger] s.drop_last()[m], x));
        if j > 0 {
            assert(s.drop_last()[j - 1] == s[j - 1]);
        }
        lemma_insert_from_right_at(s.drop_last(), x, leq, j);
        assert(insert_from_right(s, x, leq) =~= s.insert(j, x)) by {
            assert(insert_from_right(s, x, leq) == s.drop_last().insert(j, x).push(s.last()));
            assert(s.drop_last().insert(j, x).push(s.last()) =~= s.insert(j, x));
        }
    } else {
        assert(j == s.len()) by {
            if j < s.len() {
                assert(!leq(s[s.len() - 1], x) || s.len() == 0);
            }
        }
        assert(insert_from_right(s, x, leq) =~= s.insert(j, x));
    }
}

} // verus!
