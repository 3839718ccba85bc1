//! Levenshtein edit distance over grapheme clusters, in the two-row
//! tabulation form, verified against the classic recursive definition.

use vstd::prelude::*;

verus! {

/// The smallest of three values.
pub open spec fn min3(a: nat, b: nat, c: nat) -> nat {
    if a <= b && a <= c {
        a
    } else if b <= c {
        b
    } else {
        c
    }
}

/// Classic Levenshtein distance between two sequences of grapheme clusters:
/// insertions, deletions and substitutions each cost 1.
pub open spec fn lev(a: Seq<Seq<char>>, b: Seq<Seq<char>>) -> nat
    decreases a.len() + b.len(),
{
    if a.len() == 0 {
        b.len()
    } else if b.len() == 0 {
        a.len()
    } else if a.last() == b.last() {
        lev(a.drop_last(), b.drop_last())
    } else {
        1 + min3(
            lev(a.drop_last(), b.drop_last()),
            lev(a.drop_last(), b),
            lev(a, b.drop_last()),
        )
    }
}

/// The distance never exceeds the summed lengths.
pub proof fn lemma_lev_upper(a: Seq<Seq<char>>, b: Seq<Seq<char>>)
    ensures
        lev(a, b) <= a.len() + b.len(),
    decreases a.len() + b.len(),
{
    if a.len() == 0 || b.len() == 0 {
    } else if a.last() == b.last() {
        lemma_lev_upper(a.drop_last(), b.drop_last());
    } else {
        lemma_lev_upper(a.drop_last(), b.drop_last());
        lemma_lev_upper(a.drop_last(), b);
        lemma_lev_upper(a, b.drop_last());
    }
}

/// A sequence is at distance 0 from itself.
pub proof fn lemma_lev_self(a: Seq<Seq<char>>)
    ensures
        lev(a, a) == 0,
    decreases a.len(),
{
    if a.len() > 0 {
        lemma_lev_self(a.drop_last());
    }
}

/// The distance is symmetric.
pub proof fn lemma_lev_symmetric(a: Seq<Seq<char>>, b: Seq<Seq<char>>)
    ensures
        lev(a, b) == lev(b, a),
    decreases a.len() + b.len(),
{
    if a.len() == 0 || b.len() == 0 {
    } else if a.last() == b.last() {
        lemma_lev_symmetric(a.drop_last(), b.drop_last());
    } else {
        lemma_lev_symmetric(a.drop_last(), b.drop_last());
        lemma_lev_symmetric(a.drop_last(), b);
        lemma_lev_symmetric(a, b.drop_last());
    }
}

fn min3_exec(a: usize, b: usize, c: usize) -> (r: usize)
    ensures
        r == min3(a as nat, b as nat, c as nat),
{
    if a <= b && a <= c {
        a
    } else if b <= c {
        b
    } else {
        c
    }
}

/// Two-row dynamic-programming form of the Levenshtein distance.
pub fn lev_distance(a: &Vec<String>, b: &Vec<String>) -> (d: usize)
    requires
        a@.len() <= 500,
        b@.len() <= 500,
    ensures
        d == lev(a.deep_view(), b.deep_view()),
{
    let ghost av = a.deep_view();
    let ghost bv = b.deep_view();
    let m = a.len();
    let n = b.len();
    proof {
        assert(av.len() == m && bv.len() == n);
    }

    let mut prev: Vec<usize> = Vec::new();
    for j in 0..n + 1
        invariant
            prev@.len() == j,
            n == bv.len() <= 500,
            forall|k: int| 0 <= k < j ==> prev@[k] == lev(Seq::<Seq<char>>::empty(), bv.take(k)),
    {
        proof {
            assert(lev(Seq::<Seq<char>>::empty(), bv.take(j as int)) == bv.take(j as int).len());
        }
        prev.push(j);
    }

    let mut i: usize = 1;
    while i <= m
        invariant
            1 <= i <= m + 1,
            m == av.len() <= 500,
            n == bv.len() <= 500,
            av == a.deep_view(),
            bv == b.deep_view(),
            prev@.len() == n + 1,
            forall|k: int| 0 <= k <= n ==> prev@[k] == lev(av.take(i - 1), bv.take(k)),
        decreases m + 1 - i,
    {
        let mut cur: Vec<usize> = Vec::new();
        proof {
            assert(bv.take(0) =~= Seq::<Seq<char>>::empty());
            assert(lev(av.take(i as int), bv.take(0)) == av.take(i as int).len());
        }
        cur.push(i);
        let mut j: usize = 1;
        while j <= n
            invariant
                1 <= j <= n + 1,
                1 <= i <= m,
                m == av.len() <= 500,
                n == bv.len() <= 500,
                av == a.deep_view(),
                bv == b.deep_view(),
                prev@.len() == n + 1,
                cur@.len() == j,
                forall|k: int| 0 <= k <= n ==> prev@[k] == lev(av.take(i - 1), bv.take(k)),
                forall|k: int| 0 <= k < j ==> cur@[k] == lev(av.take(i as int), bv.take(k)),
            decreases n + 1 - j,
        {
            proof {
                assert(av.take(i as int).last() == av[i - 1]);
                assert(av.take(i as int).drop_last() =~= av.take(i - 1));
                assert(bv.take(j as int).last() == bv[j - 1]);
                assert(bv.take(j as int).drop_last() =~= bv.take(j - 1));
                lemma_lev_upper(av.take(i - 1), bv.take(j - 1));
                lemma_lev_upper(av.take(i - 1), bv.take(j as int));
                lemma_lev_upper(av.take(i as int), bv.take(j - 1));
            }
            let cost: usize = if string_eq(&a[i - 1], &b[j - 1]) {
                prev[j - 1]
            } else {
                1 + min3_exec(prev[j - 1], prev[j], cur[j - 1])
            };
            proof {
                assert(cost == lev(av.take(i as int), bv.take(j as int)));
            }
            cur.push(cost);
            j = j + 1;
        }
        prev = cur;
        i = i + 1;
    }
    proof {
        assert(av.take(m as int) =~= av);
        assert(bv.take(n as int) =~= bv);
    }
    prev[n]
}

/// String equality, stated over the character views.
pub fn string_eq(a: &String, b: &String) -> (r: bool)
    ensures
        r == (a@ == b@),
{
    a.eq(b)
}

} // verus!
