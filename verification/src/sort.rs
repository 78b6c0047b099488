//! Sorting the aggregate entries by descending count. The order is
//! deterministic: an entry is placed after every entry whose count is
//! at least its own, so entries with equal counts keep their
//! first-seen order (a stable insertion sort).
use vstd::prelude::*;

use crate::record::{Record, records_view};
use vstd::assert_seqs_equal;

verus! {

/// Entry counts never increase along the sequence.
pub open spec fn sorted_desc(s: Seq<(Seq<char>, nat)>) -> bool {
    forall|i: int, j: int| 0 <= i < j < s.len() ==> (#[trigger] s[i]).1 >= (#[trigger] s[j]).1
}

/// `x` placed after every leading entry whose count is at least its
/// own.
pub open spec fn insert_desc(s: Seq<(Seq<char>, nat)>, x: (Seq<char>, nat)) -> Seq<
    (Seq<char>, nat),
>
    decreases s.len(),
{
    if s.len() == 0 {
        seq![x]
    } else if s[0].1 >= x.1 {
        seq![s[0]] + insert_desc(s.drop_first(), x)
    } else {
        seq![x] + s
    }
}

/// The entries sorted by descending count, stably.
pub open spec fn sort_desc(s: Seq<(Seq<char>, nat)>) -> Seq<(Seq<char>, nat)>
    decreases s.len(),
{
    if s.len() == 0 {
        Seq::empty()
    } else {
        insert_desc(sort_desc(s.drop_last()), s.last())
    }
}

proof fn lemma_insert_desc_at(s: Seq<(Seq<char>, nat)>, x: (Seq<char>, nat), i: int)
    requires
        0 <= i <= s.len(),
        forall|j: int| 0 <= j < i ==> (#[trigger] s[j]).1 >= x.1,
        i < s.len() ==> s[i].1 < x.1,
    ensures
        insert_desc(s, x) == s.take(i) + seq![x] + s.skip(i),
    decreases i,
{
    if i == 0 {
        if s.len() == 0 {
            assert(seq![x] =~= s.take(0) + seq![x] + s.skip(0));
        } else {
            assert(s[0].1 < x.1);
            assert(seq![x] + s =~= s.take(0) + seq![x] + s.skip(0));
        }
    } else {
        assert(s[0].1 >= x.1);
        lemma_insert_desc_at(s.drop_first(), x, i - 1);
        assert(seq![s[0]] + (s.drop_first().take(i - 1) + seq![x] + s.drop_first().skip(i - 1))
            =~= s.take(i) + seq![x] + s.skip(i));
    }
}

/// Inserting keeps the descending order, adds exactly the new entry,
/// and invents no entry.
pub proof fn lemma_insert_desc_props(s: Seq<(Seq<char>, nat)>, x: (Seq<char>, nat))
    requires
        sorted_desc(s),
    ensures
        insert_desc(s, x).len() == s.len() + 1,
        sorted_desc(insert_desc(s, x)),
        insert_desc(s, x).to_multiset() == s.to_multiset().insert(x),
        forall|k: int|
            0 <= k < insert_desc(s, x).len() ==> (#[trigger] insert_desc(s, x)[k]) == x
                || s.contains(insert_desc(s, x)[k]),
    decreases s.len(),
{
    broadcast use vstd::seq_lib::group_to_multiset_ensures;

    if s.len() == 0 {
        assert(seq![x] =~= Seq::<(Seq<char>, nat)>::empty().push(x));
        assert(insert_desc(s, x).to_multiset() == s.to_multiset().insert(x));
    } else if s[0].1 >= x.1 {
        let df = s.drop_first();
        assert(sorted_desc(df)) by {
            assert(forall|p: int| 0 <= p < df.len() ==> #[trigger] df[p] == s[p + 1]);
        }
        lemma_insert_desc_props(df, x);
        let r = seq![s[0]] + insert_desc(df, x);
        assert(insert_desc(s, x) == r);
        assert(forall|p: int|
            1 <= p < r.len() ==> #[trigger] r[p] == insert_desc(df, x)[p - 1]);
        assert(forall|p: int|
            1 <= p < r.len() ==> r[p] == x || df.contains(#[trigger] r[p]));
        assert(forall|p: int| 0 <= p < df.len() ==> s.contains(#[trigger] df[p]));
        assert(forall|k: int| 0 <= k < r.len() ==> (#[trigger] r[k]) == x || s.contains(r[k]));
        assert(sorted_desc(r)) by {
            assert(forall|p: int|
                1 <= p < r.len() ==> (#[trigger] r[p]).1 <= s[0].1) by {
                assert(forall|p: int|
                    0 <= p < df.len() ==> (#[trigger] df[p]).1 <= s[0].1);
            }
        }
        assert(r.to_multiset() == s.to_multiset().insert(x)) by {
            assert(r =~= s.take(1) + insert_desc(df, x));
            vstd::seq_lib::lemma_multiset_commutative(s.take(1), insert_desc(df, x));
            vstd::seq_lib::lemma_multiset_commutative(s.take(1), df);
            assert(s.take(1) + df =~= s);
            assert(s.take(1).to_multiset().add(df.to_multiset().insert(x))
                =~= s.to_multiset().insert(x));
        }
    } else {
        let r = seq![x] + s;
        assert(insert_desc(s, x) == r);
        assert(forall|p: int| 1 <= p < r.len() ==> #[trigger] r[p] == s[p - 1]);
        assert(sorted_desc(r)) by {
            assert(forall|p: int| 0 <= p < s.len() ==> (#[trigger] s[p]).1 <= s[0].1);
        }
        assert(r.to_multiset() == s.to_multiset().insert(x)) by {
            assert(r =~= seq![x] + s);
            vstd::seq_lib::lemma_multiset_commutative(seq![x], s);
            assert(seq![x] =~= Seq::<(Seq<char>, nat)>::empty().push(x));
            assert(seq![x].to_multiset().add(s.to_multiset()) =~= s.to_multiset().insert(x));
        }
    }
}

/// The sorted entries: descending counts, the same entries, none
/// added, none lost.
pub proof fn lemma_sort_desc_props(s: Seq<(Seq<char>, nat)>)
    ensures
        sort_desc(s).len() == s.len(),
        sorted_desc(sort_desc(s)),
        sort_desc(s).to_multiset() == s.to_multiset(),
    decreases s.len(),
{
    broadcast use vstd::seq_lib::group_to_multiset_ensures;

    if s.len() == 0 {
    } else {
        lemma_sort_desc_props(s.drop_last());
        lemma_insert_desc_props(sort_desc(s.drop_last()), s.last());
        assert(s.drop_last().push(s.last()) =~= s);
        assert(sort_desc(s).to_multiset() == s.drop_last().to_multiset().insert(s.last()));
    }
}

/// The records sorted by descending count; records with equal counts
/// keep their order.
pub fn sort_records(recs: &Vec<Record>) -> (r: Vec<Record>)
    ensures
        records_view(r@) == sort_desc(records_view(recs@)),
{
    let ghost rv = records_view(recs@);
    let mut out: Vec<Record> = Vec::new();
    let n = recs.len();
    let mut k: usize = 0;
    proof {
        assert(records_view(out@) =~= sort_desc(rv.take(0)));
    }
    while k < n
        invariant
            k <= n,
            n == recs@.len(),
            rv == records_view(recs@),
            records_view(out@) == sort_desc(rv.take(k as int)),
            out@.len() == k,
        decreases n - k,
    {
        let ghost sorted = records_view(out@);
        let x = &recs[k];
        let ghost xv = rv[k as int];
        proof {
            assert(xv == recs@[k as int]@);
        }
        let m = out.len();
        let mut i: usize = 0;
        while i < m && out[i].count >= x.count
            invariant
                i <= m,
                m == out@.len(),
                sorted == records_view(out@),
                forall|j: int| 0 <= j < i ==> (#[trigger] sorted[j]).1 >= xv.1,
                xv.1 == x.count as nat,
            decreases m - i,
        {
            proof {
                assert(sorted[i as int].1 == out@[i as int].count as nat);
            }
            i = i + 1;
        }
        proof {
            assert(i < m ==> sorted[i as int].1 < xv.1) by {
                if i < m {
                    assert(sorted[i as int].1 == out@[i as int].count as nat);
                }
            }
            lemma_insert_desc_at(sorted, xv, i as int);
        }
        let ghost pre = out@;
        out.insert(i, Record { word: x.word.clone(), count: x.count });
        k = k + 1;
        proof {
            assert(rv.take(k as int).drop_last() =~= rv.take(k as int - 1));
            assert(rv.take(k as int).last() == xv);
            assert(records_view(pre).len() == pre.len());
            assert(out@.len() == pre.len() + 1);
            assert_seqs_equal!(records_view(out@) == sorted.take(i as int) + seq![xv]
                + sorted.skip(i as int), j => {
                if j < i {
                    assert(out@[j] == pre[j]);
                    assert(records_view(pre)[j] == pre[j]@);
                } else if j == i {
                    assert(out@[j]@ == xv);
                } else {
                    assert(out@[j] == pre[j - 1]);
                    assert(records_view(pre)[j - 1] == pre[j - 1]@);
                }
            });
            assert(records_view(out@) == sort_desc(rv.take(k as int)));
        }
    }
    proof {
        assert(rv.take(n as int) =~= rv);
    }
    out
}

} // verus!
