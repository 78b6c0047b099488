//! The aggregate frequency table: words with cumulative counts, merged
//! in one pass. Counts saturate at the largest representable count, so
//! accumulation is associative and commutative, and the totals do not
//! depend on the order in which documents are merged.
use vstd::prelude::*;

use crate::record::{Record, records_view};
use vstd::assert_seqs_equal;

verus! {

/// Saturating addition of counts.
pub open spec fn sat_add(a: nat, b: nat) -> nat {
    if a + b > usize::MAX as nat {
        usize::MAX as nat
    } else {
        a + b
    }
}

/// One pair merged into an entry sequence: the first entry with the
/// same word takes the added count; a new word is appended.
pub open spec fn merge_one(s: Seq<(Seq<char>, nat)>, w: Seq<char>, c: nat) -> Seq<
    (Seq<char>, nat),
>
    decreases s.len(),
{
    if s.len() == 0 {
        seq![(w, c)]
    } else if s[0].0 == w {
        seq![(s[0].0, sat_add(s[0].1, c))] + s.drop_first()
    } else {
        seq![s[0]] + merge_one(s.drop_first(), w, c)
    }
}

/// A sequence of pairs merged into an entry sequence, left to right.
pub open spec fn merge_pairs(s: Seq<(Seq<char>, nat)>, recs: Seq<(Seq<char>, nat)>) -> Seq<
    (Seq<char>, nat),
>
    decreases recs.len(),
{
    if recs.len() == 0 {
        s
    } else {
        merge_one(merge_pairs(s, recs.drop_last()), recs.last().0, recs.last().1)
    }
}

/// The mapping from word to count that an entry sequence denotes; when
/// a word repeats, its first entry counts.
pub open spec fn totals(s: Seq<(Seq<char>, nat)>) -> Map<Seq<char>, nat>
    decreases s.len(),
{
    if s.len() == 0 {
        Map::empty()
    } else {
        totals(s.drop_first()).insert(s[0].0, s[0].1)
    }
}

/// One pair merged into a mapping: an existing word takes the added
/// count, a new word enters with its count.
pub open spec fn upd(m: Map<Seq<char>, nat>, w: Seq<char>, c: nat) -> Map<Seq<char>, nat> {
    if m.dom().contains(w) {
        m.insert(w, sat_add(m[w], c))
    } else {
        m.insert(w, c)
    }
}

/// A sequence of pairs merged into a mapping, left to right.
pub open spec fn map_fold(m: Map<Seq<char>, nat>, recs: Seq<(Seq<char>, nat)>) -> Map<
    Seq<char>,
    nat,
>
    decreases recs.len(),
{
    if recs.len() == 0 {
        m
    } else {
        upd(map_fold(m, recs.drop_last()), recs.last().0, recs.last().1)
    }
}

/// No word appears in two entries.
pub open spec fn distinct_words(s: Seq<(Seq<char>, nat)>) -> bool {
    forall|i: int, j: int| 0 <= i < j < s.len() ==> (#[trigger] s[i]).0 != (#[trigger] s[j]).0
}

proof fn lemma_merge_one_found(s: Seq<(Seq<char>, nat)>, w: Seq<char>, c: nat, i: int)
    requires
        0 <= i < s.len(),
        s[i].0 == w,
        forall|j: int| 0 <= j < i ==> (#[trigger] s[j]).0 != w,
    ensures
        merge_one(s, w, c) == s.update(i, (w, sat_add(s[i].1, c))),
    decreases i,
{
    if i == 0 {
        assert(seq![(s[0].0, sat_add(s[0].1, c))] + s.drop_first() =~= s.update(
            0,
            (w, sat_add(s[0].1, c)),
        ));
    } else {
        lemma_merge_one_found(s.drop_first(), w, c, i - 1);
        assert(seq![s[0]] + s.drop_first().update(i - 1, (w, sat_add(s[i].1, c))) =~= s.update(
            i,
            (w, sat_add(s[i].1, c)),
        ));
    }
}

proof fn lemma_merge_one_absent(s: Seq<(Seq<char>, nat)>, w: Seq<char>, c: nat)
    requires
        forall|j: int| 0 <= j < s.len() ==> (#[trigger] s[j]).0 != w,
    ensures
        merge_one(s, w, c) == s.push((w, c)),
    decreases s.len(),
{
    if s.len() == 0 {
        assert(seq![(w, c)] =~= s.push((w, c)));
    } else {
        lemma_merge_one_absent(s.drop_first(), w, c);
        assert(seq![s[0]] + s.drop_first().push((w, c)) =~= s.push((w, c)));
    }
}

/// Merging one pair into the entries merges it into the totals.
pub proof fn lemma_totals_merge_one(s: Seq<(Seq<char>, nat)>, w: Seq<char>, c: nat)
    ensures
        totals(merge_one(s, w, c)) == upd(totals(s), w, c),
    decreases s.len(),
{
    if s.len() == 0 {
        let e = Seq::<(Seq<char>, nat)>::empty();
        assert(totals(e) =~= Map::<Seq<char>, nat>::empty());
        assert(merge_one(s, w, c) == seq![(w, c)]);
        assert(seq![(w, c)].drop_first() =~= e);
        assert(totals(seq![(w, c)]) == totals(e).insert(w, c));
        assert(upd(totals(s), w, c) == Map::<Seq<char>, nat>::empty().insert(w, c));
        assert(totals(merge_one(s, w, c)) == upd(totals(s), w, c));
    } else if s[0].0 == w {
        let t = seq![(s[0].0, sat_add(s[0].1, c))] + s.drop_first();
        assert(t.drop_first() =~= s.drop_first());
        assert(t[0] == (s[0].0, sat_add(s[0].1, c)));
        assert(totals(s).dom().contains(w));
        assert(totals(s)[w] == s[0].1);
        assert(totals(merge_one(s, w, c)) =~= upd(totals(s), w, c));
    } else {
        let t = seq![s[0]] + merge_one(s.drop_first(), w, c);
        assert(t.drop_first() =~= merge_one(s.drop_first(), w, c));
        assert(t[0] == s[0]);
        lemma_totals_merge_one(s.drop_first(), w, c);
        assert(totals(merge_one(s, w, c)) =~= upd(totals(s), w, c));
    }
}

/// Merging a pair sequence into the entries merges it into the totals.
pub proof fn lemma_totals_merge_pairs(s: Seq<(Seq<char>, nat)>, recs: Seq<(Seq<char>, nat)>)
    ensures
        totals(merge_pairs(s, recs)) == map_fold(totals(s), recs),
    decreases recs.len(),
{
    if recs.len() == 0 {
    } else {
        lemma_totals_merge_pairs(s, recs.drop_last());
        lemma_totals_merge_one(merge_pairs(s, recs.drop_last()), recs.last().0, recs.last().1);
    }
}

/// Two single-pair merges into a mapping commute.
pub proof fn lemma_upd_comm(m: Map<Seq<char>, nat>, w1: Seq<char>, c1: nat, w2: Seq<char>, c2: nat)
    ensures
        upd(upd(m, w1, c1), w2, c2) == upd(upd(m, w2, c2), w1, c1),
{
    if w1 == w2 {
        assert(upd(upd(m, w1, c1), w2, c2) =~= upd(upd(m, w2, c2), w1, c1));
    } else {
        assert(upd(upd(m, w1, c1), w2, c2) =~= upd(upd(m, w2, c2), w1, c1));
    }
}

proof fn lemma_map_fold_upd(m: Map<Seq<char>, nat>, w: Seq<char>, c: nat, recs: Seq<(Seq<char>, nat)>)
    ensures
        map_fold(upd(m, w, c), recs) == upd(map_fold(m, recs), w, c),
    decreases recs.len(),
{
    if recs.len() == 0 {
    } else {
        lemma_map_fold_upd(m, w, c, recs.drop_last());
        lemma_upd_comm(map_fold(m, recs.drop_last()), recs.last().0, recs.last().1, w, c);
    }
}

/// Merging a concatenation is merging one sequence after the other.
pub proof fn lemma_map_fold_concat(
    m: Map<Seq<char>, nat>,
    xs: Seq<(Seq<char>, nat)>,
    ys: Seq<(Seq<char>, nat)>,
)
    ensures
        map_fold(m, xs + ys) == map_fold(map_fold(m, xs), ys),
    decreases ys.len(),
{
    if ys.len() == 0 {
        assert(xs + ys =~= xs);
    } else {
        lemma_map_fold_concat(m, xs, ys.drop_last());
        assert((xs + ys).drop_last() =~= xs + ys.drop_last());
        assert((xs + ys).last() == ys.last());
    }
}

/// Merging per-document pair sequences in either order yields the same
/// totals: accumulation is associative and commutative.
pub proof fn lemma_merge_order_irrelevant(
    m: Map<Seq<char>, nat>,
    xs: Seq<(Seq<char>, nat)>,
    ys: Seq<(Seq<char>, nat)>,
)
    ensures
        map_fold(map_fold(m, xs), ys) == map_fold(map_fold(m, ys), xs),
    decreases ys.len(),
{
    if ys.len() == 0 {
    } else {
        lemma_merge_order_irrelevant(m, xs, ys.drop_last());
        lemma_map_fold_upd(map_fold(m, ys.drop_last()), ys.last().0, ys.last().1, xs);
    }
}

/// Merging the pairs of two documents in either order yields the same
/// totals.
pub proof fn lemma_merge_concat_commutes(
    m: Map<Seq<char>, nat>,
    xs: Seq<(Seq<char>, nat)>,
    ys: Seq<(Seq<char>, nat)>,
)
    ensures
        map_fold(m, xs + ys) == map_fold(m, ys + xs),
{
    lemma_map_fold_concat(m, xs, ys);
    lemma_map_fold_concat(m, ys, xs);
    lemma_merge_order_irrelevant(m, xs, ys);
}

/// Merging no pairs changes nothing.
pub proof fn lemma_merge_no_pairs(s: Seq<(Seq<char>, nat)>)
    ensures
        merge_pairs(s, Seq::empty()) == s,
        map_fold(totals(s), Seq::empty()) == totals(s),
{
}

/// The aggregate table: one entry per word, in first-seen order.
pub struct FrequencyTable {
    entries: Vec<Record>,
}

impl View for FrequencyTable {
    type V = Seq<(Seq<char>, nat)>;

    closed spec fn view(&self) -> Seq<(Seq<char>, nat)> {
        records_view(self.entries@)
    }
}

fn find_word(entries: &Vec<Record>, word: &String) -> (r: Option<usize>)
    ensures
        match r {
            Some(i) => i < entries@.len() && records_view(entries@)[i as int].0 == word@
                && forall|j: int|
                    0 <= j < i ==> (#[trigger] records_view(entries@)[j]).0 != word@,
            None => forall|j: int|
                0 <= j < entries@.len() ==> (#[trigger] records_view(entries@)[j]).0 != word@,
        },
{
    let n = entries.len();
    let mut i: usize = 0;
    while i < n
        invariant
            i <= n,
            n == entries@.len(),
            forall|j: int| 0 <= j < i ==> (#[trigger] records_view(entries@)[j]).0 != word@,
        decreases n - i,
    {
        if entries[i].word == *word {
            return Some(i);
        }
        proof {
            assert(records_view(entries@)[i as int].0 == entries@[i as int].word@);
        }
        i = i + 1;
    }
    None
}

impl FrequencyTable {
    /// No word appears twice.
    pub open spec fn inv(&self) -> bool {
        distinct_words(self@)
    }

    /// An empty table.
    pub fn new() -> (t: FrequencyTable)
        ensures
            t@ == Seq::<(Seq<char>, nat)>::empty(),
            t.inv(),
    {
        let t = FrequencyTable { entries: Vec::new() };
        proof {
            assert(t@ =~= Seq::<(Seq<char>, nat)>::empty());
        }
        t
    }

    /// The number of distinct words so far.
    pub fn len(&self) -> (n: usize)
        ensures
            n == self@.len(),
    {
        self.entries.len()
    }

    fn merge_record(&mut self, rec: &Record)
        ensures
            final(self)@ == merge_one(old(self)@, rec.word@, rec.count as nat),
            old(self).inv() ==> final(self).inv(),
    {
        let ghost s = self@;
        let ghost w = rec.word@;
        let ghost c = rec.count as nat;
        match find_word(&self.entries, &rec.word) {
            Some(i) => {
                let mut e = self.entries.remove(i);
                let prev = e.count;
                e.count = if prev > usize::MAX - rec.count {
                    usize::MAX
                } else {
                    prev + rec.count
                };
                proof {
                    assert(e.word@ == s[i as int].0);
                    assert(e.count as nat == sat_add(s[i as int].1, c));
                }
                self.entries.insert(i, e);
                proof {
                    lemma_merge_one_found(s, w, c, i as int);
                    assert(records_view(self.entries@) =~= s.update(
                        i as int,
                        (w, sat_add(s[i as int].1, c)),
                    ));
                    assert(forall|k: int|
                        0 <= k < self@.len() ==> (#[trigger] self@[k]).0 == s[k].0);
                }
            },
            None => {
                self.entries.push(Record { word: rec.word.clone(), count: rec.count });
                proof {
                    lemma_merge_one_absent(s, w, c);
                    assert(records_view(self.entries@) =~= s.push((w, c)));
                }
            },
        }
    }

    /// Merge a sequence of pairs into the table: an existing word takes
    /// the added count (saturating), a new word is appended. Merging an
    /// empty sequence leaves the table unchanged.
    pub fn merge(&mut self, recs: &Vec<Record>)
        ensures
            final(self)@ == merge_pairs(old(self)@, records_view(recs@)),
            old(self).inv() ==> final(self).inv(),
    {
        let ghost s = self@;
        let ghost rv = records_view(recs@);
        let n = recs.len();
        let mut k: usize = 0;
        proof {
            assert(rv.take(0) =~= Seq::<(Seq<char>, nat)>::empty());
        }
        while k < n
            invariant
                k <= n,
                n == recs@.len(),
                rv == records_view(recs@),
                self@ == merge_pairs(s, rv.take(k as int)),
                old(self).inv() ==> self.inv(),
                old(self)@ == s,
            decreases n - k,
        {
            proof {
                assert(rv.take(k as int + 1).drop_last() =~= rv.take(k as int));
                assert(rv.take(k as int + 1).last() == rv[k as int]);
                assert(rv[k as int] == recs@[k as int]@);
            }
            self.merge_record(&recs[k]);
            k = k + 1;
        }
        proof {
            assert(rv.take(rv.len() as int) =~= rv);
        }
    }

    /// The total for `word`: the sum of all merged counts for it, or
    /// nothing if the word was never merged.
    pub fn get(&self, word: &str) -> (r: Option<usize>)
        requires
            self.inv(),
        ensures
            match r {
                Some(c) => totals(self@).dom().contains(word@) && c as nat == totals(self@)[word@],
                None => !totals(self@).dom().contains(word@),
            },
    {
        let w = word.to_owned();
        match find_word(&self.entries, &w) {
            Some(i) => {
                proof {
                    lemma_totals_index(self@, i as int);
                }
                Some(self.entries[i].count)
            },
            None => {
                proof {
                    lemma_totals_absent(self@, word@);
                }
                None
            },
        }
    }

    /// The entries as records, in first-seen order.
    pub fn entries_list(&self) -> (r: Vec<Record>)
        ensures
            records_view(r@) == self@,
    {
        let mut r: Vec<Record> = Vec::new();
        let n = self.entries.len();
        let mut i: usize = 0;
        while i < n
            invariant
                i <= n,
                n == self.entries@.len(),
                records_view(r@) == self@.take(i as int),
            decreases n - i,
        {
            let e = &self.entries[i];
            let word = e.word.clone();
            let count = e.count;
            proof {
                assert(word@ == self.entries@[i as int].word@);
            }
            let ghost pre = r@;
            r.push(Record { word, count });
            i = i + 1;
            proof {
                assert(r@.last()@ == self@[i as int - 1]);
                assert(forall|j: int| 0 <= j < pre.len() ==> r@[j] == pre[j]);
                assert(self@.len() == n as int);
                assert(records_view(pre).len() == pre.len());
                assert(self@.take(i as int - 1).len() == i as int - 1);
                assert(pre.len() == i as int - 1);
                assert(r@.len() == i as int);
                assert(self@.take(i as int).len() == i as int);
                assert(records_view(r@).len() == i as int);
                assert_seqs_equal!(records_view(r@) == self@.take(i as int), j => {
                    if j < i - 1 {
                        assert(records_view(pre)[j] == self@.take(i as int - 1)[j]);
                        assert(records_view(r@)[j] == r@[j]@);
                    } else {
                        assert(records_view(r@)[j] == r@.last()@);
                    }
                });
            }
        }
        proof {
            assert(self@.take(n as int) =~= self@);
        }
        r
    }
}

/// Under distinct words, each entry is its word's total.
pub proof fn lemma_totals_index(s: Seq<(Seq<char>, nat)>, i: int)
    requires
        distinct_words(s),
        0 <= i < s.len(),
    ensures
        totals(s).dom().contains(s[i].0),
        totals(s)[s[i].0] == s[i].1,
    decreases s.len(),
{
    if i == 0 {
    } else {
        assert(distinct_words(s.drop_first())) by {
            assert(forall|p: int, q: int|
                0 <= p < q < s.drop_first().len() ==> (#[trigger] s.drop_first()[p]).0 != (
                #[trigger] s.drop_first()[q]).0) by {
                assert(forall|p: int, q: int|
                    0 <= p < q < s.drop_first().len() ==> s.drop_first()[p] == s[p + 1]
                        && s.drop_first()[q] == s[q + 1]);
            }
        }
        lemma_totals_index(s.drop_first(), i - 1);
        assert(s.drop_first()[i - 1] == s[i]);
        assert(s[0].0 != s[i].0);
    }
}

/// A word in no entry has no total.
pub proof fn lemma_totals_absent(s: Seq<(Seq<char>, nat)>, w: Seq<char>)
    requires
        forall|j: int| 0 <= j < s.len() ==> (#[trigger] s[j]).0 != w,
    ensures
        !totals(s).dom().contains(w),
    decreases s.len(),
{
    if s.len() == 0 {
    } else {
        assert(forall|j: int|
            0 <= j < s.drop_first().len() ==> (#[trigger] s.drop_first()[j]).0 != w) by {
            assert(forall|j: int|
                0 <= j < s.drop_first().len() ==> s.drop_first()[j] == s[j + 1]);
        }
        lemma_totals_absent(s.drop_first(), w);
    }
}

} // verus!
