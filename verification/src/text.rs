//! Character-level text utilities: conversion between strings and
//! character vectors, field splitting, whitespace trimming, and line
//! splitting. All behaviour is pinned down by spec functions over
//! `Seq<char>`.
use vstd::prelude::*;

verus! {

/// Whitespace recognised when trimming an identifier.
pub open spec fn is_space(c: char) -> bool {
    c == ' ' || c == '\t' || c == '\r' || c == '\n'
}

/// Split `s` at every occurrence of `sep`. A sequence without a
/// separator is one field; every separator ends the current field and
/// begins a new one, so the result always holds at least one field.
pub open spec fn split_char(s: Seq<char>, sep: char) -> Seq<Seq<char>>
    decreases s.len(),
{
    if s.len() == 0 {
        seq![Seq::<char>::empty()]
    } else if s[0] == sep {
        seq![Seq::<char>::empty()] + split_char(s.drop_first(), sep)
    } else {
        let rest = split_char(s.drop_first(), sep);
        seq![seq![s[0]] + rest[0]] + rest.drop_first()
    }
}

pub proof fn lemma_split_char_len(s: Seq<char>, sep: char)
    ensures
        split_char(s, sep).len() >= 1,
    decreases s.len(),
{
    if s.len() == 0 {
    } else if s[0] == sep {
    } else {
        lemma_split_char_len(s.drop_first(), sep);
    }
}

/// Leading whitespace removed.
pub open spec fn trim_start(s: Seq<char>) -> Seq<char>
    decreases s.len(),
{
    if s.len() > 0 && is_space(s[0]) {
        trim_start(s.drop_first())
    } else {
        s
    }
}

/// Trailing whitespace removed.
pub open spec fn trim_end(s: Seq<char>) -> Seq<char>
    decreases s.len(),
{
    if s.len() > 0 && is_space(s.last()) {
        trim_end(s.drop_last())
    } else {
        s
    }
}

/// Leading and trailing whitespace removed.
pub open spec fn trim_of(s: Seq<char>) -> Seq<char> {
    trim_end(trim_start(s))
}

/// One trailing carriage return removed, as when a line of a file with
/// Windows line endings is read.
pub open spec fn strip_cr(l: Seq<char>) -> Seq<char> {
    if l.len() > 0 && l.last() == '\r' {
        l.drop_last()
    } else {
        l
    }
}

/// The lines of a text: split at every newline, where a trailing
/// newline ends the last line rather than opening an empty one, and
/// each line loses one trailing carriage return.
pub open spec fn lines_of(s: Seq<char>) -> Seq<Seq<char>> {
    if s.len() == 0 {
        Seq::<Seq<char>>::empty()
    } else {
        let raw = if s.last() == '\n' {
            split_char(s, '\n').drop_last()
        } else {
            split_char(s, '\n')
        };
        Seq::new(raw.len(), |i: int| strip_cr(raw[i]))
    }
}

/// The views of a vector of character vectors.
pub open spec fn views_of(s: Seq<Vec<char>>) -> Seq<Seq<char>> {
    Seq::new(s.len(), |i: int| s[i]@)
}

/// The views of a vector of strings.
pub open spec fn strings_view(s: Seq<String>) -> Seq<Seq<char>> {
    Seq::new(s.len(), |i: int| s[i]@)
}

/// The views of a vector of optional strings.
pub open spec fn opt_views(s: Seq<Option<String>>) -> Seq<Option<Seq<char>>> {
    Seq::new(
        s.len(),
        |i: int|
            match s[i] {
                Some(l) => Some(l@),
                None => None,
            },
    )
}

/// The characters of a string, in order.
pub fn to_chars(s: &str) -> (r: Vec<char>)
    ensures
        r@ == s@,
{
    let n = s.unicode_len();
    let mut r: Vec<char> = Vec::new();
    let mut i: usize = 0;
    while i < n
        invariant
            n == s@.len(),
            i <= n,
            r@ == s@.take(i as int),
        decreases n - i,
    {
        let c = s.get_char(i);
        r.push(c);
        i = i + 1;
        proof {
            assert(r@ =~= s@.take(i as int));
        }
    }
    proof {
        assert(s@.take(n as int) =~= s@);
    }
    r
}

/// Relies on `String::push`: appends the given character to the end of
/// the string.
#[verifier::external_body]
fn push_char(s: &mut String, c: char)
    ensures
        final(s)@ == old(s)@.push(c),
{
    s.push(c);
}

/// A string holding exactly the given characters.
pub fn chars_to_string(v: &Vec<char>) -> (r: String)
    ensures
        r@ == v@,
{
    let mut r = String::new();
    let mut i: usize = 0;
    while i < v.len()
        invariant
            i <= v@.len(),
            r@ == v@.take(i as int),
        decreases v@.len() - i,
    {
        push_char(&mut r, v[i]);
        i = i + 1;
        proof {
            assert(r@ =~= v@.take(i as int));
        }
    }
    proof {
        assert(v@.take(v@.len() as int) =~= v@);
    }
    r
}

/// The fields of `line`, split at every occurrence of `sep`.
pub fn split_fields(line: &Vec<char>, sep: char) -> (r: Vec<Vec<char>>)
    ensures
        views_of(r@) == split_char(line@, sep),
{
    let ghost target = split_char(line@, sep);
    let mut fields: Vec<Vec<char>> = Vec::new();
    let mut cur: Vec<char> = Vec::new();
    let mut k: usize = 0;
    proof {
        lemma_split_char_len(line@, sep);
        assert(line@.skip(0) =~= line@);
        assert(target =~= views_of(fields@) + seq![cur@ + split_char(line@.skip(0), sep)[0]]
            + split_char(line@.skip(0), sep).drop_first());
        assert(target == views_of(fields@) + seq![cur@ + split_char(line@.skip(0), sep)[0]]
            + split_char(line@.skip(0), sep).drop_first());
    }
    while k < line.len()
        invariant
            k <= line@.len(),
            target == split_char(line@, sep),
            split_char(line@.skip(k as int), sep).len() >= 1,
            target == views_of(fields@) + seq![cur@ + split_char(line@.skip(k as int), sep)[0]]
                + split_char(line@.skip(k as int), sep).drop_first(),
        decreases line@.len() - k,
    {
        let ghost rest = split_char(line@.skip(k as int), sep);
        proof {
            assert(line@.skip(k as int)[0] == line@[k as int]);
            assert(line@.skip(k as int).drop_first() =~= line@.skip(k as int + 1));
            lemma_split_char_len(line@.skip(k as int + 1), sep);
        }
        let c = line[k];
        if c == sep {
            let ghost fs = fields@;
            let ghost done_v = cur@;
            let done = cur;
            cur = Vec::new();
            fields.push(done);
            proof {
                let next = split_char(line@.skip(k as int + 1), sep);
                let mid = views_of(fs) + seq![done_v] + next;
                assert(rest =~= seq![Seq::<char>::empty()] + next);
                assert(target =~= mid) by {
                    assert(rest[0] == Seq::<char>::empty());
                    assert(rest.drop_first() =~= next);
                    assert(done_v + rest[0] =~= done_v);
                }
                assert(views_of(fields@) + seq![cur@ + next[0]] + next.drop_first() =~= mid) by {
                    assert(fields@ == fs.push(done));
                    assert(forall|i: int|
                        0 <= i < fields@.len() ==> #[trigger] views_of(fields@)[i] == fields@[i]@);
                    assert(cur@ + next[0] =~= next[0]);
                    assert(next.len() >= 1);
                }
                assert(target == mid);
                assert(views_of(fields@) + seq![cur@ + next[0]] + next.drop_first() == mid);
            }
        } else {
            let ghost cur_old = cur@;
            cur.push(c);
            proof {
                let next = split_char(line@.skip(k as int + 1), sep);
                assert(rest =~= seq![seq![line@[k as int]] + next[0]] + next.drop_first());
                assert(rest[0] == seq![line@[k as int]] + next[0]);
                assert(rest.drop_first() =~= next.drop_first());
                assert(cur@ + next[0] =~= cur_old + rest[0]);
                assert(seq![cur@ + next[0]] == seq![cur_old + rest[0]]);
                assert(target == views_of(fields@) + seq![cur@ + next[0]] + next.drop_first());
            }
        }
        k = k + 1;
    }
    proof {
        assert(line@.skip(line@.len() as int) =~= Seq::<char>::empty());
        let rest = split_char(Seq::<char>::empty(), sep);
        assert(rest =~= seq![Seq::<char>::empty()]);
        assert(cur@ + rest[0] =~= cur@);
        assert(target =~= views_of(fields@) + seq![cur@]);
    }
    fields.push(cur);
    proof {
        assert(views_of(fields@) =~= views_of(fields@.drop_last()) + seq![fields@.last()@]);
    }
    fields
}

/// The lines of a text, as `lines_of` describes them.
pub fn text_lines(text: &Vec<char>) -> (r: Vec<Vec<char>>)
    ensures
        views_of(r@) == lines_of(text@),
{
    let ghost target = lines_of(text@);
    let mut raw = split_fields(text, '\n');
    proof {
        lemma_split_char_len(text@, '\n');
    }
    if text.len() > 0 && text[text.len() - 1] == '\n' {
        raw.pop();
    } else if text.len() == 0 {
        raw.pop();
    }
    proof {
        assert(raw@.len() == target.len());
        assert(forall|i: int|
            0 <= i < raw@.len() ==> strip_cr(#[trigger] raw@[i]@) == target[i]);
    }
    let mut out: Vec<Vec<char>> = Vec::new();
    while raw.len() > 0
        invariant
            out@.len() + raw@.len() == target.len(),
            forall|i: int| 0 <= i < out@.len() ==> #[trigger] out@[i]@ == target[i],
            forall|i: int|
                0 <= i < raw@.len() ==> strip_cr(#[trigger] raw@[i]@) == target[out@.len() + i],
        decreases raw@.len(),
    {
        let mut f = raw.remove(0);
        proof {
            assert(strip_cr(f@) == target[out@.len() as int]);
        }
        if f.len() > 0 {
            let last = f[f.len() - 1];
            if last == '\r' {
                f.pop();
            }
        }
        out.push(f);
    }
    proof {
        assert(views_of(out@) =~= target);
    }
    out
}

/// The trimmed form of `v`: leading and trailing whitespace removed.
pub fn trim_chars(v: &Vec<char>) -> (r: Vec<char>)
    ensures
        r@ == trim_of(v@),
{
    let n = v.len();
    let mut lo: usize = 0;
    while lo < n && is_space_exec(v[lo])
        invariant
            lo <= n,
            n == v@.len(),
            forall|j: int| 0 <= j < lo ==> is_space(v@[j]),
        decreases n - lo,
    {
        lo = lo + 1;
    }
    let mut hi: usize = n;
    while hi > lo && is_space_exec(v[hi - 1])
        invariant
            lo <= hi <= n,
            n == v@.len(),
            forall|j: int| 0 <= j < lo ==> is_space(v@[j]),
            lo < n ==> !is_space(v@[lo as int]),
            forall|j: int| hi <= j < n ==> is_space(v@[j]),
        decreases hi,
    {
        hi = hi - 1;
    }
    let mut r: Vec<char> = Vec::new();
    let mut i: usize = lo;
    while i < hi
        invariant
            lo <= i <= hi <= n,
            n == v@.len(),
            r@ == v@.subrange(lo as int, i as int),
        decreases hi - i,
    {
        r.push(v[i]);
        i = i + 1;
        proof {
            assert(r@ =~= v@.subrange(lo as int, i as int));
        }
    }
    proof {
        lemma_trim_start_at(v@, lo as int);
        lemma_trim_end_at(v@.skip(lo as int), hi - lo);
        assert(v@.skip(lo as int).take(hi - lo) =~= v@.subrange(lo as int, hi as int));
        assert(r@ =~= v@.subrange(lo as int, hi as int));
    }
    r
}

fn is_space_exec(c: char) -> (r: bool)
    ensures
        r == is_space(c),
{
    c == ' ' || c == '\t' || c == '\r' || c == '\n'
}

proof fn lemma_trim_start_at(s: Seq<char>, lo: int)
    requires
        0 <= lo <= s.len(),
        forall|j: int| 0 <= j < lo ==> is_space(s[j]),
        lo < s.len() ==> !is_space(s[lo]),
    ensures
        trim_start(s) == s.skip(lo),
    decreases lo,
{
    if lo == 0 {
        assert(s.skip(0) =~= s);
    } else {
        assert(is_space(s[0]));
        assert(s.len() > 0);
        lemma_trim_start_at(s.drop_first(), lo - 1);
        assert(s.drop_first().skip(lo - 1) =~= s.skip(lo));
    }
}

proof fn lemma_trim_end_at(s: Seq<char>, hi: int)
    requires
        0 <= hi <= s.len(),
        forall|j: int| hi <= j < s.len() ==> is_space(s[j]),
        hi > 0 ==> !is_space(s[hi - 1]),
    ensures
        trim_end(s) == s.take(hi),
    decreases s.len(),
{
    if hi == s.len() {
        if s.len() > 0 && is_space(s.last()) {
            assert(!is_space(s[hi - 1]));
            assert(false);
        }
        assert(s.take(hi) =~= s);
    } else {
        assert(is_space(s.last()));
        lemma_trim_end_at(s.drop_last(), hi);
        assert(s.drop_last().take(hi) =~= s.take(hi));
    }
}

} // verus!
