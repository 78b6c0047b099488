//! The input list of document identifiers: one identifier per line,
//! everything before the first comma, trimmed; empty identifiers are
//! skipped and duplicates are kept once, in first-seen order. The
//! first-seen order is maintained by an insertion-ordered hash set.
use vstd::prelude::*;

use crate::text::{
    chars_to_string, lemma_split_char_len, opt_views, split_char, split_fields, strings_view,
    to_chars, trim_chars, trim_of,
};
use linked_hash_set::LinkedHashSet;
use vstd::string::StringExecFns;

verus! {

#[verifier::external_type_specification]
#[verifier::external_body]
#[verifier::reject_recursive_types(T)]
#[verifier::reject_recursive_types(S)]
pub struct ExLinkedHashSet<T, S>(LinkedHashSet<T, S>);

/// The strings a set holds, in insertion order.
pub uninterp spec fn set_elems(s: LinkedHashSet<String>) -> Seq<Seq<char>>;

/// Relies on `linked_hash_set::LinkedHashSet::new`: creates an empty
/// set.
#[verifier::external_body]
fn set_new() -> (s: LinkedHashSet<String>)
    ensures
        set_elems(s) == Seq::<Seq<char>>::empty(),
{
    LinkedHashSet::new()
}

/// Relies on `linked_hash_set::LinkedHashSet::contains`: membership by
/// string equality.
#[verifier::external_body]
fn set_contains(s: &LinkedHashSet<String>, v: &String) -> (r: bool)
    ensures
        r == set_elems(*s).contains(v@),
{
    s.contains(v)
}

/// Relies on `linked_hash_set::LinkedHashSet::insert_if_absent`: an
/// absent value goes to the back and the existing order is kept.
#[verifier::external_body]
fn set_insert_absent(s: &mut LinkedHashSet<String>, v: String)
    requires
        !set_elems(*old(s)).contains(v@),
    ensures
        set_elems(*final(s)) == set_elems(*old(s)).push(v@),
{
    s.insert_if_absent(v);
}

/// The identifier a list line carries: everything before the first
/// comma, trimmed.
pub open spec fn identifier_of(line: Seq<char>) -> Seq<char> {
    trim_of(split_char(line, ',')[0])
}

/// The identifiers of the readable list lines, in order, duplicates
/// and all; an unreadable line or an empty identifier yields nothing.
pub open spec fn ids_of(lines: Seq<Option<Seq<char>>>) -> Seq<Seq<char>>
    decreases lines.len(),
{
    if lines.len() == 0 {
        Seq::empty()
    } else {
        let rest = ids_of(lines.drop_last());
        match lines.last() {
            None => rest,
            Some(l) => if identifier_of(l).len() > 0 {
                rest.push(identifier_of(l))
            } else {
                rest
            },
        }
    }
}

/// Each identifier once, in first-seen order.
pub open spec fn dedup_first(ids: Seq<Seq<char>>) -> Seq<Seq<char>>
    decreases ids.len(),
{
    if ids.len() == 0 {
        Seq::empty()
    } else {
        let rest = dedup_first(ids.drop_last());
        if rest.contains(ids.last()) {
            rest
        } else {
            rest.push(ids.last())
        }
    }
}

/// Deduplication keeps each identifier once and loses none: the
/// result is duplicate-free and holds exactly the identifiers of the
/// input.
pub proof fn lemma_dedup_first_props(ids: Seq<Seq<char>>)
    ensures
        forall|i: int, j: int|
            0 <= i < j < dedup_first(ids).len() ==> dedup_first(ids)[i] != dedup_first(ids)[j],
        forall|x: Seq<char>| dedup_first(ids).contains(x) <==> ids.contains(x),
    decreases ids.len(),
{
    if ids.len() == 0 {
    } else {
        let prev = ids.drop_last();
        let rest = dedup_first(prev);
        let d = dedup_first(ids);
        lemma_dedup_first_props(prev);
        assert forall|x: Seq<char>| #[trigger] d.contains(x) implies ids.contains(x) by {
            let i = choose|i: int| 0 <= i < d.len() && d[i] == x;
            if !rest.contains(ids.last()) && i == d.len() - 1 {
                assert(x == ids.last());
                assert(ids[ids.len() - 1] == x);
            } else {
                assert(rest[i] == x);
                assert(rest.contains(x));
                assert(prev.contains(x));
                let j = choose|j: int| 0 <= j < prev.len() && prev[j] == x;
                assert(ids[j] == x);
                assert(ids.contains(x));
            }
        }
        assert forall|x: Seq<char>| #[trigger] ids.contains(x) implies d.contains(x) by {
            let i = choose|i: int| 0 <= i < ids.len() && ids[i] == x;
            if i < ids.len() - 1 {
                assert(prev[i] == x);
                assert(prev.contains(x));
                assert(rest.contains(x));
                let j = choose|j: int| 0 <= j < rest.len() && rest[j] == x;
                assert(d[j] == x);
                assert(d.contains(x));
            } else {
                if rest.contains(ids.last()) {
                    let j = choose|j: int| 0 <= j < rest.len() && rest[j] == ids.last();
                    assert(d[j] == x);
                    assert(d.contains(x));
                } else {
                    assert(d[d.len() - 1] == x);
                    assert(d.contains(x));
                }
            }
        }
        if rest.contains(ids.last()) {
        } else {
            assert forall|i: int, j: int| 0 <= i < j < d.len() implies d[i] != d[j] by {
                if j < d.len() - 1 {
                    assert(d[i] == rest[i] && d[j] == rest[j]);
                } else {
                    assert(d[i] == rest[i]);
                    if rest[i] == ids.last() {
                        assert(rest.contains(ids.last()));
                        assert(false);
                    }
                }
            }
        }
    }
}

/// The identifier of one list line, or nothing when it is empty.
pub fn identifier_of_line(line: &str) -> (r: Option<String>)
    ensures
        identifier_of(line@).len() > 0 ==> (r matches Some(id) && id@ == identifier_of(line@)),
        identifier_of(line@).len() == 0 ==> r is None,
{
    let chars = to_chars(line);
    let mut fields = split_fields(&chars, ',');
    proof {
        lemma_split_char_len(line@, ',');
        assert(fields@[0]@ == split_char(line@, ',')[0]);
    }
    let first = fields.remove(0);
    let trimmed = trim_chars(&first);
    if trimmed.len() == 0 {
        None
    } else {
        Some(chars_to_string(&trimmed))
    }
}

/// The deduplicated identifiers of the readable list lines, in
/// first-seen order: a repeated identifier counts once.
pub fn identifiers_from_lines(lines: &Vec<Option<String>>) -> (r: Vec<String>)
    ensures
        strings_view(r@) == dedup_first(ids_of(opt_views(lines@))),
{
    let ghost lv = opt_views(lines@);
    let mut set = set_new();
    let mut out: Vec<String> = Vec::new();
    let n = lines.len();
    let mut k: usize = 0;
    proof {
        assert(ids_of(lv.take(0)) =~= Seq::<Seq<char>>::empty());
        assert(strings_view(out@) =~= Seq::<Seq<char>>::empty());
    }
    while k < n
        invariant
            k <= n,
            n == lines@.len(),
            lv == opt_views(lines@),
            set_elems(set) == strings_view(out@),
            strings_view(out@) == dedup_first(ids_of(lv.take(k as int))),
        decreases n - k,
    {
        let ghost ids_k = ids_of(lv.take(k as int));
        proof {
            assert(lv.take(k as int + 1).drop_last() =~= lv.take(k as int));
            assert(lv.take(k as int + 1).last() == lv[k as int]);
        }
        match &lines[k] {
            None => {
                proof {
                    assert(lv[k as int] is None);
                }
            },
            Some(line) => {
                proof {
                    assert(lv[k as int] == Some(line@));
                }
                match identifier_of_line(line.as_str()) {
                    None => {
                        proof {
                            assert(identifier_of(line@).len() == 0);
                            assert(ids_of(lv.take(k as int + 1)) == ids_k);
                        }
                    },
                    Some(id) => {
                        proof {
                            assert(id@ == identifier_of(line@));
                            assert(ids_of(lv.take(k as int + 1)) == ids_k.push(id@));
                            assert(ids_k.push(id@).drop_last() =~= ids_k);
                            assert(ids_k.push(id@).last() == id@);
                        }
                        if !set_contains(&set, &id) {
                            let copy = id.clone();
                            let ghost pre = out@;
                            out.push(copy);
                            set_insert_absent(&mut set, id);
                            proof {
                                assert(strings_view(pre).len() == pre.len());
                                assert(forall|j: int|
                                    0 <= j < pre.len() ==> out@[j] == pre[j]);
                                assert(strings_view(out@) =~= strings_view(pre).push(id@));
                            }
                        } else {
                            proof {
                                assert(dedup_first(ids_k.push(id@)) == dedup_first(ids_k));
                            }
                        }
                    },
                }
            },
        }
        k = k + 1;
    }
    proof {
        assert(lv.take(n as int) =~= lv);
    }
    out
}

/// The candidate frequency-file path for an identifier: the base
/// directory, a separator unless the base already ends in one or is
/// empty, the identifier, and the fixed suffix.
pub open spec fn path_of(base: Seq<char>, id: Seq<char>) -> Seq<char> {
    if base.len() == 0 {
        id + ".wf.csv"@
    } else if base.last() == '/' {
        base + id + ".wf.csv"@
    } else {
        base + "/"@ + id + ".wf.csv"@
    }
}

/// The candidate frequency-file path for an identifier.
pub fn wf_path(base: &str, id: &str) -> (r: String)
    ensures
        r@ == path_of(base@, id@),
{
    let mut r = base.to_owned();
    let n = base.unicode_len();
    if n > 0 {
        let c = base.get_char(n - 1);
        if c != '/' {
            r.append("/");
        }
    }
    r.append(id);
    r.append(".wf.csv");
    proof {
        assert(r@ =~= path_of(base@, id@));
    }
    r
}

} // verus!
