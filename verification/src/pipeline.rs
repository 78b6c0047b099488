//! The whole aggregation pipeline, free of any file handling: each
//! resolved document arrives as its text, or as nothing where the file
//! is missing or unreadable, and the result is the finished output
//! text.
use vstd::prelude::*;

use crate::output::{output_text, render_output};
use crate::record::{doc_records, parse_document, records_view};
use crate::table::{merge_pairs, FrequencyTable};
use crate::text::opt_views;

verus! {

/// The table the documents build up, in order: each present document
/// merges its records, a missing one contributes nothing.
pub open spec fn table_of_docs(docs: Seq<Option<Seq<char>>>) -> Seq<(Seq<char>, nat)>
    decreases docs.len(),
{
    if docs.len() == 0 {
        Seq::empty()
    } else {
        let rest = table_of_docs(docs.drop_last());
        match docs.last() {
            None => rest,
            Some(t) => merge_pairs(rest, doc_records(t)),
        }
    }
}

/// A missing document leaves the table exactly as it was, wherever it
/// stands in the list.
pub proof fn lemma_missing_document_ignored(docs: Seq<Option<Seq<char>>>, i: int)
    requires
        0 <= i <= docs.len(),
    ensures
        table_of_docs(docs.insert(i, None)) == table_of_docs(docs),
    decreases docs.len(),
{
    let d2 = docs.insert(i, None);
    if i == docs.len() {
        assert(d2.drop_last() =~= docs);
        assert(d2.last() is None);
    } else {
        assert(d2.last() == docs.last());
        assert(d2.drop_last() =~= docs.drop_last().insert(i, None));
        lemma_missing_document_ignored(docs.drop_last(), i);
    }
}

/// The aggregate table of the documents, in order.
pub fn aggregate_documents(docs: &Vec<Option<String>>) -> (t: FrequencyTable)
    ensures
        t@ == table_of_docs(opt_views(docs@)),
        t.inv(),
{
    let ghost dv = opt_views(docs@);
    let mut t = FrequencyTable::new();
    let n = docs.len();
    let mut k: usize = 0;
    proof {
        assert(table_of_docs(dv.take(0)) =~= Seq::<(Seq<char>, nat)>::empty());
    }
    while k < n
        invariant
            k <= n,
            n == docs@.len(),
            dv == opt_views(docs@),
            t@ == table_of_docs(dv.take(k as int)),
            t.inv(),
        decreases n - k,
    {
        proof {
            assert(dv.take(k as int + 1).drop_last() =~= dv.take(k as int));
            assert(dv.take(k as int + 1).last() == dv[k as int]);
        }
        match &docs[k] {
            None => {
                proof {
                    assert(dv[k as int] is None);
                }
            },
            Some(text) => {
                proof {
                    assert(dv[k as int] == Some(text@));
                }
                let recs = parse_document(text.as_str());
                t.merge(&recs);
                proof {
                    assert(records_view(recs@) == doc_records(text@));
                }
            },
        }
        k = k + 1;
    }
    proof {
        assert(dv.take(n as int) =~= dv);
    }
    t
}

/// The finished output for the documents: the header, then every
/// word's total across all of them, sorted by descending total.
pub fn aggregate_output(docs: &Vec<Option<String>>) -> (r: String)
    ensures
        r@ == output_text(table_of_docs(opt_views(docs@))),
{
    let t = aggregate_documents(docs);
    render_output(&t)
}

} // verus!
