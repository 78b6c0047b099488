//! Rendering the aggregate table as comma-separated text: the exact
//! header, then one row per word in descending count order, each row
//! holding the word, its total, and its length in Unicode scalar
//! values.
use vstd::prelude::*;

use crate::numeric::{dec_chars, dec_digits};
use crate::record::records_view;
use crate::sort::{sort_desc, sort_records};
use crate::table::FrequencyTable;
use crate::text::chars_to_string;
use vstd::string::StringExecFns;

verus! {

/// The header row, reproduced verbatim.
pub open spec fn header_text() -> Seq<char> {
    "P\u{101}li,Frequency,Length\n"@
}

/// One output row: word, total, and word length, comma-separated.
pub open spec fn row_text(w: Seq<char>, c: nat) -> Seq<char> {
    w + ","@ + dec_digits(c) + ","@ + dec_digits(w.len() as nat) + "\n"@
}

/// The rows for the given entries, in order.
pub open spec fn rows_text(s: Seq<(Seq<char>, nat)>) -> Seq<char>
    decreases s.len(),
{
    if s.len() == 0 {
        Seq::empty()
    } else {
        rows_text(s.drop_last()) + row_text(s.last().0, s.last().1)
    }
}

/// The whole output: the header, then the entries sorted by
/// descending count.
pub open spec fn output_text(s: Seq<(Seq<char>, nat)>) -> Seq<char> {
    header_text() + rows_text(sort_desc(s))
}

/// One rendered row.
pub fn render_row(word: &str, count: usize) -> (r: String)
    ensures
        r@ == row_text(word@, count as nat),
{
    let mut r = word.to_owned();
    r.append(",");
    let count_digits = chars_to_string(&dec_chars(count));
    r.append(count_digits.as_str());
    r.append(",");
    let length = crate::string_length(word);
    let length_digits = chars_to_string(&dec_chars(length));
    r.append(length_digits.as_str());
    r.append("\n");
    proof {
        assert(r@ =~= row_text(word@, count as nat));
    }
    r
}

/// The whole output for a table: the verbatim header, then one row
/// per word, sorted by descending total; words with equal totals keep
/// their first-seen order.
pub fn render_output(table: &FrequencyTable) -> (r: String)
    ensures
        r@ == output_text(table@),
{
    let entries = table.entries_list();
    let sorted = sort_records(&entries);
    let ghost sv = records_view(sorted@);
    proof {
        assert(sv == sort_desc(table@));
    }
    let mut r = String::new();
    r.append("P\u{101}li,Frequency,Length\n");
    proof {
        assert(r@ =~= header_text());
        assert(rows_text(sv.take(0)) =~= Seq::<char>::empty());
        assert(r@ =~= header_text() + rows_text(sv.take(0)));
    }
    let n = sorted.len();
    let mut k: usize = 0;
    while k < n
        invariant
            k <= n,
            n == sorted@.len(),
            sv == records_view(sorted@),
            r@ == header_text() + rows_text(sv.take(k as int)),
        decreases n - k,
    {
        let rec = &sorted[k];
        let row = render_row(rec.word.as_str(), rec.count);
        r.append(row.as_str());
        k = k + 1;
        proof {
            assert(sv.take(k as int).drop_last() =~= sv.take(k as int - 1));
            assert(sv.take(k as int).last() == sv[k as int - 1]);
            assert(sv[k as int - 1] == sorted@[k as int - 1]@);
            assert(rows_text(sv.take(k as int)) == rows_text(sv.take(k as int - 1)) + row_text(
                sv[k as int - 1].0,
                sv[k as int - 1].1,
            ));
            assert(r@ =~= header_text() + rows_text(sv.take(k as int)));
        }
    }
    proof {
        assert(sv.take(n as int) =~= sv);
    }
    r
}

} // verus!
