//! Frequency records and the per-document table format: rows of
//! exactly two comma-separated fields, a word and a non-negative count,
//! with no header. Malformed rows are reported, never fatal.
use vstd::prelude::*;

use crate::numeric::{count_val, is_count_text};
use crate::text::{chars_to_string, lines_of, split_char, split_fields, text_lines, to_chars};

verus! {

/// One (word, count) pair.
pub struct Record {
    pub word: String,
    pub count: usize,
}

impl View for Record {
    type V = (Seq<char>, nat);

    open spec fn view(&self) -> (Seq<char>, nat) {
        (self.word@, self.count as nat)
    }
}

/// Why a row was skipped.
#[derive(Clone, Copy, PartialEq, Eq, Structural, Debug)]
pub enum RowError {
    /// The row does not have exactly two fields.
    WrongFieldCount,
    /// The second field is not a count that fits.
    BadCount,
}

/// The views of a vector of records.
pub open spec fn records_view(s: Seq<Record>) -> Seq<(Seq<char>, nat)> {
    Seq::new(s.len(), |i: int| s[i]@)
}

/// The comma-separated fields of a row.
pub open spec fn row_fields(line: Seq<char>) -> Seq<Seq<char>> {
    split_char(line, ',')
}

/// What one row yields: its pair, or the reason it is skipped.
pub open spec fn line_outcome(line: Seq<char>) -> Result<(Seq<char>, nat), RowError> {
    let fields = row_fields(line);
    if fields.len() != 2 {
        Err(RowError::WrongFieldCount)
    } else if !is_count_text(fields[1]) {
        Err(RowError::BadCount)
    } else {
        Ok((fields[0], count_val(fields[1])))
    }
}

/// The outcome of every row of a document, in order; an empty line is
/// no row at all.
pub open spec fn outcomes_of_lines(ls: Seq<Seq<char>>) -> Seq<
    Result<(Seq<char>, nat), RowError>,
>
    decreases ls.len(),
{
    if ls.len() == 0 {
        Seq::empty()
    } else {
        let rest = outcomes_of_lines(ls.drop_last());
        if ls.last().len() == 0 {
            rest
        } else {
            rest.push(line_outcome(ls.last()))
        }
    }
}

/// The pairs of the well-formed rows, in order.
pub open spec fn records_of_outcomes(os: Seq<Result<(Seq<char>, nat), RowError>>) -> Seq<
    (Seq<char>, nat),
>
    decreases os.len(),
{
    if os.len() == 0 {
        Seq::empty()
    } else {
        let rest = records_of_outcomes(os.drop_last());
        match os.last() {
            Ok(p) => rest.push(p),
            Err(_) => rest,
        }
    }
}

/// The pairs a document text yields: its well-formed rows, in order.
pub open spec fn doc_records(text: Seq<char>) -> Seq<(Seq<char>, nat)> {
    records_of_outcomes(outcomes_of_lines(lines_of(text)))
}

/// The model of a parsed row.
pub open spec fn row_result_view(r: Result<Record, RowError>) -> Result<
    (Seq<char>, nat),
    RowError,
> {
    match r {
        Ok(rec) => Ok(rec@),
        Err(e) => Err(e),
    }
}

/// Parse one row: exactly two fields, the second a well-formed count.
pub fn parse_row(line: &Vec<char>) -> (r: Result<Record, RowError>)
    ensures
        row_result_view(r) == line_outcome(line@),
{
    let mut fields = split_fields(line, ',');
    if fields.len() != 2 {
        return Err(RowError::WrongFieldCount);
    }
    let count_field = fields.pop().unwrap();
    let word_field = fields.pop().unwrap();
    proof {
        assert(word_field@ == row_fields(line@)[0]);
        assert(count_field@ == row_fields(line@)[1]);
    }
    match crate::numeric::parse_count(&count_field) {
        None => Err(RowError::BadCount),
        Some(count) => {
            let word = chars_to_string(&word_field);
            Ok(Record { word, count })
        },
    }
}

/// The outcome of each row of a document: the pair of a well-formed
/// row, or why the row is skipped. Empty lines yield nothing.
pub fn parse_rows(text: &str) -> (rows: Vec<Result<Record, RowError>>)
    ensures
        rows@.len() == outcomes_of_lines(lines_of(text@)).len(),
        forall|i: int|
            0 <= i < rows@.len() ==> row_result_view(#[trigger] rows@[i]) == outcomes_of_lines(
                lines_of(text@),
            )[i],
{
    let chars = to_chars(text);
    let lines = text_lines(&chars);
    let ghost ls = lines_of(text@);
    let mut rows: Vec<Result<Record, RowError>> = Vec::new();
    let mut k: usize = 0;
    proof {
        assert(outcomes_of_lines(ls.take(0)) =~= Seq::empty());
    }
    while k < lines.len()
        invariant
            k <= lines@.len(),
            crate::text::views_of(lines@) == ls,
            rows@.len() == outcomes_of_lines(ls.take(k as int)).len(),
            forall|i: int|
                0 <= i < rows@.len() ==> row_result_view(#[trigger] rows@[i]) == outcomes_of_lines(
                    ls.take(k as int),
                )[i],
        decreases lines@.len() - k,
    {
        proof {
            assert(ls.take(k as int + 1).drop_last() =~= ls.take(k as int));
            assert(ls.take(k as int + 1).last() == lines@[k as int]@);
        }
        let line = &lines[k];
        if line.len() > 0 {
            let r = parse_row(line);
            rows.push(r);
        }
        k = k + 1;
    }
    proof {
        assert(ls.take(ls.len() as int) =~= ls);
    }
    rows
}

/// The records of a document text: the pair of every well-formed row,
/// in order. Malformed rows and empty lines yield nothing.
pub fn parse_document(text: &str) -> (recs: Vec<Record>)
    ensures
        records_view(recs@) == doc_records(text@),
{
    let rows = parse_rows(text);
    let ghost os = outcomes_of_lines(lines_of(text@));
    let mut recs: Vec<Record> = Vec::new();
    let mut k: usize = 0;
    proof {
        assert(records_of_outcomes(os.take(0)) =~= Seq::empty());
        assert(records_view(recs@) =~= Seq::empty());
    }
    let n = rows.len();
    let mut rows = rows;
    let ghost rs = rows@;
    while k < n
        invariant
            k <= n,
            n == rows@.len(),
            rows@ == rs,
            os.len() == n,
            forall|i: int| 0 <= i < n ==> row_result_view(#[trigger] rs[i]) == os[i],
            records_view(recs@) == records_of_outcomes(os.take(k as int)),
        decreases n - k,
    {
        proof {
            assert(os.take(k as int + 1).drop_last() =~= os.take(k as int));
            assert(os.take(k as int + 1).last() == os[k as int]);
        }
        let ghost recs_old = recs@;
        match &rows[k] {
            Ok(rec) => {
                let copy = Record { word: rec.word.clone(), count: rec.count };
                proof {
                    assert(copy@ == rs[k as int]->Ok_0@);
                }
                recs.push(copy);
                proof {
                    assert(records_view(recs@) =~= records_view(recs_old).push(
                        os[k as int]->Ok_0,
                    ));
                }
            },
            Err(_) => {},
        }
        k = k + 1;
    }
    proof {
        assert(os.take(os.len() as int) =~= os);
    }
    recs
}

} // verus!
