use wf_tools::idlist::{identifiers_from_lines, identifier_of_line, wf_path};
use wf_tools::pipeline::{aggregate_documents, aggregate_output};
use wf_tools::record::{parse_document, parse_rows, RowError};
use wf_tools::string_length;

#[test]
fn end_to_end_scenario() {
    let docs = vec![
        Some("the,5\ncat,3".to_string()),
        Some("the,2\ndog,1".to_string()),
    ];
    let out = aggregate_output(&docs);
    assert_eq!(out, "P\u{101}li,Frequency,Length\nthe,7,3\ncat,3,3\ndog,1,3\n");
}

#[test]
fn missing_file_contributes_nothing() {
    let with_gap = vec![
        Some("the,5\ncat,3".to_string()),
        None,
        Some("the,2\ndog,1".to_string()),
    ];
    let without = vec![
        Some("the,5\ncat,3".to_string()),
        Some("the,2\ndog,1".to_string()),
    ];
    assert_eq!(aggregate_output(&with_gap), aggregate_output(&without));
    let t = aggregate_documents(&vec![None, None]);
    assert_eq!(t.len(), 0);
}

#[test]
fn malformed_row_is_skipped() {
    let recs = parse_document("the,5\nbad,1,2\ncat,3");
    assert_eq!(recs.len(), 2);
    assert_eq!(recs[0].word, "the");
    assert_eq!(recs[0].count, 5);
    assert_eq!(recs[1].word, "cat");
    assert_eq!(recs[1].count, 3);
}

#[test]
fn row_errors_name_their_cause() {
    let rows = parse_rows("one\nw,x\nw,-1\nw, 3\nok,4\nw,5,6");
    assert_eq!(rows.len(), 6);
    assert!(matches!(rows[0], Err(RowError::WrongFieldCount)));
    assert!(matches!(rows[1], Err(RowError::BadCount)));
    assert!(matches!(rows[2], Err(RowError::BadCount)));
    assert!(matches!(rows[3], Err(RowError::BadCount)));
    assert!(rows[4].is_ok());
    assert!(matches!(rows[5], Err(RowError::WrongFieldCount)));
}

#[test]
fn count_field_accepts_a_leading_plus() {
    let recs = parse_document("w,+12");
    assert_eq!(recs.len(), 1);
    assert_eq!(recs[0].count, 12);
}

#[test]
fn count_field_rejects_overflow() {
    let recs = parse_document("w,99999999999999999999999999999999");
    assert_eq!(recs.len(), 0);
}

#[test]
fn empty_lines_and_crlf_are_tolerated() {
    let recs = parse_document("the,5\r\n\r\n\ncat,3\r\n");
    assert_eq!(recs.len(), 2);
    assert_eq!(recs[0].word, "the");
    assert_eq!(recs[1].word, "cat");
}

#[test]
fn duplicate_identifiers_count_once() {
    let lines = vec![
        Some("doc1".to_string()),
        Some("doc2,extra".to_string()),
        Some("doc1".to_string()),
        None,
        Some("   ".to_string()),
    ];
    let ids = identifiers_from_lines(&lines);
    assert_eq!(ids, vec!["doc1".to_string(), "doc2".to_string()]);
}

#[test]
fn identifier_is_first_field_trimmed() {
    assert_eq!(identifier_of_line(" doc1 ,a,b"), Some("doc1".to_string()));
    assert_eq!(identifier_of_line("doc2"), Some("doc2".to_string()));
    assert_eq!(identifier_of_line("  ,x"), None);
    assert_eq!(identifier_of_line(""), None);
}

#[test]
fn paths_are_resolved_under_the_base_directory() {
    assert_eq!(wf_path("base", "doc1"), "base/doc1.wf.csv");
    assert_eq!(wf_path("base/", "doc1"), "base/doc1.wf.csv");
    assert_eq!(wf_path("", "doc1"), "doc1.wf.csv");
}

#[test]
fn length_column_counts_scalar_values() {
    let word = "p\u{101}\u{1e37}in";
    assert_eq!(word.len(), 8);
    assert_eq!(string_length(word), 5);
    let doc = format!("{},2", word);
    let out = aggregate_output(&vec![Some(doc)]);
    let expected = format!("P\u{101}li,Frequency,Length\n{},2,5\n", word);
    assert_eq!(out, expected);
}

#[test]
fn equal_counts_keep_first_seen_order() {
    let docs = vec![Some("b,2\na,2\nc,9".to_string())];
    let out = aggregate_output(&docs);
    assert_eq!(out, "P\u{101}li,Frequency,Length\nc,9,1\nb,2,1\na,2,1\n");
}

#[test]
fn zero_counts_are_accepted() {
    let recs = parse_document("w,0");
    assert_eq!(recs.len(), 1);
    assert_eq!(recs[0].count, 0);
}
