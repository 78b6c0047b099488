use wf_tools::record::Record;
use wf_tools::table::FrequencyTable;

fn rec(word: &str, count: usize) -> Record {
    Record { word: word.to_string(), count }
}

#[test]
fn test_merge_records_into_hash_map_no_records() {
    let mut hm = FrequencyTable::new();
    hm.merge(&vec![rec("a", 10usize)]);

    hm.merge(&vec![]);

    assert_eq!(hm.len(), 1);
    assert_eq!(hm.get("a"), Some(10));
}

#[test]
fn test_merge_records_into_hash_map_new_record() {
    let mut hm = FrequencyTable::new();
    hm.merge(&vec![rec("a", 10usize)]);

    hm.merge(&vec![rec("b", 11usize)]);

    assert_eq!(hm.len(), 2);
    assert_eq!(hm.get("a"), Some(10));
    assert_eq!(hm.get("b"), Some(11));
}

#[test]
fn test_merge_records_into_hash_map_overlapping_record() {
    let mut hm = FrequencyTable::new();
    hm.merge(&vec![rec("a", 10usize)]);
    hm.merge(&vec![rec("b", 11usize)]);

    hm.merge(&vec![rec("a", 9usize)]);

    assert_eq!(hm.len(), 2);
    assert_eq!(hm.get("a"), Some(19));
    assert_eq!(hm.get("b"), Some(11));
}

#[test]
fn merge_order_does_not_change_totals() {
    let xs = vec![rec("a", 1), rec("b", 2), rec("a", 4)];
    let ys = vec![rec("b", 3), rec("c", 4)];

    let mut t1 = FrequencyTable::new();
    t1.merge(&xs);
    t1.merge(&ys);

    let mut t2 = FrequencyTable::new();
    t2.merge(&ys);
    t2.merge(&xs);

    for w in ["a", "b", "c", "d"] {
        assert_eq!(t1.get(w), t2.get(w));
    }
    assert_eq!(t1.get("a"), Some(5));
    assert_eq!(t1.get("b"), Some(5));
    assert_eq!(t1.get("c"), Some(4));
    assert_eq!(t1.get("d"), None);
    assert_eq!(t1.len(), t2.len());
}

#[test]
fn merging_nothing_is_idempotent() {
    let mut t = FrequencyTable::new();
    t.merge(&vec![rec("x", 7), rec("y", 1)]);
    let before: Vec<(String, usize)> =
        t.entries_list().iter().map(|r| (r.word.clone(), r.count)).collect();

    t.merge(&vec![]);

    let after: Vec<(String, usize)> =
        t.entries_list().iter().map(|r| (r.word.clone(), r.count)).collect();
    assert_eq!(before, after);
}

#[test]
fn duplicate_words_in_one_document_accumulate() {
    let mut t = FrequencyTable::new();
    t.merge(&vec![rec("w", 2), rec("w", 3), rec("v", 1)]);
    assert_eq!(t.len(), 2);
    assert_eq!(t.get("w"), Some(5));
    assert_eq!(t.get("v"), Some(1));
}

#[test]
fn counts_saturate_instead_of_overflowing() {
    let mut t = FrequencyTable::new();
    t.merge(&vec![rec("w", usize::MAX - 1), rec("w", 5)]);
    assert_eq!(t.get("w"), Some(usize::MAX));
}
