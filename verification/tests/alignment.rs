use align_rs::annmap::AnnMap;
use align_rs::msa::MSA;
use align_rs::record::Record;

#[test]
fn msa_new() {
    let records = vec![Record::new("id1", "ACGT"), Record::new("id2", "TGCA")];

    let mut annotations = AnnMap::new();
    let _ = annotations.set(String::from("author"), String::from("John Doe"));

    let mut column_annotations = AnnMap::new();
    let _ = column_annotations.set(String::from("1"), String::from("column 1"));

    let msa = MSA::new(
        records.clone(),
        annotations.clone(),
        column_annotations.clone(),
    );

    assert_eq!(msa.records, records);
    assert_eq!(msa.annotations, annotations);
    assert_eq!(msa.column_annotations, column_annotations);
}

#[test]
fn msa_len() {
    let records = vec![Record::new("id1", "ACGT"), Record::new("id2", "TGCA")];

    let msa = MSA::new(records.clone(), AnnMap::new(), AnnMap::new());
    assert_eq!(msa.len(), 2);
}

#[test]
fn msa_alignment_len() {
    let records = vec![Record::new("id1", "ACGT"), Record::new("id2", "TGCA")];

    let msa = MSA::new(records.clone(), AnnMap::new(), AnnMap::new());
    assert_eq!(msa.col_len(), 4);
}

#[test]
fn msa_push_valid_sequence() {
    let mut msa = MSA::default();
    msa.push_record("id1", "ACGT");
    assert_eq!(msa.len(), 1);
    assert_eq!(msa.records[0], Record::new("id1", "ACGT"));
}

#[test]
fn msa_push_extends_existing_record() {
    let mut msa = MSA::default();
    msa.push_record("id1", "ACGT");
    msa.push_record("id2", "TGCA");
    msa.push_record("id1", "GGGG");
    assert_eq!(msa.len(), 2);
    assert_eq!(msa.records[0].sequence(), "ACGTGGGG");
    assert_eq!(msa.records[1].sequence(), "TGCA");
}

#[test]
fn msa_contains_ids() {
    let mut msa = MSA::default();
    msa.push_record("id1", "ACGT");
    assert!(msa.contains("id1"));
    assert!(!msa.contains("id2"));
}

#[test]
fn msa_is_empty_and_clear() {
    let mut msa = MSA::default();
    assert!(msa.is_empty());
    msa.push_record("id1", "ACGT");
    let _ = msa.add_annotation(String::from("author"), String::from("someone"));
    msa.add_column_annotation("cons", "****");
    assert!(!msa.is_empty());
    msa.clear();
    assert!(msa.is_empty());
    assert_eq!(msa.len(), 0);
    assert_eq!(msa.col_len(), 0);
    assert_eq!(msa.get_annotation("author"), None);
    assert_eq!(msa.get_column_annotation("cons"), None);
}

#[test]
fn msa_annotation_upsert_returns_old_value() {
    let mut msa = MSA::default();
    assert_eq!(
        msa.add_annotation(String::from("author"), String::from("one")),
        None
    );
    assert_eq!(
        msa.add_annotation(String::from("author"), String::from("two")),
        Some(String::from("one"))
    );
    assert_eq!(msa.get_annotation("author").unwrap().as_str(), "two");
}

#[test]
fn msa_column_annotation_accumulates() {
    let mut msa = MSA::default();
    assert_eq!(msa.get_column_annotation("cons"), None);
    msa.add_column_annotation("cons", "ab");
    msa.add_column_annotation("cons", "cd");
    assert_eq!(msa.get_column_annotation("cons").unwrap().as_str(), "abcd");
}

#[test]
fn record_accessors() {
    let rec = Record::new("id1", "ACGT");
    assert_eq!(rec.id(), "id1");
    assert_eq!(rec.sequence(), "ACGT");
    assert_eq!(rec.len(), 4);
    assert!(!rec.is_empty());
    assert!(Record::new("", "").is_empty());
}

#[test]
fn record_push_seq_appends() {
    let mut rec = Record::new("id1", "ACGT");
    rec.push_seq("TTTT");
    assert_eq!(rec.sequence(), "ACGTTTTT");
    assert_eq!(rec.len(), 8);
}

#[test]
fn record_push_record_fills_then_appends() {
    let mut rec = Record::new("", "");
    rec.push_record("id1", "ACGT");
    assert_eq!(rec.id(), "id1");
    assert_eq!(rec.sequence(), "ACGT");
    rec.push_record("ignored", "TT");
    assert_eq!(rec.id(), "id1");
    assert_eq!(rec.sequence(), "ACGTTT");
}

#[test]
fn record_annotation_accumulates() {
    let mut rec = Record::new("id1", "ACGT");
    rec.push_annotation("quality", "9988");
    rec.push_annotation("quality", "7766");
    let mut other = Record::new("id1", "ACGT");
    other.push_annotation("quality", "99887766");
    assert_eq!(rec, other);
}

#[test]
fn msa_print_no_seqs() {
    let msa = MSA::default();
    assert_eq!(msa.display_string(), "No sequence in alignment");
}

#[test]
fn msa_print_one_seqs() {
    let mut msa = MSA::default();
    msa.push_record("id1", "ACG");
    assert_eq!(
        msa.display_string(),
        "Alignment with 1 row and 3 columns\nid1\tACG\n"
    );
}

#[test]
fn msa_print_truncates_long_sequences_and_many_records() {
    let mut msa = MSA::default();
    let long = "A".repeat(31);
    for i in 0..12 {
        msa.push_record(&format!("id{}", i), &long);
    }
    let shown = format!("id0\t{}...\n", "A".repeat(30));
    let text = msa.display_string();
    assert!(text.starts_with("Alignment with 12 rows and 31 columns\n"));
    assert!(text.contains(&shown));
    assert!(text.contains("id9\t"));
    assert!(!text.contains("id10\t"));
    assert!(text.ends_with("\n..."));
}
