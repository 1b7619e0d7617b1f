use align_rs::reader::{ParseError, Reader};

fn lines(v: &[&str]) -> Vec<String> {
    v.iter().map(|s| String::from(*s)).collect()
}

#[test]
fn test_clustal() {
    let cons_str = "          * *: ::    :.   :*  :  :. : . :*  ::   .";
    let input = vec![
        String::from("CLUSTAL W (1.81) multiple sequence alignment"),
        String::from(""),
        format!("seq_one      {}", "A".repeat(50)),
        format!("seq_two      {}", "G".repeat(50)),
        format!("{}{}", " ".repeat(13), cons_str),
    ];
    let mut data = Reader::new(input);
    let msa = data.read_clustal().unwrap();
    assert_eq!(msa.get_annotation("program").unwrap().as_str(), "CLUSTAL");
    assert_eq!(msa.get_annotation("version").unwrap().as_str(), "1.81");
    assert_eq!(msa.len(), 2);
    let cons = msa.get_column_annotation("cons").unwrap();
    assert_eq!(
        &cons[..50],
        "          * *: ::    :.   :*  :  :. : . :*  ::   ."
    );
}

#[test]
fn header_rejection_is_independent_of_rest() {
    let mut r = Reader::new(lines(&["NOTCLUSTAL 1.0", "id1 ACGT"]));
    assert!(matches!(
        r.read_clustal(),
        Err(ParseError::UnrecognizedHeader(_))
    ));
    // the match is a case-sensitive prefix match
    let mut r = Reader::new(lines(&["clustal w", "id1 ACGT"]));
    assert!(matches!(
        r.read_clustal(),
        Err(ParseError::UnrecognizedHeader(_))
    ));
}

#[test]
fn empty_input_is_an_unrecognized_header() {
    let mut r = Reader::new(Vec::new());
    assert!(matches!(
        r.read_clustal(),
        Err(ParseError::UnrecognizedHeader(_))
    ));
}

#[test]
fn other_program_tokens_are_recognized() {
    let mut r = Reader::new(lines(&["MUSCLE (3.8.31) multiple sequence alignment"]));
    let msa = r.read_clustal().unwrap();
    assert_eq!(msa.get_annotation("program").unwrap().as_str(), "MUSCLE");
    assert_eq!(msa.get_annotation("version").unwrap().as_str(), "3.8.31");
    for header in ["PROBCONS version 1.12", "MSAPROBS 0.9.7", "Kalign (3.3)"] {
        let mut r = Reader::new(lines(&[header]));
        assert!(r.read_clustal().is_ok());
    }
}

#[test]
fn header_without_version_yields_no_version_entry() {
    let mut r = Reader::new(lines(&["CLUSTAL multiple sequence alignment"]));
    let msa = r.read_clustal().unwrap();
    assert_eq!(msa.get_annotation("program").unwrap().as_str(), "CLUSTAL");
    assert_eq!(msa.get_annotation("version"), None);
}

#[test]
fn consensus_slice_follows_the_fragment_window() {
    // marks sit under alignment columns 2 and 3 (0-indexed); the identifiers
    // of the two sequence lines have different lengths than the marks' line
    let mut r = Reader::new(lines(&[
        "CLUSTAL W (1.81)",
        "id1   ACGT",
        "id2   TGCA",
        "        **",
    ]));
    let msa = r.read_clustal().unwrap();
    assert_eq!(msa.get_column_annotation("cons").unwrap().as_str(), "  **");
}

#[test]
fn cross_block_stitching_concatenates_fragments() {
    let mut r = Reader::new(lines(&["CLUSTAL W (1.81)", "", "id1 ACGT", "", "id1 TTTT"]));
    let msa = r.read_clustal().unwrap();
    assert_eq!(msa.len(), 1);
    assert_eq!(msa.records[0].sequence(), "ACGTTTTT");
    assert_eq!(msa.col_len(), 8);
}

#[test]
fn parsed_alignment_upholds_the_invariants() {
    let mut r = Reader::new(lines(&[
        "CLUSTAL W (1.81)",
        "",
        "id1 ACGT",
        "id2 AAAA",
        "",
        "id1 TTTT",
        "id2 GGGG",
    ]));
    let msa = r.read_clustal().unwrap();
    assert_eq!(msa.len(), 2);
    assert_eq!(msa.col_len(), 8);
    for rec in &msa.records {
        assert_eq!(rec.len(), msa.col_len());
    }
    assert_eq!(msa.records[0].id(), "id1");
    assert_eq!(msa.records[1].id(), "id2");
    assert_eq!(msa.records[0].sequence(), "ACGTTTTT");
    assert_eq!(msa.records[1].sequence(), "AAAAGGGG");
}

#[test]
fn mismatched_fragment_width_is_rejected() {
    let mut r = Reader::new(lines(&[
        "CLUSTAL W (1.81)",
        "",
        "id1 ACGT",
        "id2 TGCA",
        "",
        "id1 TT",
        "id2 TGCA",
    ]));
    assert!(matches!(
        r.read_clustal(),
        Err(ParseError::LengthMismatch(_))
    ));
}

#[test]
fn record_missing_from_a_block_is_rejected() {
    let mut r = Reader::new(lines(&[
        "CLUSTAL W (1.81)",
        "",
        "id1 ACGT",
        "id2 TGCA",
        "",
        "id1 TTTT",
    ]));
    match r.read_clustal() {
        Err(ParseError::LengthMismatch(what)) => assert_eq!(what, "id2"),
        other => panic!("expected a length mismatch, got {:?}", other),
    }
}

#[test]
fn new_identifier_in_a_later_block_is_rejected() {
    let mut r = Reader::new(lines(&["CLUSTAL W (1.81)", "", "id1 ACGT", "", "id2 TGCA"]));
    assert!(matches!(
        r.read_clustal(),
        Err(ParseError::LengthMismatch(_))
    ));
}

#[test]
fn repeated_identifier_within_a_block_is_rejected() {
    let mut r = Reader::new(lines(&["CLUSTAL W (1.81)", "", "id1 ACGT", "id1 TGCA"]));
    match r.read_clustal() {
        Err(ParseError::DuplicateId(id)) => assert_eq!(id, "id1"),
        other => panic!("expected a duplicate identifier, got {:?}", other),
    }
}

#[test]
fn lines_without_two_fields_are_malformed() {
    let mut r = Reader::new(lines(&["CLUSTAL W (1.81)", "", "onlyanid"]));
    assert!(matches!(r.read_clustal(), Err(ParseError::MalformedLine(_))));
    let mut r = Reader::new(lines(&["CLUSTAL W (1.81)", "", "id1 ACGT extra"]));
    match r.read_clustal() {
        Err(ParseError::MalformedLine(line)) => assert_eq!(line, "id1 ACGT extra"),
        other => panic!("expected a malformed line, got {:?}", other),
    }
}

#[test]
fn short_consensus_line_is_rejected() {
    // the window is columns 4..8; the consensus line ends before it does
    let mut r = Reader::new(lines(&["CLUSTAL W (1.81)", "id1 ACGT", " *"]));
    match r.read_clustal() {
        Err(ParseError::MalformedLine(line)) => assert_eq!(line, " *"),
        other => panic!("expected a malformed line, got {:?}", other),
    }
}

#[test]
fn consensus_row_tracks_the_column_count() {
    let mut r = Reader::new(lines(&[
        "CLUSTAL W (1.81)",
        "",
        "id1 ACGT",
        "id2 TGCA",
        "    * .*",
        "",
        "id1 GGGG",
        "id2 CCCC",
        "    :  :",
    ]));
    let msa = r.read_clustal().unwrap();
    let cons = msa.get_column_annotation("cons").unwrap();
    assert_eq!(cons.as_str(), "* .*:  :");
    assert_eq!(cons.len(), msa.col_len());
}

#[test]
fn error_messages_carry_their_context() {
    let mut r = Reader::new(lines(&["nothing recognizable"]));
    assert_eq!(
        r.read_clustal().unwrap_err().describe(),
        "The header is not a recognised CLUSTAL header: CLUSTAL,PROBCONS,MUSCLE,MSAPROBS,Kalign"
    );
    let mut r = Reader::new(lines(&["CLUSTAL W (1.81)", "", "onlyanid"]));
    assert_eq!(
        r.read_clustal().unwrap_err().describe(),
        "the line does not split into an identifier and a fragment: onlyanid"
    );
    let mut r = Reader::new(lines(&["CLUSTAL W (1.81)", "", "id1 ACGT", "id1 TGCA"]));
    assert_eq!(
        r.read_clustal().unwrap_err().describe(),
        "duplicate sequence identifier: id1"
    );
    let mut r = Reader::new(lines(&[
        "CLUSTAL W (1.81)",
        "",
        "id1 ACGT",
        "id2 TGCA",
        "",
        "id1 TT",
        "id2 TGCA",
    ]));
    assert_eq!(
        r.read_clustal().unwrap_err().describe(),
        "fragment width inconsistent with the alignment: id2 TGCA"
    );
}

#[test]
fn tab_separated_fields_are_accepted() {
    let mut r = Reader::new(lines(&["CLUSTAL W (1.81)", "id1\tACGT"]));
    let msa = r.read_clustal().unwrap();
    assert_eq!(msa.records[0].id(), "id1");
    assert_eq!(msa.records[0].sequence(), "ACGT");
}

#[test]
fn blank_lines_alone_yield_an_empty_alignment() {
    let mut r = Reader::new(lines(&["CLUSTAL W (1.81)", "", ""]));
    let msa = r.read_clustal().unwrap();
    assert_eq!(msa.len(), 0);
    assert_eq!(msa.col_len(), 0);
}
