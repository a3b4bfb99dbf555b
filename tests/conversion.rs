use gfa2fasta::{
    convert, is_dna, parse_gfa, parse_line, resolve_path, reverse_complement, write_record,
    GfaError, LineFault, Record,
};

fn lines(v: &[&str]) -> Vec<String> {
    v.iter().map(|l| l.to_string()).collect()
}

fn path_name(line: &str) -> String {
    match parse_line(line) {
        Ok(Record::Path { name, .. }) => name,
        _ => panic!("not a path"),
    }
}

#[test]
fn walk_name_with_coordinates() {
    assert_eq!(path_name("W\ta\t1\tchr1\t0\t10\t>s1"), "a#1#chr1:1-10");
}

#[test]
fn walk_name_without_coordinates() {
    assert_eq!(path_name("W\ta\t1\tchr1\t*\t10\t>s1"), "a#1#chr1");
    assert_eq!(path_name("W\ta\t1\tchr1\t5\t*\t>s1"), "a#1#chr1");
}

#[test]
fn walk_name_renders_start_without_leading_zeros() {
    assert_eq!(path_name("W\ts\th\tc\t0099\t200\t>x"), "s#h#c:100-200");
}

#[test]
fn walk_bad_offset() {
    assert!(matches!(parse_line("W\ta\t1\tchr1\tx\t10\t>s1"), Err(LineFault::BadOffset)));
    assert!(matches!(
        parse_line("W\ta\t1\tchr1\t18446744073709551615\t10\t>s1"),
        Err(LineFault::BadOffset)
    ));
}

#[test]
fn p_line_name_is_verbatim() {
    match parse_line("P\tp#1:x\ts1+,s2-\t*") {
        Ok(Record::Path { name, steps }) => {
            assert_eq!(name, "p#1:x");
            assert_eq!(steps, vec![("s1".to_string(), false), ("s2".to_string(), true)]);
        }
        _ => panic!("not a path"),
    }
}

#[test]
fn segment_line() {
    match parse_line("S\ts1\tACGTNacgtn") {
        Ok(Record::Segment { name, seq }) => {
            assert_eq!(name, "s1");
            assert_eq!(seq, "ACGTNacgtn");
        }
        _ => panic!("not a segment"),
    }
}

#[test]
fn line_faults() {
    assert!(matches!(parse_line("S\ts1\tATXG"), Err(LineFault::NonDnaSequence)));
    assert!(matches!(parse_line("S\ts1"), Err(LineFault::MissingField)));
    assert!(matches!(parse_line("L\ts1\t+\ts2\t-\t5M"), Err(LineFault::OverlappingLink)));
    assert!(matches!(parse_line("P\tp1\ts1*"), Err(LineFault::MalformedStep)));
    assert!(matches!(parse_line("W\ta\t1\tc\t*\t*\t>s1>"), Err(LineFault::MalformedStep)));
}

#[test]
fn links_without_overlap_and_other_records_are_ignored() {
    assert!(matches!(parse_line("L\ts1\t+\ts2\t-\t*"), Ok(Record::Ignored)));
    assert!(matches!(parse_line("L\ts1\t+\ts2\t-\t0M"), Ok(Record::Ignored)));
    assert!(matches!(parse_line("H\tVN:Z:1.2"), Ok(Record::Ignored)));
    assert!(matches!(parse_line(""), Ok(Record::Ignored)));
}

#[test]
fn dna_alphabet() {
    assert!(is_dna("ACGTNacgtn"));
    assert!(is_dna(""));
    assert!(!is_dna("ATXG"));
    assert!(!is_dna("ACGé"));
}

#[test]
fn reverse_complement_values() {
    assert_eq!(reverse_complement("GGAA"), "TTCC");
    assert_eq!(reverse_complement("NaCgT"), "AcGtN");
    assert_eq!(reverse_complement(""), "");
}

#[test]
fn reverse_complement_twice_is_identity() {
    for s in ["ATCGATCG", "TTTTTCCCCC", "acgtnNNA"] {
        assert_eq!(reverse_complement(&reverse_complement(s)), s);
    }
}

#[test]
fn resolution_keeps_step_order() {
    let segments = vec![
        ("s1".to_string(), "ATCG".to_string()),
        ("s2".to_string(), "GGAA".to_string()),
    ];
    let steps = vec![("s1".to_string(), false), ("s2".to_string(), true)];
    assert_eq!(resolve_path(&segments, &steps), Ok("ATCGTTCC".to_string()));
}

#[test]
fn later_segment_definition_wins() {
    let segments = vec![
        ("s1".to_string(), "AAAA".to_string()),
        ("s1".to_string(), "CCCC".to_string()),
    ];
    let steps = vec![("s1".to_string(), false)];
    assert_eq!(resolve_path(&segments, &steps), Ok("CCCC".to_string()));
}

#[test]
fn missing_segment_fails() {
    let input = lines(&["S\ts1\tATCG", "P\tp1\ts1+,s9-"]);
    assert_eq!(convert(&input), Err(GfaError::MissingSegment { name: "s9".to_string() }));
}

#[test]
fn non_dna_segment_fails_before_resolution() {
    let input = lines(&["S\ts1\tATXG", "P\tp1\ts9+"]);
    assert_eq!(
        convert(&input),
        Err(GfaError::Line { line: 1, fault: LineFault::NonDnaSequence })
    );
}

#[test]
fn overlapping_link_reports_its_line() {
    let input = lines(&["H\tVN:Z:1.2", "S\ts1\tA", "L\ts1\t+\ts1\t+\t3M"]);
    assert_eq!(
        parse_gfa(&input),
        Err(GfaError::Line { line: 3, fault: LineFault::OverlappingLink })
    );
}

#[test]
fn single_forward_path_end_to_end() {
    let input = lines(&["S\ts1\tATCG", "P\tp1\ts1+\t*"]);
    assert_eq!(convert(&input), Ok(">p1\nATCG\n".to_string()));
}

#[test]
fn both_syntaxes_end_to_end() {
    let input = lines(&[
        "H\tVN:Z:1.2",
        "S\ts1\tATCGATCG",
        "S\ts2\tTTTTTCCCCC",
        "L\ts1\t+\ts2\t-\t0M",
        "P\tp1\ts1+,s2-\t*",
        "W\ta\t1\tchr1\t0\t10\t>s1>s2<s1",
    ]);
    assert_eq!(
        convert(&input),
        Ok(">p1\nATCGATCGGGGGGAAAAA\n>a#1#chr1:1-10\nATCGATCGTTTTTCCCCCCGATCGAT\n".to_string())
    );
}

#[test]
fn empty_input_gives_no_records() {
    assert_eq!(convert(&Vec::new()), Ok(String::new()));
}

#[test]
fn record_layout() {
    let mut out = String::from("x");
    write_record(&mut out, "n", "AC");
    assert_eq!(out, "x>n\nAC\n");
}
