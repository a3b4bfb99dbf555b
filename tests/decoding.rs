use gfa2fasta::{parse_gfa, parse_p_path, parse_w_path};

fn steps(v: &[(&str, bool)]) -> Vec<(String, bool)> {
    v.iter().map(|(n, r)| (n.to_string(), *r)).collect()
}

#[test]
fn path() {
    let expected = vec![
        ("s1".to_string(), false),
        ("s2".to_string(), false),
        ("s3".to_string(), true),
        ("s4".to_string(), false),
    ];
    let path = parse_p_path("s1+,s2+,s3-,s4+");
    println!("{:?}", path);
    assert_eq!(path, Some(expected.clone()));

    let path = parse_w_path(">s1>s2<s3>s4");
    println!("{:?}", path);
    assert_eq!(path, Some(expected));
}

#[test]
fn gfa() {
    let s = vec![
        "H\tVN:Z:1.2",
        "S\ts1\tATCGATCG",
        "S\ts2\tTTTTTCCCCC",
        "L\ts1\t+\ts2\t-",
        "P\tp1\ts1+,s2-\t*",
        "W\ta\t1\tchr1\t0\t10\t>s1>s2<s1",
    ]
    .join("\n");
    let lines: Vec<String> = s.lines().map(|l| l.to_string()).collect();
    match parse_gfa(&lines) {
        Ok((segments, paths)) => {
            println!("segments = {:?}", segments);
            println!("paths = {:?}", paths);
        }
        Err(e) => println!("error = {:?}", e),
    }
}

#[test]
fn p_round_trip_single_steps() {
    assert_eq!(parse_p_path("ref+"), Some(steps(&[("ref", false)])));
    assert_eq!(parse_p_path("ref-"), Some(steps(&[("ref", true)])));
}

#[test]
fn p_names_split_on_last_character_only() {
    assert_eq!(parse_p_path("a+b-,12+"), Some(steps(&[("a+b", true), ("12", false)])));
}

#[test]
fn p_empty_tokens_are_skipped() {
    assert_eq!(parse_p_path(""), Some(vec![]));
    assert_eq!(parse_p_path("s1+,,s2-,"), Some(steps(&[("s1", false), ("s2", true)])));
}

#[test]
fn p_malformed_tokens() {
    assert_eq!(parse_p_path("+"), None);
    assert_eq!(parse_p_path("s1+,s2"), None);
    assert_eq!(parse_p_path("s1*"), None);
}

#[test]
fn w_markers_decode() {
    assert_eq!(
        parse_w_path(">a>b<c"),
        Some(steps(&[("a", false), ("b", false), ("c", true)]))
    );
}

#[test]
fn w_without_markers_is_empty() {
    assert_eq!(parse_w_path(""), Some(vec![]));
    assert_eq!(parse_w_path("abc"), Some(vec![]));
}

#[test]
fn w_text_before_first_marker_is_ignored() {
    assert_eq!(parse_w_path("xy>a"), Some(steps(&[("a", false)])));
}

#[test]
fn w_empty_names_are_malformed() {
    assert_eq!(parse_w_path(">a>"), None);
    assert_eq!(parse_w_path("><a"), None);
}

#[test]
fn w_numeric_and_multibyte_names() {
    assert_eq!(
        parse_w_path(">12<é3"),
        Some(steps(&[("12", false), ("é3", true)]))
    );
}
