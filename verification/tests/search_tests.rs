use syntext::references::{
    keep_exact, reference_patterns, resolve_names, unique_lines,
};
use syntext::search::{FileMatches, SearchMatch, SearchOptions};
use std::sync::Arc;

#[test]
fn options_start_open() {
    let o = SearchOptions::default();
    assert!(o.path_filter.is_none());
    assert!(o.file_types.is_empty());
    assert!(!o.case_insensitive);
    assert!(o.max_results.is_none());
}

fn found(path: &str, line_number: u32, line: &str) -> SearchMatch {
    SearchMatch {
        path: path.as_bytes().to_vec(),
        line_number,
        line_content: line.as_bytes().to_vec(),
        byte_offset: 0,
        submatch_start: 0,
        submatch_end: line.len(),
    }
}

fn in_text(text: &[u8]) -> FileMatches {
    FileMatches::new(b"a.txt".to_vec(), vec![found("a.txt", 1, "x")], Arc::new(text.to_vec()))
}

fn lines(text: &[u8]) -> Vec<(u32, Vec<u8>)> {
    in_text(text).lines().into_iter().map(|(n, l)| (n, l.to_vec())).collect()
}

#[test]
fn lines_are_numbered_and_without_their_ends() {
    assert_eq!(
        lines(b"one\ntwo\r\n\nfour"),
        vec![
            (1, b"one".to_vec()),
            (2, b"two".to_vec()),
            (3, b"".to_vec()),
            (4, b"four".to_vec())
        ]
    );
    assert!(lines(b"").is_empty());
    assert_eq!(lines(b"\n"), vec![(1, b"".to_vec())]);
    assert_eq!(lines(b"a\r"), vec![(1, b"a\r".to_vec())]);
    assert_eq!(lines(b"a\n"), vec![(1, b"a".to_vec())]);
}

#[test]
fn context_is_cut_at_both_ends() {
    let f = in_text(b"1\n2\n3\n4\n5\n");
    let around = |n: u32, b: usize, a: usize| -> Vec<(u32, bool)> {
        f.context(n, b, a).into_iter().map(|(n, _, hit)| (n, hit)).collect()
    };
    assert_eq!(around(3, 1, 1), vec![(2, false), (3, true), (4, false)]);
    assert_eq!(around(1, 2, 0), vec![(1, true)]);
    assert_eq!(around(5, 0, usize::MAX), vec![(5, true)]);
    assert_eq!(around(0, 0, 1), vec![(1, false)]);
    assert!(around(9, 1, 1).is_empty());
    assert_eq!(f.context(2, 0, 0)[0].1, b"2");
}

fn strings(v: &[&str]) -> Vec<String> {
    v.iter().map(|s| s.to_string()).collect()
}

#[test]
fn names_are_kept_by_their_lower_case_form() {
    let names = strings(&["Parse", "parse_query", "parse", "Parse"]);
    let lowered = strings(&["parse", "parse_query", "parse", "parse"]);
    assert_eq!(keep_exact(&names, &lowered, &"parse".to_string()), vec!["Parse", "parse"]);
    assert!(keep_exact(&names, &lowered, &"PARSE".to_string()).is_empty());
}

#[test]
fn definitions_resolve_whatever_their_case() {
    let defs = vec![
        found("a.rs", 1, "parse_query"),
        found("a.rs", 2, "parse"),
        found("b.rs", 3, "PARSE"),
        found("b.rs", 4, "Stra\u{DF}e"),
    ];
    assert_eq!(resolve_names("Parse", &defs), vec!["PARSE", "parse"]);
    assert_eq!(resolve_names("STRA\u{DF}E", &defs), vec!["Stra\u{DF}e"]);
    assert!(resolve_names("par", &defs).is_empty());
    let bytes = vec![SearchMatch { line_content: vec![b'A', 0xFF], ..found("c", 1, "") }];
    assert_eq!(resolve_names("a\u{FFFD}", &bytes), vec!["A\u{FFFD}"]);
}

#[test]
fn patterns_match_the_names_literally() {
    assert!(reference_patterns(&Vec::new()).is_none());
    let p = reference_patterns(&strings(&["a.b", "c-d"])).unwrap();
    assert_eq!(p.routing, "(?:a\\.b|c\\-d)");
    assert_eq!(p.verify, "\\b(?:a\\.b|c\\-d)\\b");
    let re = regex::Regex::new(&p.verify).unwrap();
    assert!(re.is_match("x a.b y"));
    assert!(!re.is_match("axb"));
}

#[test]
fn every_special_character_is_escaped() {
    let all = "\\.+*?()|[]{}^$#&-~%/!e";
    let p = reference_patterns(&strings(&[all])).unwrap();
    assert_eq!(p.routing, format!("(?:{})", regex::escape(all)));
    assert_eq!(
        p.routing,
        "(?:\\\\\\.\\+\\*\\?\\(\\)\\|\\[\\]\\{\\}\\^\\$\\#\\&\\-\\~%/!e)"
    );
}

#[test]
fn a_line_is_reported_once() {
    let out = unique_lines(vec![
        found("b.rs", 1, "x"),
        found("a.rs", 9, "x"),
        found("a.rs", 2, "x"),
        found("a.rs", 9, "y"),
        found("a/z", 1, "x"),
    ]);
    let places: Vec<(Vec<u8>, u32)> =
        out.iter().map(|m| (m.path.clone(), m.line_number)).collect();
    assert_eq!(
        places,
        vec![
            (b"a.rs".to_vec(), 2),
            (b"a.rs".to_vec(), 9),
            (b"a/z".to_vec(), 1),
            (b"b.rs".to_vec(), 1)
        ]
    );
}

#[test]
fn a_line_is_reported_once_however_its_path_is_written() {
    let out = unique_lines(vec![
        found("a/b", 1, "x"),
        found("a/b", 2, "x"),
        found("a//b", 1, "x"),
        found("ab", 1, "x"),
    ]);
    let places: Vec<(Vec<u8>, u32)> =
        out.iter().map(|m| (m.path.clone(), m.line_number)).collect();
    assert_eq!(
        places,
        vec![(b"a//b".to_vec(), 1), (b"a/b".to_vec(), 2), (b"ab".to_vec(), 1)]
    );
}

#[test]
fn context_is_the_lines_around() {
    let f = in_text(b"a\nb\nc\nd\n");
    let lines = f.lines();
    for n in 0..6u32 {
        for before in 0..4usize {
            for after in 0..4usize {
                let want: Vec<(u32, &[u8], bool)> = lines
                    .iter()
                    .filter(|l| l.0 as usize + before >= n as usize && l.0 as usize <= n as usize + after)
                    .map(|l| (l.0, l.1, l.0 == n))
                    .collect();
                assert_eq!(f.context(n, before, after), want);
            }
        }
    }
}
