use kyoupro_bench::cases::{
    filter_by_extension, load_cases, name_has_extension, path_join, Case, CaseSource,
};
use kyoupro_bench::text::{str_lex_le, trim_str};

fn source(path: &str, expected: Option<&str>) -> CaseSource {
    CaseSource {
        input_path: String::from(path),
        expected_raw: expected.map(String::from),
    }
}

#[test]
fn trim_matches_std() {
    let samples = [
        "",
        "3",
        "3\n",
        " 3 ",
        "\t a b \r\n",
        "\u{3000}wide\u{2028}",
        "\u{00A0}nbsp\u{00A0}",
        "   ",
        "inner space kept",
    ];
    for s in samples {
        assert_eq!(trim_str(s), s.trim(), "trim differs on {:?}", s);
    }
}

#[test]
fn lexicographic_order_on_paths() {
    assert!(str_lex_le("a", "b"));
    assert!(!str_lex_le("b", "a"));
    assert!(str_lex_le("a", "a"));
    assert!(str_lex_le("a", "ab"));
    assert!(!str_lex_le("ab", "a"));
    assert!(str_lex_le("", "a"));
    assert!(str_lex_le("in/1.txt", "in/2.txt"));
}

#[test]
fn extension_matching() {
    assert!(name_has_extension("a.txt", "txt"));
    assert!(name_has_extension("archive.tar.gz", "gz"));
    assert!(!name_has_extension("archive.tar.gz", "tar.gz"));
    assert!(!name_has_extension(".txt", "txt"));
    assert!(!name_has_extension("txt", "txt"));
    assert!(!name_has_extension("a.exe", "txt"));
    assert!(!name_has_extension("", "txt"));
}

#[test]
fn filter_keeps_matching_names_in_order() {
    let names = vec![
        String::from("b.txt"),
        String::from("run.exe"),
        String::from("a.txt"),
        String::from("notes"),
    ];
    let kept = filter_by_extension(names, "txt");
    assert_eq!(kept, vec![String::from("b.txt"), String::from("a.txt")]);
}

#[test]
fn join_paths() {
    assert_eq!(path_join("./out", "a.txt"), "./out/a.txt");
}

#[test]
fn loaded_case_count_equals_input_count() {
    let sources = vec![
        source("in/b.txt", Some("2\n")),
        source("in/a.txt", Some(" 1 ")),
        source("in/c.txt", Some("3")),
    ];
    let cases = load_cases(sources).expect("all sources readable");
    assert_eq!(cases.len(), 3);
}

#[test]
fn loading_fails_on_missing_expected_output() {
    let sources = vec![
        source("in/a.txt", Some("1")),
        source("in/b.txt", None),
        source("in/c.txt", None),
    ];
    let err = load_cases(sources).expect_err("missing pairing must fail");
    assert_eq!(err.input_path, "in/b.txt");
}

#[test]
fn loading_trims_expected_and_sorts_by_path() {
    let sources = vec![
        source("in/b.txt", Some("2\n")),
        source("in/a.txt", Some("\t 1 \r\n")),
    ];
    let cases = load_cases(sources).expect("all sources readable");
    assert_eq!(cases[0].input_path, "in/a.txt");
    assert_eq!(cases[0].expected, "1");
    assert_eq!(cases[1].input_path, "in/b.txt");
    assert_eq!(cases[1].expected, "2");
}

#[test]
fn load_order_is_deterministic() {
    let forward = vec![
        source("in/a.txt", Some("1")),
        source("in/b.txt", Some("2")),
        source("in/c.txt", Some("3")),
    ];
    let backward = vec![
        source("in/c.txt", Some("3")),
        source("in/b.txt", Some("2")),
        source("in/a.txt", Some("1")),
    ];
    let x: Vec<Case> = load_cases(forward).unwrap();
    let y: Vec<Case> = load_cases(backward).unwrap();
    assert_eq!(x.len(), y.len());
    for (a, b) in x.iter().zip(y.iter()) {
        assert_eq!(a.input_path, b.input_path);
        assert_eq!(a.expected, b.expected);
    }
}

#[test]
fn empty_directory_loads_to_no_cases() {
    let cases = load_cases(Vec::new()).expect("nothing to fail on");
    assert!(cases.is_empty());
}
