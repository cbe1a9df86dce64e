use kyoupro_bench::cases::{load_cases, Case, CaseSource};
use kyoupro_bench::measure::{case_outcome, evaluate_candidate, mean_us, Trial};
use kyoupro_bench::rank::rank_results;
use kyoupro_bench::summary::KyouproResult;

fn case(path: &str, expected: &str) -> Case {
    Case {
        input_path: String::from(path),
        expected: String::from(expected),
    }
}

fn trial(output: &str, samples: Vec<u128>) -> Trial {
    Trial {
        output: String::from(output),
        samples,
    }
}

fn summary(name: &str, average_us: u128) -> KyouproResult {
    let mut r = KyouproResult::default();
    r.set_entry_name(name);
    r.set_average_us(average_us);
    r
}

#[test]
fn mean_of_one_sample_is_that_sample() {
    assert_eq!(mean_us(&vec![42]), 42);
    assert_eq!(mean_us(&vec![0]), 0);
}

#[test]
fn mean_is_integer_division_of_sum() {
    assert_eq!(mean_us(&vec![2, 4]), 3);
    assert_eq!(mean_us(&vec![1, 2, 4]), 2);
    assert_eq!(mean_us(&vec![5, 5, 5, 5]), 5);
}

#[test]
fn mean_of_no_samples_is_zero() {
    assert_eq!(mean_us(&Vec::new()), 0);
}

#[test]
fn mean_saturates_instead_of_overflowing() {
    assert_eq!(mean_us(&vec![u128::MAX, u128::MAX]), u128::MAX);
}

#[test]
fn outcome_compares_raw_output_to_expected() {
    let expected = String::from("3");
    let (ok, lat) = case_outcome(&expected, &String::from("3"), &vec![7]);
    assert!(ok);
    assert_eq!(lat, 7);
    let (ok, _) = case_outcome(&expected, &String::from("3\n"), &vec![7]);
    assert!(!ok, "captured output is compared untrimmed");
}

#[test]
fn fully_correct_candidate_accepts_every_case() {
    let cases = vec![case("in/1.txt", "3"), case("in/2.txt", "7")];
    let trials = vec![trial("3", vec![10]), trial("7", vec![20])];
    let r = evaluate_candidate("good.exe", &cases, &trials);
    assert_eq!(r.entry_name, "good.exe");
    assert_eq!(r.ac, 2);
    assert_eq!(r.wa, 0);
}

#[test]
fn mismatches_split_counts_exactly() {
    let cases = vec![
        case("in/1.txt", "a"),
        case("in/2.txt", "b"),
        case("in/3.txt", "c"),
    ];
    let trials = vec![
        trial("a", vec![1]),
        trial("wrong", vec![1]),
        trial("c", vec![1]),
    ];
    let r = evaluate_candidate("mixed.exe", &cases, &trials);
    assert_eq!(r.ac, 2);
    assert_eq!(r.wa, 1);
}

#[test]
fn scenario_echo_versus_correct_candidate() {
    let sources = vec![
        CaseSource {
            input_path: String::from("in/1.txt"),
            expected_raw: Some(String::from("3\n")),
        },
        CaseSource {
            input_path: String::from("in/2.txt"),
            expected_raw: Some(String::from("7\n")),
        },
    ];
    let cases = load_cases(sources).unwrap();

    // a candidate that echoes its input unchanged: output "1" and "2"
    let echo = evaluate_candidate(
        "echo.exe",
        &cases,
        &vec![trial("1", vec![5]), trial("2", vec![5])],
    );
    assert_eq!(echo.ac, 0);
    assert_eq!(echo.wa, 2);

    // a candidate that prints the right answers
    let right = evaluate_candidate(
        "right.exe",
        &cases,
        &vec![trial("3", vec![10]), trial("7", vec![30])],
    );
    assert_eq!(right.ac, 2);
    assert_eq!(right.wa, 0);
    assert_eq!(right.average_us, 20, "overall mean of the per-case means");
}

#[test]
fn per_case_mean_is_averaged_over_repetitions() {
    let cases = vec![case("in/1.txt", "x")];
    let trials = vec![trial("x", vec![10, 20, 31])];
    let r = evaluate_candidate("rep.exe", &cases, &trials);
    assert_eq!(r.average_us, 20);
}

#[test]
fn zero_cases_mean_is_zero_not_a_crash() {
    let r = evaluate_candidate("lonely.exe", &Vec::new(), &Vec::new());
    assert_eq!(r.ac, 0);
    assert_eq!(r.wa, 0);
    assert_eq!(r.average_us, 0);
}

#[test]
fn ranking_is_ascending_by_mean_latency() {
    let rs = vec![
        summary("slow.exe", 30),
        summary("fast.exe", 10),
        summary("mid.exe", 20),
    ];
    let ranked = rank_results(rs);
    let names: Vec<&str> = ranked.iter().map(|r| r.entry_name.as_str()).collect();
    assert_eq!(names, vec!["fast.exe", "mid.exe", "slow.exe"]);
    for w in ranked.windows(2) {
        assert!(w[0].average_us <= w[1].average_us);
    }
}

#[test]
fn ranking_keeps_discovery_order_on_ties() {
    let rs = vec![
        summary("first.exe", 10),
        summary("second.exe", 10),
        summary("third.exe", 5),
    ];
    let ranked = rank_results(rs);
    let names: Vec<&str> = ranked.iter().map(|r| r.entry_name.as_str()).collect();
    assert_eq!(names, vec!["third.exe", "first.exe", "second.exe"]);
}

#[test]
fn counters_and_setters() {
    let mut r = KyouproResult::default();
    assert_eq!(r.entry_name, "");
    assert_eq!(r.ac, 0);
    assert_eq!(r.wa, 0);
    assert_eq!(r.average_us, 0);
    r.set_entry_name("sol.exe");
    r.count_ac();
    r.count_ac();
    r.count_wa();
    r.set_average_us(123);
    assert_eq!(r.entry_name, "sol.exe");
    assert_eq!(r.ac, 2);
    assert_eq!(r.wa, 1);
    assert_eq!(r.average_us, 123);
}
