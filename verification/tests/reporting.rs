use kyoupro_bench::report::{progress_line, ranked_line, render_report, summary_line, u128_string, usize_string};
use kyoupro_bench::summary::KyouproResult;

fn summary(name: &str, ac: usize, wa: usize, average_us: u128) -> KyouproResult {
    let mut r = KyouproResult::default();
    r.set_entry_name(name);
    for _ in 0..ac {
        r.count_ac();
    }
    for _ in 0..wa {
        r.count_wa();
    }
    r.set_average_us(average_us);
    r
}

#[test]
fn decimal_rendering() {
    assert_eq!(u128_string(0), "0");
    assert_eq!(u128_string(7), "7");
    assert_eq!(u128_string(10), "10");
    assert_eq!(u128_string(12345), "12345");
    assert_eq!(
        u128_string(u128::MAX),
        "340282366920938463463374607431768211455"
    );
    assert_eq!(usize_string(42), "42");
}

#[test]
fn progress_line_format() {
    assert_eq!(progress_line("1.txt", true, 9), "1.txt\tAC\t9us\t");
    assert_eq!(progress_line("2.txt", false, 120), "2.txt\tWA\t120us\t");
}

#[test]
fn summary_line_format() {
    let r = summary("sol.exe", 2, 1, 15);
    assert_eq!(summary_line(&r), "sol.exe\tAC x2\tWA x1\t15us");
    assert_eq!(ranked_line(1, &r), "1.\tsol.exe\tAC x2\tWA x1\t15us");
}

#[test]
fn empty_report_is_header_only() {
    assert_eq!(render_report(&Vec::new()), "\tEntry Name\tAC\tWA\ttime\n");
}

#[test]
fn report_lists_ranked_summaries_with_ranks() {
    let rs = vec![summary("fast.exe", 2, 0, 10), summary("slow.exe", 1, 1, 30)];
    let expected = "\tEntry Name\tAC\tWA\ttime\n\
                    1.\tfast.exe\tAC x2\tWA x0\t10us\n\
                    2.\tslow.exe\tAC x1\tWA x1\t30us\n";
    assert_eq!(render_report(&rs), expected);
}
