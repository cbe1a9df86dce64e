use vstd::prelude::*;

use crate::summary::KyouproResult;

verus! {

pub open spec fn digit_char(d: int) -> char {
    if d == 0 {
        '0'
    } else if d == 1 {
        '1'
    } else if d == 2 {
        '2'
    } else if d == 3 {
        '3'
    } else if d == 4 {
        '4'
    } else if d == 5 {
        '5'
    } else if d == 6 {
        '6'
    } else if d == 7 {
        '7'
    } else if d == 8 {
        '8'
    } else {
        '9'
    }
}

/// The usual decimal spelling of a number, most significant digit first,
/// no sign and no leading zero (a lone zero for zero).
pub open spec fn dec_rep(n: nat) -> Seq<char>
    decreases n,
{
    if n < 10 {
        seq![digit_char(n as int)]
    } else {
        dec_rep(n / 10).push(digit_char((n % 10) as int))
    }
}

fn digit_str(d: u128) -> (r: &'static str)
    requires
        d < 10,
    ensures
        r@ == seq![digit_char(d as int)],
{
    if d == 0 {
        proof {
            reveal_strlit("0");
            assert("0"@ =~= seq!['0']);
        }
        "0"
    } else if d == 1 {
        proof {
            reveal_strlit("1");
            assert("1"@ =~= seq!['1']);
        }
        "1"
    } else if d == 2 {
        proof {
            reveal_strlit("2");
            assert("2"@ =~= seq!['2']);
        }
        "2"
    } else if d == 3 {
        proof {
            reveal_strlit("3");
            assert("3"@ =~= seq!['3']);
        }
        "3"
    } else if d == 4 {
        proof {
            reveal_strlit("4");
            assert("4"@ =~= seq!['4']);
        }
        "4"
    } else if d == 5 {
        proof {
            reveal_strlit("5");
            assert("5"@ =~= seq!['5']);
        }
        "5"
    } else if d == 6 {
        proof {
            reveal_strlit("6");
            assert("6"@ =~= seq!['6']);
        }
        "6"
    } else if d == 7 {
        proof {
            reveal_strlit("7");
            assert("7"@ =~= seq!['7']);
        }
        "7"
    } else if d == 8 {
        proof {
            reveal_strlit("8");
            assert("8"@ =~= seq!['8']);
        }
        "8"
    } else {
        proof {
            reveal_strlit("9");
            assert("9"@ =~= seq!['9']);
        }
        "9"
    }
}

/// Renders a latency (or any count) in decimal, as `dec_rep` says.
pub fn u128_string(n: u128) -> (r: String)
    ensures
        r@ == dec_rep(n as nat),
    decreases n,
{
    if n < 10 {
        digit_str(n).to_owned()
    } else {
        let q = u128_string(n / 10);
        let d = digit_str(n % 10);
        let r = q.concat(d);
        proof {
            assert(r@ =~= dec_rep((n / 10) as nat).push(digit_char((n % 10) as int)));
        }
        r
    }
}

/// Renders a count in decimal, as `dec_rep` says.
pub fn usize_string(n: usize) -> (r: String)
    ensures
        r@ == dec_rep(n as nat),
{
    u128_string(n as u128)
}

pub open spec fn verdict_text(ok: bool) -> Seq<char> {
    if ok {
        "AC"@
    } else {
        "WA"@
    }
}

/// The progress line printed after each case: case file name, verdict,
/// latency in microseconds.
pub open spec fn progress_line_spec(name: Seq<char>, ok: bool, latency_us: nat) -> Seq<char> {
    name + "\t"@ + verdict_text(ok) + "\t"@ + dec_rep(latency_us) + "us\t"@
}

/// Renders one progress line, as `progress_line_spec` says.
pub fn progress_line(name: &str, ok: bool, latency_us: u128) -> (r: String)
    ensures
        r@ == progress_line_spec(name@, ok, latency_us as nat),
{
    let mut s = name.to_owned();
    s.append("\t");
    if ok {
        s.append("AC");
    } else {
        s.append("WA");
    }
    s.append("\t");
    let lat = u128_string(latency_us);
    s.append(lat.as_str());
    s.append("us\t");
    proof {
        assert(s@ =~= progress_line_spec(name@, ok, latency_us as nat));
    }
    s
}

/// One summary as reported: name, accepted count, rejected count, mean
/// latency in microseconds.
pub open spec fn summary_line_spec(res: KyouproResult) -> Seq<char> {
    res.entry_name@ + "\tAC x"@ + dec_rep(res.ac as nat) + "\tWA x"@ + dec_rep(res.wa as nat)
        + "\t"@ + dec_rep(res.average_us as nat) + "us"@
}

/// Renders one summary, as `summary_line_spec` says.
pub fn summary_line(res: &KyouproResult) -> (r: String)
    ensures
        r@ == summary_line_spec(*res),
{
    let mut s = res.entry_name.clone();
    s.append("\tAC x");
    let ac = usize_string(res.ac);
    s.append(ac.as_str());
    s.append("\tWA x");
    let wa = usize_string(res.wa);
    s.append(wa.as_str());
    s.append("\t");
    let avg = u128_string(res.average_us);
    s.append(avg.as_str());
    s.append("us");
    proof {
        assert(s@ =~= summary_line_spec(*res));
    }
    s
}

/// One ranked line of the final table: 1-based rank, then the summary.
pub open spec fn ranked_line_spec(rank: nat, res: KyouproResult) -> Seq<char> {
    dec_rep(rank) + ".\t"@ + summary_line_spec(res)
}

pub fn ranked_line(rank: usize, res: &KyouproResult) -> (r: String)
    ensures
        r@ == ranked_line_spec(rank as nat, *res),
{
    let mut s = usize_string(rank);
    s.append(".\t");
    let body = summary_line(res);
    s.append(body.as_str());
    proof {
        assert(s@ =~= ranked_line_spec(rank as nat, *res));
    }
    s
}

/// The header of the final table.
pub open spec fn header_spec() -> Seq<char> {
    "\tEntry Name\tAC\tWA\ttime\n"@
}

/// The whole final report: the header, then one ranked line per summary
/// in the given (already ranked) order, each line ending in a newline.
pub open spec fn report_spec(results: Seq<KyouproResult>) -> Seq<char>
    decreases results.len(),
{
    if results.len() == 0 {
        header_spec()
    } else {
        report_spec(results.drop_last()) + ranked_line_spec(results.len() as nat, results.last())
            + "\n"@
    }
}

/// Renders the final report, as `report_spec` says. With no candidates the
/// report is the header alone.
pub fn render_report(results: &Vec<KyouproResult>) -> (r: String)
    ensures
        r@ == report_spec(results@),
        results@.len() == 0 ==> r@ == header_spec(),
{
    let n = results.len();
    let mut s = String::from_str("\tEntry Name\tAC\tWA\ttime\n");
    let mut i: usize = 0;
    proof {
        assert(results@.take(0) =~= Seq::<KyouproResult>::empty());
        assert(s@ == report_spec(results@.take(0)));
    }
    while i < n
        invariant
            n == results@.len(),
            0 <= i <= n,
            s@ == report_spec(results@.take(i as int)),
        decreases n - i,
    {
        let line = ranked_line(i + 1, &results[i]);
        s.append(line.as_str());
        s.append("\n");
        proof {
            assert(results@.take(i + 1).drop_last() =~= results@.take(i as int));
            assert(results@.take(i + 1).last() == results@[i as int]);
            assert(results@.take(i + 1).len() == i + 1);
            assert(s@ =~= report_spec(results@.take(i + 1)));
        }
        i = i + 1;
    }
    proof {
        assert(results@.take(n as int) =~= results@);
    }
    s
}

} // verus!
