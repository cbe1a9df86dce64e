use vstd::prelude::*;

use crate::cases::Case;
use crate::summary::KyouproResult;

verus! {

/// Sum of a sequence of latency samples, as an unbounded integer.
pub open spec fn sum_of(s: Seq<u128>) -> int
    decreases s.len(),
{
    if s.len() == 0 {
        0
    } else {
        sum_of(s.drop_last()) + s.last()
    }
}

pub proof fn lemma_sum_nonneg(s: Seq<u128>)
    ensures
        sum_of(s) >= 0,
    decreases s.len(),
{
    if s.len() > 0 {
        lemma_sum_nonneg(s.drop_last());
    }
}

/// The arithmetic mean (integer division) of a sequence of latency samples.
/// An empty sequence has mean zero, so that a run over zero cases or zero
/// repetitions is well defined rather than a division by zero; a sum beyond
/// `u128::MAX` saturates.
pub open spec fn mean_spec(s: Seq<u128>) -> int {
    if s.len() == 0 {
        0
    } else if sum_of(s) <= u128::MAX {
        sum_of(s) / (s.len() as int)
    } else {
        u128::MAX as int
    }
}

/// The mean latency is never negative.
pub proof fn lemma_mean_nonneg(s: Seq<u128>)
    ensures
        mean_spec(s) >= 0,
{
    lemma_sum_nonneg(s);
}

/// With a single sample (repeat count one), the mean is exactly that sample.
pub proof fn lemma_mean_single(s: Seq<u128>)
    requires
        s.len() == 1,
    ensures
        mean_spec(s) == s[0],
{
    assert(s.drop_last().len() == 0);
    assert(sum_of(s.drop_last()) == 0);
    assert(sum_of(s) == s[0]);
}

proof fn lemma_sum_take_succ(s: Seq<u128>, i: int)
    requires
        0 <= i < s.len(),
    ensures
        sum_of(s.take(i + 1)) == sum_of(s.take(i)) + s[i],
{
    assert(s.take(i + 1).drop_last() =~= s.take(i));
    assert(s.take(i + 1).last() == s[i]);
}

/// Computes the mean latency of a list of samples, as `mean_spec` says.
pub fn mean_us(samples: &Vec<u128>) -> (r: u128)
    ensures
        r == mean_spec(samples@),
        samples@.len() == 0 ==> r == 0,
        samples@.len() == 1 ==> r == samples@[0],
{
    let n = samples.len();
    if n == 0 {
        proof {
            assert(mean_spec(samples@) == 0);
        }
        return 0;
    }
    let mut acc: u128 = 0;
    let mut over: bool = false;
    let mut i: usize = 0;
    proof {
        assert(samples@.take(0) =~= Seq::<u128>::empty());
    }
    while i < n
        invariant
            n == samples@.len(),
            0 <= i <= n,
            !over ==> acc == sum_of(samples@.take(i as int)),
            over ==> sum_of(samples@.take(i as int)) > u128::MAX,
        decreases n - i,
    {
        let x = samples[i];
        proof {
            lemma_sum_take_succ(samples@, i as int);
        }
        if over {
        } else if acc > u128::MAX - x {
            over = true;
        } else {
            acc = acc + x;
        }
        i = i + 1;
    }
    proof {
        assert(samples@.take(n as int) =~= samples@);
    }
    if over {
        proof {
            if n == 1 {
                lemma_mean_single(samples@);
            }
        }
        u128::MAX
    } else {
        proof {
            lemma_sum_nonneg(samples@);
            if n == 1 {
                lemma_mean_single(samples@);
            }
        }
        acc / (n as u128)
    }
}

/// What one candidate did on one case: the standard output captured from
/// the final repetition, and the elapsed microseconds of every repetition.
pub struct Trial {
    pub output: String,
    pub samples: Vec<u128>,
}

/// The verdict for one case: the captured output, exactly as captured,
/// equals the expected text (which was trimmed when the case was loaded).
pub open spec fn accepted(c: Case, t: Trial) -> bool {
    t.output@ == c.expected@
}

/// How many of the cases the candidate answered correctly.
pub open spec fn count_accepted(cases: Seq<Case>, trials: Seq<Trial>) -> int
    decreases cases.len(),
{
    if cases.len() == 0 || trials.len() == 0 {
        0
    } else {
        count_accepted(cases.drop_last(), trials.drop_last()) + if accepted(
            cases.last(),
            trials.last(),
        ) {
            1int
        } else {
            0int
        }
    }
}

/// How many of the cases the candidate answered wrongly.
pub open spec fn count_rejected(cases: Seq<Case>, trials: Seq<Trial>) -> int
    decreases cases.len(),
{
    if cases.len() == 0 || trials.len() == 0 {
        0
    } else {
        count_rejected(cases.drop_last(), trials.drop_last()) + if accepted(
            cases.last(),
            trials.last(),
        ) {
            0int
        } else {
            1int
        }
    }
}

/// Accepted and rejected counts partition the case set: together they
/// always add up to the number of cases.
pub proof fn lemma_counts_partition(cases: Seq<Case>, trials: Seq<Trial>)
    requires
        cases.len() == trials.len(),
    ensures
        count_accepted(cases, trials) + count_rejected(cases, trials) == cases.len(),
        0 <= count_accepted(cases, trials) <= cases.len(),
        0 <= count_rejected(cases, trials) <= cases.len(),
    decreases cases.len(),
{
    if cases.len() > 0 {
        lemma_counts_partition(cases.drop_last(), trials.drop_last());
    }
}

/// A candidate whose output matches the expected text on every case is
/// accepted on all of them and rejected on none.
pub proof fn lemma_all_accepted(cases: Seq<Case>, trials: Seq<Trial>)
    requires
        cases.len() == trials.len(),
        forall|i: int| 0 <= i < cases.len() ==> accepted(#[trigger] cases[i], trials[i]),
    ensures
        count_accepted(cases, trials) == cases.len(),
        count_rejected(cases, trials) == 0,
    decreases cases.len(),
{
    if cases.len() > 0 {
        assert(accepted(cases.last(), trials.last()));
        lemma_all_accepted(cases.drop_last(), trials.drop_last());
    }
}

/// A candidate mismatching on exactly `k` of `n` cases is rejected on `k`
/// and accepted on the remaining `n - k`.
pub proof fn lemma_rejected_complement(cases: Seq<Case>, trials: Seq<Trial>)
    requires
        cases.len() == trials.len(),
    ensures
        count_accepted(cases, trials) == cases.len() - count_rejected(cases, trials),
{
    lemma_counts_partition(cases, trials);
}

/// The per-case mean latencies of a candidate's trials.
pub open spec fn case_means(trials: Seq<Trial>) -> Seq<int> {
    trials.map_values(|t: Trial| mean_spec(t.samples@))
}

pub open spec fn sum_int(s: Seq<int>) -> int
    decreases s.len(),
{
    if s.len() == 0 {
        0
    } else {
        sum_int(s.drop_last()) + s.last()
    }
}

/// The candidate's overall mean latency: the mean (integer division) of its
/// per-case mean latencies, zero when there are no cases, saturating on a
/// sum beyond `u128::MAX`.
pub open spec fn overall_mean(trials: Seq<Trial>) -> int {
    if trials.len() == 0 {
        0
    } else if sum_int(case_means(trials)) <= u128::MAX {
        sum_int(case_means(trials)) / (trials.len() as int)
    } else {
        u128::MAX as int
    }
}

proof fn lemma_sum_pointwise(s: Seq<u128>, t: Seq<int>)
    requires
        s.len() == t.len(),
        forall|i: int| 0 <= i < s.len() ==> s[i] == #[trigger] t[i],
    ensures
        sum_of(s) == sum_int(t),
    decreases s.len(),
{
    if s.len() > 0 {
        lemma_sum_pointwise(s.drop_last(), t.drop_last());
    }
}

/// Judges and times one case: whether the captured output equals the
/// expected text, and the mean of the repetition latencies.
pub fn case_outcome(expected: &String, output: &String, samples: &Vec<u128>) -> (r: (bool, u128))
    ensures
        r.0 == (output@ == expected@),
        r.1 == mean_spec(samples@),
{
    let verdict = output.eq(expected);
    let lat = mean_us(samples);
    (verdict, lat)
}

/// Builds the summary for one candidate from its name and what each case's
/// trials produced: accepted and rejected counts and the overall mean
/// latency, exactly as the specification functions say.
pub fn evaluate_candidate(name: &str, cases: &Vec<Case>, trials: &Vec<Trial>) -> (r: KyouproResult)
    requires
        trials@.len() == cases@.len(),
    ensures
        r.entry_name@ == name@,
        r.ac == count_accepted(cases@, trials@),
        r.wa == count_rejected(cases@, trials@),
        r.ac + r.wa == cases@.len(),
        r.average_us == overall_mean(trials@),
{
    let n = cases.len();
    let mut summary = KyouproResult::default();
    summary.set_entry_name(name);
    let mut lat: Vec<u128> = Vec::new();
    let mut i: usize = 0;
    proof {
        assert(cases@.take(0) =~= Seq::<Case>::empty());
        assert(trials@.take(0) =~= Seq::<Trial>::empty());
        lemma_counts_partition(cases@.take(0), trials@.take(0));
    }
    while i < n
        invariant
            n == cases@.len(),
            trials@.len() == n,
            0 <= i <= n,
            summary.entry_name@ == name@,
            summary.ac == count_accepted(cases@.take(i as int), trials@.take(i as int)),
            summary.wa == count_rejected(cases@.take(i as int), trials@.take(i as int)),
            summary.ac + summary.wa == i,
            lat@.len() == i,
            forall|k: int| 0 <= k < i ==> lat@[k] == mean_spec(#[trigger] trials@[k].samples@),
        decreases n - i,
    {
        let m = mean_us(&trials[i].samples);
        lat.push(m);
        let ok = trials[i].output.eq(&cases[i].expected);
        proof {
            assert(cases@.take(i + 1).drop_last() =~= cases@.take(i as int));
            assert(trials@.take(i + 1).drop_last() =~= trials@.take(i as int));
            assert(cases@.take(i + 1).last() == cases@[i as int]);
            assert(trials@.take(i + 1).last() == trials@[i as int]);
        }
        if ok {
            summary.count_ac();
        } else {
            summary.count_wa();
        }
        i = i + 1;
    }
    proof {
        assert(cases@.take(n as int) =~= cases@);
        assert(trials@.take(n as int) =~= trials@);
    }
    let overall = mean_us(&lat);
    proof {
        assert(case_means(trials@).len() == trials@.len());
        assert(forall|k: int|
            0 <= k < lat@.len() ==> lat@[k] == #[trigger] case_means(trials@)[k]);
        lemma_sum_pointwise(lat@, case_means(trials@));
    }
    summary.set_average_us(overall);
    summary
}

} // verus!
