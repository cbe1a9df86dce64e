use vstd::prelude::*;

use crate::summary::KyouproResult;

verus! {

/// The final report is ordered by mean latency, ascending.
pub open spec fn ranking_sorted(s: Seq<KyouproResult>) -> bool {
    forall|i: int, j: int|
        0 <= i <= j < s.len() ==> #[trigger] s[i].average_us <= #[trigger] s[j].average_us
}

/// Where a summary lands among the already ranked ones: after every
/// summary whose mean latency is not greater, so candidates with equal
/// latency keep their discovery order.
pub open spec fn insert_ranked(s: Seq<KyouproResult>, x: KyouproResult) -> Seq<KyouproResult>
    decreases s.len(),
{
    if s.len() == 0 {
        seq![x]
    } else if s.last().average_us <= x.average_us {
        s.push(x)
    } else {
        insert_ranked(s.drop_last(), x).push(s.last())
    }
}

/// The ranked order of the summaries: a stable insertion sort by mean
/// latency, in discovery order.
pub open spec fn rank_spec(s: Seq<KyouproResult>) -> Seq<KyouproResult>
    decreases s.len(),
{
    if s.len() == 0 {
        Seq::empty()
    } else {
        insert_ranked(rank_spec(s.drop_last()), s.last())
    }
}

proof fn lemma_insert_ranked_ensures(s: Seq<KyouproResult>, x: KyouproResult)
    requires
        ranking_sorted(s),
    ensures
        ranking_sorted(insert_ranked(s, x)),
        insert_ranked(s, x).len() == s.len() + 1,
        insert_ranked(s, x).to_multiset() =~= s.to_multiset().insert(x),
    decreases s.len(),
{
    broadcast use vstd::seq_lib::group_to_multiset_ensures;

    if s.len() == 0 {
        assert(seq![x] =~= Seq::empty().push(x));
        assert(s =~= Seq::<KyouproResult>::empty());
        assert(insert_ranked(s, x).to_multiset() =~= s.to_multiset().insert(x));
    } else if s.last().average_us <= x.average_us {
        let t = s.push(x);
        assert forall|i: int, j: int| 0 <= i <= j < t.len() implies #[trigger] t[i].average_us
            <= #[trigger] t[j].average_us by {
            if j < s.len() {
            } else if i < s.len() {
                assert(s[i].average_us <= s[s.len() - 1].average_us);
            }
        }
    } else {
        let d = s.drop_last();
        assert(ranking_sorted(d));
        lemma_insert_ranked_ensures(d, x);
        let t = insert_ranked(d, x);
        let u = t.push(s.last());
        assert forall|i: int| 0 <= i < t.len() implies #[trigger] t[i].average_us <= s[s.len()
            - 1].average_us by {
            assert(t.to_multiset().contains(t[i]));
            assert(d.to_multiset().insert(x).contains(t[i]));
            if t[i] == x {
            } else {
                assert(d.to_multiset().contains(t[i]));
                assert(d.contains(t[i]));
                let k = choose|k: int| 0 <= k < d.len() && d[k] == t[i];
                assert(s[k].average_us <= s[s.len() - 1].average_us);
            }
        }
        assert forall|i: int, j: int| 0 <= i <= j < u.len() implies #[trigger] u[i].average_us
            <= #[trigger] u[j].average_us by {
            if j < t.len() {
            } else if i < t.len() {
                assert(u[i] == t[i]);
            }
        }
        assert(s =~= d.push(s.last()));
        assert(s.to_multiset() =~= d.to_multiset().insert(s.last()));
        assert(u.to_multiset() =~= t.to_multiset().insert(s.last()));
        assert(d.to_multiset().insert(x).insert(s.last()) =~= d.to_multiset().insert(
            s.last(),
        ).insert(x));
    }
}

/// What the ranking guarantees: the ranked sequence is ordered by mean
/// latency, is a rearrangement of the summaries, and keeps the count.
pub proof fn lemma_rank_spec_ensures(s: Seq<KyouproResult>)
    ensures
        ranking_sorted(rank_spec(s)),
        rank_spec(s).len() == s.len(),
        rank_spec(s).to_multiset() =~= s.to_multiset(),
    decreases s.len(),
{
    broadcast use vstd::seq_lib::group_to_multiset_ensures;

    if s.len() == 0 {
    } else {
        let d = s.drop_last();
        lemma_rank_spec_ensures(d);
        lemma_insert_ranked_ensures(rank_spec(d), s.last());
        assert(s =~= d.push(s.last()));
        assert(s.to_multiset() =~= d.to_multiset().insert(s.last()));
    }
}

fn insert_result(v: Vec<KyouproResult>, x: KyouproResult) -> (r: Vec<KyouproResult>)
    ensures
        r@ == insert_ranked(v@, x),
    decreases v.len(),
{
    let n = v.len();
    if n == 0 {
        let mut out = v;
        out.push(x);
        proof {
            assert(out@ =~= seq![x]);
        }
        out
    } else if v[n - 1].average_us <= x.average_us {
        let mut out = v;
        out.push(x);
        out
    } else {
        let mut v2 = v;
        let last = v2.pop().unwrap();
        proof {
            assert(v2@ =~= v@.drop_last());
        }
        let mut w = insert_result(v2, x);
        w.push(last);
        w
    }
}

/// Ranks the candidate summaries ascending by overall mean latency, ties
/// keeping their discovery order: in the result, no summary is followed by
/// one with a smaller mean latency.
pub fn rank_results(results: Vec<KyouproResult>) -> (r: Vec<KyouproResult>)
    ensures
        r@ == rank_spec(results@),
        ranking_sorted(r@),
        r@.len() == results@.len(),
{
    let n = results.len();
    let mut rest = results;
    let ghost all = rest@;
    let mut out: Vec<KyouproResult> = Vec::new();
    let mut i: usize = 0;
    proof {
        assert(all.take(0) =~= Seq::<KyouproResult>::empty());
        assert(out@ =~= Seq::<KyouproResult>::empty());
    }
    while i < n
        invariant
            n == all.len(),
            rest@.len() == n - i,
            0 <= i <= n,
            rest@ == all.skip(i as int),
            out@ == rank_spec(all.take(i as int)),
        decreases n - i,
    {
        let ghost prev = rest@;
        let c = rest.remove(0);
        proof {
            assert(c == prev[0]);
            assert(c == all[i as int]);
            assert(rest@ =~= prev.skip(1));
            assert(prev.skip(1) =~= all.skip(i + 1));
            assert(all.take(i + 1).drop_last() =~= all.take(i as int));
            assert(all.take(i + 1).last() == all[i as int]);
        }
        out = insert_result(out, c);
        i = i + 1;
    }
    proof {
        assert(all.take(n as int) =~= all);
        lemma_rank_spec_ensures(all);
    }
    out
}

} // verus!
