use vstd::prelude::*;

use crate::text::{lemma_lex_antisymmetric, lemma_lex_connected, lemma_lex_transitive};
use crate::text::{lex_le, str_lex_le, trim_spec, trim_str};

verus! {

/// One labeled test case: the path of its input file and the expected
/// output text, already trimmed of surrounding whitespace.
#[derive(Debug)]
pub struct Case {
    pub input_path: String,
    pub expected: String,
}

impl View for Case {
    type V = (Seq<char>, Seq<char>);

    open spec fn view(&self) -> (Seq<char>, Seq<char>) {
        (self.input_path@, self.expected@)
    }
}

/// A file name carries the extension `ext` when a dot stands right before
/// a final `ext`, that dot is the last one, and it is not the name's first
/// character (a leading dot marks a hidden file, not an extension).
pub open spec fn has_ext(name: Seq<char>, ext: Seq<char>) -> bool {
    let d = name.len() - ext.len() - 1;
    &&& name.len() >= ext.len() + 2
    &&& name[d] == '.'
    &&& name.subrange(d + 1, name.len() as int) == ext
    &&& forall|k: int| d + 1 <= k < name.len() ==> name[k] != '.'
}

/// Decides `has_ext` on a file name.
pub fn name_has_extension(name: &str, ext: &str) -> (r: bool)
    ensures
        r == has_ext(name@, ext@),
{
    let n = name.unicode_len();
    let m = ext.unicode_len();
    if n < 2 || m > n - 2 {
        return false;
    }
    let d = n - m - 1;
    if name.get_char(d) != '.' {
        return false;
    }
    let mut k: usize = 0;
    while k < m
        invariant
            n == name@.len(),
            m == ext@.len(),
            n >= m + 2,
            d == n - m - 1,
            0 <= k <= m,
            name@[d as int] == '.',
            forall|j: int| 0 <= j < k ==> name@[d + 1 + j] == ext@[j],
            forall|j: int| d + 1 <= j < d + 1 + k ==> name@[j] != '.',
        decreases m - k,
    {
        let c = name.get_char(d + 1 + k);
        if c == '.' {
            proof {
                assert(name@[d + 1 + k] == '.');
            }
            return false;
        }
        if c != ext.get_char(k) {
            proof {
                assert(name@.subrange(d + 1, n as int)[k as int] == name@[d + 1 + k]);
            }
            return false;
        }
        k = k + 1;
    }
    proof {
        assert(name@.subrange(d + 1, n as int) =~= ext@);
    }
    true
}

/// Keeps, in their given order, the names that carry the extension.
pub open spec fn kept_names(names: Seq<String>, ext: Seq<char>) -> Seq<String>
    decreases names.len(),
{
    if names.len() == 0 {
        Seq::empty()
    } else if has_ext(names.last()@, ext) {
        kept_names(names.drop_last(), ext).push(names.last())
    } else {
        kept_names(names.drop_last(), ext)
    }
}

/// Filters a directory listing down to the file names that carry the
/// extension, keeping their order.
pub fn filter_by_extension(names: Vec<String>, ext: &str) -> (r: Vec<String>)
    ensures
        r@ == kept_names(names@, ext@),
{
    let n = names.len();
    let mut out: Vec<String> = Vec::new();
    let mut rest = names;
    let ghost all = rest@;
    let mut taken: usize = 0;
    while taken < n
        invariant
            n == all.len(),
            0 <= taken <= n,
            rest@ == all.skip(taken as int),
            out@ == kept_names(all.take(taken as int), ext@),
        decreases n - taken,
    {
        let name = rest.remove(0);
        proof {
            assert(all.skip(taken as int)[0] == all[taken as int]);
            assert(all.skip(taken as int).remove(0) =~= all.skip(taken + 1));
            assert(all.take(taken + 1).drop_last() =~= all.take(taken as int));
            assert(all.take(taken + 1).last() == all[taken as int]);
        }
        if name_has_extension(name.as_str(), ext) {
            out.push(name);
        }
        taken = taken + 1;
    }
    proof {
        assert(all.take(n as int) =~= all);
    }
    out
}

/// Cases are ordered by input file path, ties by expected text: plain
/// lexicographic order on the pair of views.
pub open spec fn pair_le(x: (Seq<char>, Seq<char>), y: (Seq<char>, Seq<char>)) -> bool {
    if x.0 == y.0 {
        lex_le(x.1, y.1)
    } else {
        lex_le(x.0, y.0)
    }
}

pub proof fn lemma_pair_connected(x: (Seq<char>, Seq<char>), y: (Seq<char>, Seq<char>))
    ensures
        pair_le(x, y) || pair_le(y, x),
{
    if x.0 == y.0 {
        lemma_lex_connected(x.1, y.1);
    } else {
        lemma_lex_connected(x.0, y.0);
    }
}

pub proof fn lemma_pair_antisymmetric(x: (Seq<char>, Seq<char>), y: (Seq<char>, Seq<char>))
    requires
        pair_le(x, y),
        pair_le(y, x),
    ensures
        x == y,
{
    if x.0 == y.0 {
        lemma_lex_antisymmetric(x.1, y.1);
    } else {
        lemma_lex_antisymmetric(x.0, y.0);
    }
}

pub proof fn lemma_pair_transitive(
    x: (Seq<char>, Seq<char>),
    y: (Seq<char>, Seq<char>),
    z: (Seq<char>, Seq<char>),
)
    requires
        pair_le(x, y),
        pair_le(y, z),
    ensures
        pair_le(x, z),
{
    if x.0 == y.0 && y.0 == z.0 {
        lemma_lex_transitive(x.1, y.1, z.1);
    } else if x.0 == y.0 {
        assert(pair_le(x, z));
    } else if y.0 == z.0 {
        assert(pair_le(x, z));
    } else {
        lemma_lex_transitive(x.0, y.0, z.0);
        if x.0 == z.0 {
            lemma_lex_antisymmetric(x.0, y.0);
        }
    }
}

/// The whole sequence stands in case order.
pub open spec fn cases_sorted(s: Seq<(Seq<char>, Seq<char>)>) -> bool {
    forall|i: int, j: int| 0 <= i <= j < s.len() ==> pair_le(#[trigger] s[i], #[trigger] s[j])
}

/// Where a newly loaded case lands in an already ordered sequence: after
/// everything that is not strictly greater, so equal keys keep their order.
pub open spec fn insert_sorted(s: Seq<(Seq<char>, Seq<char>)>, x: (Seq<char>, Seq<char>)) -> Seq<
    (Seq<char>, Seq<char>),
>
    decreases s.len(),
{
    if s.len() == 0 {
        seq![x]
    } else if pair_le(s.last(), x) {
        s.push(x)
    } else {
        insert_sorted(s.drop_last(), x).push(s.last())
    }
}

/// The order the loaded cases are handed out in: an insertion sort of the
/// discovered pairs, one by one.
pub open spec fn sort_views(s: Seq<(Seq<char>, Seq<char>)>) -> Seq<(Seq<char>, Seq<char>)>
    decreases s.len(),
{
    if s.len() == 0 {
        Seq::empty()
    } else {
        insert_sorted(sort_views(s.drop_last()), s.last())
    }
}

proof fn lemma_insert_sorted_ensures(s: Seq<(Seq<char>, Seq<char>)>, x: (Seq<char>, Seq<char>))
    requires
        cases_sorted(s),
    ensures
        cases_sorted(insert_sorted(s, x)),
        insert_sorted(s, x).len() == s.len() + 1,
        insert_sorted(s, x).to_multiset() =~= s.to_multiset().insert(x),
        forall|i: int|
            0 <= i < insert_sorted(s, x).len() ==> insert_sorted(s, x)[i] == x || s.contains(
                #[trigger] insert_sorted(s, x)[i],
            ),
    decreases s.len(),
{
    broadcast use vstd::seq_lib::group_to_multiset_ensures;

    lemma_pair_connected(x, x);
    if s.len() == 0 {
        assert(seq![x] =~= Seq::empty().push(x));
        assert(s =~= Seq::<(Seq<char>, Seq<char>)>::empty());
        assert(insert_sorted(s, x).to_multiset() =~= s.to_multiset().insert(x));
    } else if pair_le(s.last(), x) {
        let t = s.push(x);
        assert forall|i: int, j: int| 0 <= i <= j < t.len() implies pair_le(
            #[trigger] t[i],
            #[trigger] t[j],
        ) by {
            if j < s.len() {
            } else if i < s.len() {
                assert(pair_le(s[i], s[s.len() - 1]));
                lemma_pair_transitive(s[i], s.last(), x);
            }
        }
    } else {
        lemma_pair_connected(s.last(), x);
        assert(pair_le(x, s.last()));
        let d = s.drop_last();
        assert(cases_sorted(d));
        lemma_insert_sorted_ensures(d, x);
        let t = insert_sorted(d, x);
        let u = t.push(s.last());
        assert forall|i: int, j: int| 0 <= i <= j < u.len() implies pair_le(
            #[trigger] u[i],
            #[trigger] u[j],
        ) by {
            if j < t.len() {
            } else if i < t.len() {
                if t[i] == x {
                } else {
                    let k = choose|k: int| 0 <= k < d.len() && d[k] == t[i];
                    assert(d[k] == s[k]);
                    assert(pair_le(s[k], s[s.len() - 1]));
                }
            } else {
                lemma_pair_connected(s.last(), s.last());
            }
        }
        assert(s =~= d.push(s.last()));
        assert(s.to_multiset() =~= d.to_multiset().insert(s.last()));
        assert(u.to_multiset() =~= t.to_multiset().insert(s.last()));
        assert(u.to_multiset() =~= d.to_multiset().insert(x).insert(s.last()));
        assert(d.to_multiset().insert(x).insert(s.last()) =~= d.to_multiset().insert(
            s.last(),
        ).insert(x));
        assert forall|i: int| 0 <= i < u.len() implies u[i] == x || s.contains(
            #[trigger] u[i],
        ) by {
            if i < t.len() {
                if t[i] != x {
                    let k = choose|k: int| 0 <= k < d.len() && d[k] == t[i];
                    assert(s[k] == u[i]);
                }
            } else {
                assert(u[i] == s[s.len() - 1]);
            }
        }
    }
}

/// What the case ordering guarantees: the result is in case order, is a
/// rearrangement of what was loaded, and keeps the count.
pub proof fn lemma_sort_views_ensures(s: Seq<(Seq<char>, Seq<char>)>)
    ensures
        cases_sorted(sort_views(s)),
        sort_views(s).len() == s.len(),
        sort_views(s).to_multiset() =~= s.to_multiset(),
    decreases s.len(),
{
    broadcast use vstd::seq_lib::group_to_multiset_ensures;

    if s.len() == 0 {
    } else {
        let d = s.drop_last();
        lemma_sort_views_ensures(d);
        lemma_insert_sorted_ensures(sort_views(d), s.last());
        assert(s =~= d.push(s.last()));
        assert(s.to_multiset() =~= d.to_multiset().insert(s.last()));
    }
}

/// Case ordering is deterministic: two directory listings that hold the
/// same cases, in whatever order the filesystem handed them out, are
/// sorted to the very same sequence.
pub proof fn lemma_sort_views_deterministic(
    a: Seq<(Seq<char>, Seq<char>)>,
    b: Seq<(Seq<char>, Seq<char>)>,
)
    requires
        a.to_multiset() == b.to_multiset(),
    ensures
        sort_views(a) == sort_views(b),
{
    lemma_sort_views_ensures(a);
    lemma_sort_views_ensures(b);
    let leq = |x: (Seq<char>, Seq<char>), y: (Seq<char>, Seq<char>)| pair_le(x, y);
    assert forall|x: (Seq<char>, Seq<char>)| #[trigger] leq(x, x) by {
        lemma_pair_connected(x, x);
    }
    assert forall|x: (Seq<char>, Seq<char>), y: (Seq<char>, Seq<char>)|
        #[trigger] leq(x, y) && #[trigger] leq(y, x) implies x == y by {
        lemma_pair_antisymmetric(x, y);
    }
    assert forall|x: (Seq<char>, Seq<char>), y: (Seq<char>, Seq<char>), z: (Seq<char>, Seq<char>)|
        #[trigger] leq(x, y) && #[trigger] leq(y, z) implies leq(x, z) by {
        lemma_pair_transitive(x, y, z);
    }
    assert forall|x: (Seq<char>, Seq<char>), y: (Seq<char>, Seq<char>)| #[trigger] leq(x, y)
        || #[trigger] leq(y, x) by {
        lemma_pair_connected(x, y);
    }
    assert(vstd::relations::total_ordering(leq));
    assert(vstd::relations::sorted_by(sort_views(a), leq));
    assert(vstd::relations::sorted_by(sort_views(b), leq));
    vstd::seq_lib::lemma_sorted_unique(sort_views(a), sort_views(b), leq);
    assert(sort_views(a) =~= sort_views(b));
}

/// The views of a sequence of cases.
pub open spec fn views_of(s: Seq<Case>) -> Seq<(Seq<char>, Seq<char>)> {
    s.map_values(|c: Case| c@)
}

/// Decides the case order on two cases.
pub fn case_le(a: &Case, b: &Case) -> (r: bool)
    ensures
        r == pair_le(a@, b@),
{
    if a.input_path.eq(&b.input_path) {
        str_lex_le(a.expected.as_str(), b.expected.as_str())
    } else {
        str_lex_le(a.input_path.as_str(), b.input_path.as_str())
    }
}

fn insert_case(v: Vec<Case>, x: Case) -> (r: Vec<Case>)
    ensures
        views_of(r@) == insert_sorted(views_of(v@), x@),
    decreases v.len(),
{
    let n = v.len();
    let ghost vv = views_of(v@);
    proof {
        assert(vv.len() == n);
    }
    if n == 0 {
        let mut out = v;
        out.push(x);
        proof {
            assert(vv =~= Seq::<(Seq<char>, Seq<char>)>::empty());
            assert(views_of(out@) =~= seq![x@]);
        }
        out
    } else if case_le(&v[n - 1], &x) {
        proof {
            assert(vv.last() == v@[n - 1]@);
        }
        let mut out = v;
        out.push(x);
        proof {
            assert(views_of(out@) =~= vv.push(x@));
        }
        out
    } else {
        proof {
            assert(vv.last() == v@[n - 1]@);
        }
        let mut v2 = v;
        let last = v2.pop().unwrap();
        proof {
            assert(views_of(v2@) =~= vv.drop_last());
        }
        let mut w = insert_case(v2, x);
        let ghost wv = views_of(w@);
        w.push(last);
        proof {
            assert(views_of(w@) =~= wv.push(last@));
            assert(last@ == vv.last());
        }
        w
    }
}

/// Puts a list of cases into the case order, as `sort_views` says.
pub fn sort_cases(cases: Vec<Case>) -> (r: Vec<Case>)
    ensures
        views_of(r@) == sort_views(views_of(cases@)),
{
    let n = cases.len();
    let mut rest = cases;
    let ghost all = views_of(rest@);
    let mut out: Vec<Case> = Vec::new();
    let mut i: usize = 0;
    proof {
        assert(all.take(0) =~= Seq::<(Seq<char>, Seq<char>)>::empty());
        assert(views_of(out@) =~= Seq::<(Seq<char>, Seq<char>)>::empty());
    }
    while i < n
        invariant
            n == all.len(),
            rest@.len() == n - i,
            0 <= i <= n,
            views_of(rest@) =~= all.skip(i as int),
            views_of(out@) == sort_views(all.take(i as int)),
        decreases n - i,
    {
        let ghost prev = rest@;
        let c = rest.remove(0);
        proof {
            assert(c == prev[0]);
            assert(views_of(prev)[0] == prev[0]@);
            assert(c@ == all.skip(i as int)[0]);
            assert(c@ == all[i as int]);
            assert(rest@ =~= prev.skip(1));
            assert(views_of(rest@) =~= views_of(prev).skip(1));
            assert(views_of(prev).skip(1) =~= all.skip(i + 1));
            assert(all.take(i + 1).drop_last() =~= all.take(i as int));
            assert(all.take(i + 1).last() == all[i as int]);
        }
        out = insert_case(out, c);
        i = i + 1;
    }
    proof {
        assert(all.take(n as int) =~= all);
    }
    out
}

/// One discovered input file, paired with the raw content of its
/// same-named expected-output file, or `None` where that file could not be
/// read.
pub struct CaseSource {
    pub input_path: String,
    pub expected_raw: Option<String>,
}

/// Loading fails on the first input file whose expected-output file is
/// missing; the error carries that input file's path.
#[derive(Debug)]
pub struct LoadError {
    pub input_path: String,
}

/// The case view a source loads to: its path, and its expected text with
/// surrounding whitespace stripped.
pub open spec fn loaded_view(cs: CaseSource) -> (Seq<char>, Seq<char>) {
    (
        cs.input_path@,
        match cs.expected_raw {
            Option::Some(raw) => trim_spec(raw@),
            Option::None => Seq::empty(),
        },
    )
}

pub open spec fn source_views(sources: Seq<CaseSource>) -> Seq<(Seq<char>, Seq<char>)> {
    sources.map_values(|cs: CaseSource| loaded_view(cs))
}

/// Every discovered input file has a readable expected-output file.
pub open spec fn all_readable(sources: Seq<CaseSource>) -> bool {
    forall|i: int| 0 <= i < sources.len() ==> (#[trigger] sources[i].expected_raw) is Some
}

/// The first source whose expected-output file is missing.
pub open spec fn first_missing(sources: Seq<CaseSource>) -> int
    decreases sources.len(),
{
    if sources.len() == 0 {
        0
    } else if sources[0].expected_raw is None {
        0
    } else {
        1 + first_missing(sources.drop_first())
    }
}

proof fn lemma_first_missing_at(sources: Seq<CaseSource>, i: int)
    requires
        0 <= i < sources.len(),
        sources[i].expected_raw is None,
        forall|k: int| 0 <= k < i ==> (#[trigger] sources[k].expected_raw) is Some,
    ensures
        first_missing(sources) == i,
    decreases i,
{
    if i > 0 {
        let d = sources.drop_first();
        assert(forall|k: int| 0 <= k < i - 1 ==> #[trigger] d[k] == sources[k + 1]);
        lemma_first_missing_at(d, i - 1);
    }
}

/// Repeated loads of one directory are deterministic: two scans that
/// discovered the same pairings, in whatever order the filesystem handed
/// them out, load to the very same case sequence.
pub proof fn lemma_load_deterministic(a: Seq<CaseSource>, b: Seq<CaseSource>)
    requires
        source_views(a).to_multiset() == source_views(b).to_multiset(),
    ensures
        sort_views(source_views(a)) == sort_views(source_views(b)),
{
    lemma_sort_views_deterministic(source_views(a), source_views(b));
}

/// Builds the ordered case set from the discovered sources. Succeeds if
/// and only if every input file's expected-output file was readable; the
/// cases come out with expected text trimmed, in the deterministic case
/// order. Fails on the first unreadable pairing, naming its input file.
pub fn load_cases(sources: Vec<CaseSource>) -> (r: Result<Vec<Case>, LoadError>)
    ensures
        r is Ok <==> all_readable(sources@),
        r is Ok ==> views_of(r->Ok_0@) == sort_views(source_views(sources@)),
        r is Ok ==> r->Ok_0@.len() == sources@.len(),
        r is Err ==> 0 <= first_missing(sources@) < sources@.len() && r->Err_0.input_path@
            == sources@[first_missing(sources@)].input_path@,
{
    let n = sources.len();
    let mut rest = sources;
    let ghost all = rest@;
    let mut flat: Vec<Case> = Vec::new();
    let mut i: usize = 0;
    proof {
        assert(source_views(all).take(0) =~= Seq::<(Seq<char>, Seq<char>)>::empty());
        assert(views_of(flat@) =~= Seq::<(Seq<char>, Seq<char>)>::empty());
    }
    while i < n
        invariant
            all == sources@,
            n == all.len(),
            rest@.len() == n - i,
            0 <= i <= n,
            rest@ == all.skip(i as int),
            forall|k: int| 0 <= k < i ==> (#[trigger] all[k].expected_raw) is Some,
            flat@.len() == i,
            views_of(flat@) == source_views(all).take(i as int),
        decreases n - i,
    {
        let ghost prev = rest@;
        let cs = rest.remove(0);
        proof {
            assert(cs == prev[0]);
            assert(cs == all[i as int]);
            assert(rest@ =~= prev.skip(1));
            assert(prev.skip(1) =~= all.skip(i + 1));
        }
        match cs.expected_raw {
            Option::None => {
                proof {
                    assert(all[i as int].expected_raw is None);
                    lemma_first_missing_at(all, i as int);
                }
                return Result::Err(LoadError { input_path: cs.input_path });
            },
            Option::Some(raw) => {
                let expected = trim_str(raw.as_str());
                let c = Case { input_path: cs.input_path, expected };
                proof {
                    assert(c@ == loaded_view(all[i as int]));
                    assert(source_views(all)[i as int] == loaded_view(all[i as int]));
                }
                let ghost fv = views_of(flat@);
                flat.push(c);
                proof {
                    assert(views_of(flat@) =~= fv.push(c@));
                    assert(source_views(all).take(i + 1) =~= source_views(all).take(
                        i as int,
                    ).push(source_views(all)[i as int]));
                }
            },
        }
        i = i + 1;
    }
    proof {
        assert(source_views(all).take(n as int) =~= source_views(all));
    }
    let sorted = sort_cases(flat);
    proof {
        lemma_sort_views_ensures(source_views(all));
    }
    Result::Ok(sorted)
}

/// Joins a directory and a file name with a single separator, the way the
/// matching expected-output file of a case is addressed.
pub fn path_join(dir: &str, name: &str) -> (r: String)
    ensures
        r@ == dir@ + seq!['/'] + name@,
{
    let mut s = dir.to_owned();
    s.append("/");
    s.append(name);
    proof {
        reveal_strlit("/");
        assert("/"@ =~= seq!['/']);
    }
    s
}

} // verus!
