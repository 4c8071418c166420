//! The search driver: walks the selector through every candidate assignment
//! in enumeration order and stops at the first expression that the
//! uniqueness oracle accepts.

use vstd::prelude::*;
use vstd::string::StrSliceExecFns;
use crate::bitfield::BitField;
use crate::bitfield::all_ones;
use crate::dictionary::Dictionary;
use crate::glob::DictView;
use crate::text::find_from;
use crate::text::occurs_at;
use crate::substring::common_at;
use crate::substring::is_longest_common;
use crate::worker::format_spec;
use crate::glob::owner_value;
use crate::glob::resolves;
use crate::pattern::bits_of;
use crate::pattern::pattern_of;
use crate::pattern::synthesize;
use crate::worker::Job;
use crate::worker::Result;

verus! {

/// Whether counter value `k` yields an accepted expression for `id`.
pub open spec fn accepted_at(dict: DictView, id: Seq<char>, k: nat) -> bool {
    resolves(dict, id, pattern_of(id, bits_of(k, id.len())))
}

/// The first accepted counter value at or after `k`, walking the enumeration
/// order up to the all-ones assignment, where the sweep stops.
pub open spec fn search_from(dict: DictView, id: Seq<char>, k: nat) -> Option<nat>
    decreases all_ones(id.len()) - k,
{
    if k >= all_ones(id.len()) {
        None
    } else if accepted_at(dict, id, k) {
        Some(k)
    } else {
        search_from(dict, id, k + 1)
    }
}

/// What `search_from` finds is the least accepted value at or after `k`, and
/// it finds one whenever one exists below the all-ones assignment.
pub proof fn lemma_search_from_least(dict: DictView, id: Seq<char>, k: nat)
    ensures
        search_from(dict, id, k) matches Some(k0) ==> k <= k0 < all_ones(id.len())
            && accepted_at(dict, id, k0) && forall|k2: nat|
            k <= k2 < k0 ==> !accepted_at(dict, id, k2),
        search_from(dict, id, k) is None ==> forall|k2: nat|
            k <= k2 < all_ones(id.len()) ==> !accepted_at(dict, id, k2),
    decreases all_ones(id.len()) - k,
{
    if k >= all_ones(id.len()) {
    } else if accepted_at(dict, id, k) {
    } else {
        lemma_search_from_least(dict, id, k + 1);
    }
}

/// Drives the selector over every candidate assignment in enumeration
/// order, skipping the trivial all-zero one, and accepts the first
/// expression that resolves uniquely to the job's identifier. Exhausting
/// the space without success is a normal outcome.
pub fn search(job: &Job, env: &Dictionary) -> (r: Option<Result>)
    ensures
        r.is_some() == (search_from(env@, job.identifier@, 1) is Some),
        r matches Some(res) ==> {
            &&& search_from(env@, job.identifier@, 1) matches Some(k) && res.expression@
                == pattern_of(job.identifier@, bits_of(k, job.identifier@.len()))
            &&& res.value@ == owner_value(env@, job.identifier@)
            &&& res.job.identifier@ == job.identifier@
            &&& res.job.substring@ == job.substring@
        },
{
    let ghost d = env@;
    let ghost id = job.identifier@;
    let n = job.identifier.unicode_len();
    let mut sel = BitField::new(n);
    // The all-zero assignment would synthesize a bare `*`, which everything
    // matches; enumeration starts at one.
    sel.increment();
    proof {
        vstd::arithmetic::power2::lemma2_to64();
        if n > 0 {
            vstd::arithmetic::power2::lemma_pow2_strictly_increases(0, n as nat);
        }
    }
    while !sel.maxed()
        invariant
            d == env@,
            id == job.identifier@,
            n == id.len(),
            sel.wf(),
            sel.width() == n,
            sel.value() <= all_ones(n as nat),
            n > 0 ==> 1 <= sel.value(),
            search_from(d, id, 1) == search_from(d, id, sel.value()),
        decreases all_ones(n as nat) - sel.value(),
    {
        let expression = synthesize(job.identifier.as_str(), &sel);
        let outcome = crate::glob::matches(job.identifier.as_str(), expression.as_str(), env);
        proof {
            if outcome.is_some() {
                assert(accepted_at(d, id, sel.value()));
            } else {
                assert(!accepted_at(d, id, sel.value()));
            }
        }
        if let Some(value) = outcome {
            let result = Result {
                value,
                expression,
                job: Job {
                    identifier: job.identifier.clone(),
                    substring: job.substring.clone(),
                },
            };
            return Some(result);
        }
        sel.increment();
    }
    proof {
        assert(search_from(d, id, sel.value()) is None);
    }
    None
}

/// The view of a job list: each job as its (identifier, substring) pair.
pub open spec fn jobs_view(jobs: Seq<Job>) -> Seq<(Seq<char>, Seq<char>)> {
    jobs.map_values(|jb: Job| jb@)
}

/// Jobs fit the dictionary: each identifier is listed by an entry whose
/// value holds the job's substring, and substrings are non-empty.
pub open spec fn jobs_wf(dict: DictView, jobs: Seq<(Seq<char>, Seq<char>)>) -> bool {
    forall|j: int|
        0 <= j < jobs.len() ==> (#[trigger] jobs[j]).1.len() >= 1 && exists|e: int|
            0 <= e < dict.len() && #[trigger] dict[e].1.contains(jobs[j].0) && (find_from(
                dict[e].0,
                jobs[j].1,
                0,
            ) is Some)
}

/// The payload line one accepted job renders to.
pub open spec fn outcome_of(path: Seq<char>, dict: DictView, job: (Seq<char>, Seq<char>)) -> Seq<
    char,
> {
    let k = match search_from(dict, job.0, 1) {
        Some(k) => k,
        None => 0,
    };
    format_spec(
        owner_value(dict, job.0),
        pattern_of(job.0, bits_of(k, job.0.len())),
        job.0,
        job.1,
        path,
    )
}

/// The payload lines of a job list: one per accepted job, in job order.
pub open spec fn gen_outcomes(
    path: Seq<char>,
    dict: DictView,
    jobs: Seq<(Seq<char>, Seq<char>)>,
) -> Seq<Seq<char>>
    decreases jobs.len(),
{
    if jobs.len() == 0 {
        Seq::empty()
    } else {
        (if search_from(dict, jobs[0].0, 1) is Some {
            seq![outcome_of(path, dict, jobs[0])]
        } else {
            Seq::<Seq<char>>::empty()
        }) + gen_outcomes(path, dict, jobs.skip(1))
    }
}

/// How many jobs have an acceptable expression at all.
pub open spec fn count_accepted(dict: DictView, jobs: Seq<(Seq<char>, Seq<char>)>) -> nat
    decreases jobs.len(),
{
    if jobs.len() == 0 {
        0
    } else {
        (if search_from(dict, jobs[0].0, 1) is Some {
            1nat
        } else {
            0nat
        }) + count_accepted(dict, jobs.skip(1))
    }
}

/// One result per job: a sweep over a job list yields exactly one payload
/// line for every job with an acceptable expression and none for the rest,
/// independent jobs contributing independently.
pub proof fn lemma_one_result_per_job(
    path: Seq<char>,
    dict: DictView,
    jobs: Seq<(Seq<char>, Seq<char>)>,
)
    ensures
        gen_outcomes(path, dict, jobs).len() == count_accepted(dict, jobs),
        count_accepted(dict, jobs) <= jobs.len(),
    decreases jobs.len(),
{
    if jobs.len() > 0 {
        lemma_one_result_per_job(path, dict, jobs.skip(1));
    }
}

/// Whether the path and a value share a run of three characters: exactly
/// when their longest common substring is longer than two.
pub open spec fn shares_span(path: Seq<char>, value: Seq<char>) -> bool {
    exists|i: int, j: int| common_at(path, value, i, j, 3)
}

/// The identifiers the planner lays out for the entries from `e` on, in
/// order: those of every entry whose value shares a span with the path.
pub open spec fn planned_ids(path: Seq<char>, dict: DictView, e: int) -> Seq<Seq<char>>
    decreases dict.len() - e,
{
    if e < 0 || e >= dict.len() {
        Seq::empty()
    } else {
        (if shares_span(path, dict[e].0) {
            dict[e].1
        } else {
            Seq::<Seq<char>>::empty()
        }) + planned_ids(path, dict, e + 1)
    }
}

/// The identifiers of a job list, in order.
pub open spec fn ids_of(jobs: Seq<(Seq<char>, Seq<char>)>) -> Seq<Seq<char>> {
    jobs.map_values(|p: (Seq<char>, Seq<char>)| p.0)
}

/// Each identifier of a list paired with one fixed substring.
pub open spec fn paired_with(ids: Seq<Seq<char>>, ss: Seq<char>) -> Seq<(Seq<char>, Seq<char>)> {
    ids.map_values(|id: Seq<char>| (id, ss))
}

/// The planner's layout for the entries before `e`: the job list is the
/// concatenation, entry by entry, of one job per identifier of each entry
/// whose value shares a span with the path, all jobs of one entry carrying
/// one substring that is a longest common substring of the path and that
/// same entry's value.
pub open spec fn planned_jobs_upto(
    path: Seq<char>,
    dict: DictView,
    e: int,
    jobs: Seq<(Seq<char>, Seq<char>)>,
) -> bool
    decreases e,
{
    if e <= 0 {
        jobs.len() == 0
    } else if shares_span(path, dict[e - 1].0) {
        let m = dict[e - 1].1.len() as int;
        &&& jobs.len() >= m
        &&& (exists|ss: Seq<char>|
            #[trigger] is_longest_common(path, dict[e - 1].0, ss) && jobs.skip(jobs.len() - m)
                == paired_with(dict[e - 1].1, ss))
        &&& planned_jobs_upto(path, dict, e - 1, jobs.take(jobs.len() - m))
    } else {
        planned_jobs_upto(path, dict, e - 1, jobs)
    }
}

/// The planner's layout over the whole dictionary.
pub open spec fn planned_jobs(
    path: Seq<char>,
    dict: DictView,
    jobs: Seq<(Seq<char>, Seq<char>)>,
) -> bool {
    planned_jobs_upto(path, dict, dict.len() as int, jobs)
}

/// Every job's substring is a longest common substring of the path and the
/// value of an entry listing the job's identifier: the span the formatter
/// later slices out of that value.
pub open spec fn jobs_substrings_longest(
    path: Seq<char>,
    dict: DictView,
    jobs: Seq<(Seq<char>, Seq<char>)>,
) -> bool
    decreases jobs.len(),
{
    jobs.len() == 0 || (jobs_substrings_longest(path, dict, jobs.drop_last()) && exists|e: int|
        0 <= e < dict.len() && #[trigger] dict[e].1.contains(jobs.last().0) && is_longest_common(
            path,
            dict[e].0,
            jobs.last().1,
        ))
}

/// Reading the pinned-substring fact back out for one job of the list.
pub proof fn lemma_jobs_substrings_longest_index(
    path: Seq<char>,
    dict: DictView,
    jobs: Seq<(Seq<char>, Seq<char>)>,
    j: int,
)
    requires
        jobs_substrings_longest(path, dict, jobs),
        0 <= j < jobs.len(),
    ensures
        exists|e: int|
            0 <= e < dict.len() && #[trigger] dict[e].1.contains(jobs[j].0) && is_longest_common(
                path,
                dict[e].0,
                jobs[j].1,
            ),
    decreases jobs.len(),
{
    if j == jobs.len() - 1 {
        assert(jobs.last() == jobs[j]);
    } else {
        assert(jobs.drop_last()[j] == jobs[j]);
        lemma_jobs_substrings_longest_index(path, dict, jobs.drop_last(), j);
    }
}

/// A long common block stays common when cut short.
proof fn lemma_common_shrink(a: Seq<char>, b: Seq<char>, i: int, j: int, l: int, l2: int)
    requires
        common_at(a, b, i, j, l),
        0 <= l2 <= l,
    ensures
        common_at(a, b, i, j, l2),
{
    assert(a.subrange(i, i + l2) =~= a.subrange(i, i + l).subrange(0, l2));
    assert(b.subrange(j, j + l2) =~= b.subrange(j, j + l).subrange(0, l2));
}

/// Scans the dictionary for values sharing a long-enough substring with the
/// target path and lays out one job per identifier of each such value.
pub fn plan_jobs(path: &str, environment: &Dictionary) -> (r: Vec<Job>)
    ensures
        jobs_wf(environment@, jobs_view(r@)),
        jobs_substrings_longest(path@, environment@, jobs_view(r@)),
        planned_jobs(path@, environment@, jobs_view(r@)),
        forall|j: int|
            0 <= j < r@.len() ==> (#[trigger] jobs_view(r@)[j]).1.len() >= 3 && exists|i: int|
                occurs_at(path@, jobs_view(r@)[j].1, i),
        ids_of(jobs_view(r@)) == planned_ids(path@, environment@, 0),
{
    let ghost d = environment@;
    let n = environment.len();
    let mut out: Vec<Job> = Vec::new();
    let mut e: usize = 0;
    proof {
        assert(jobs_view(out@) =~= Seq::<(Seq<char>, Seq<char>)>::empty());
        assert(ids_of(jobs_view(out@)) =~= Seq::<Seq<char>>::empty());
        assert(ids_of(jobs_view(out@)) + planned_ids(path@, d, 0) =~= planned_ids(path@, d, 0));
        assert(planned_jobs_upto(path@, d, 0, jobs_view(out@)));
    }
    while e < n
        invariant
            d == environment@,
            n == d.len(),
            0 <= e <= n,
            jobs_wf(d, jobs_view(out@)),
            jobs_substrings_longest(path@, d, jobs_view(out@)),
            planned_jobs_upto(path@, d, e as int, jobs_view(out@)),
            forall|j: int|
                0 <= j < out@.len() ==> (#[trigger] jobs_view(out@)[j]).1.len() >= 3 && exists|
                    i: int,
                |
                    occurs_at(path@, jobs_view(out@)[j].1, i),
            planned_ids(path@, d, 0) == ids_of(jobs_view(out@)) + planned_ids(
                path@,
                d,
                e as int,
            ),
        decreases n - e,
    {
        let value = environment.value_at(e);
        let ss = crate::substring::longest_common(path, value.as_str());
        let sl = ss.unicode_len();
        if sl > 2 {
            proof {
                let (i0, j0) = choose|i0: int, j0: int|
                    #[trigger] common_at(path@, d[e as int].0, i0, j0, ss@.len() as int) && ss@
                        == path@.subrange(i0, i0 + ss@.len());
                lemma_common_shrink(path@, d[e as int].0, i0, j0, ss@.len() as int, 3);
                assert(shares_span(path@, d[e as int].0));
                // the substring occurs in the value, so the formatter's lookup succeeds
                assert(d[e as int].0.subrange(j0, j0 + ss@.len()) == ss@);
                assert(occurs_at(d[e as int].0, ss@, j0));
                crate::text::lemma_find_from_spec(d[e as int].0, ss@, 0);
                assert(find_from(d[e as int].0, ss@, 0) is Some);
                assert(occurs_at(path@, ss@, i0));
                assert(is_longest_common(path@, d[e as int].0, ss@));
            }
            let ids = environment.ids_at(e);
            let m = ids.len();
            let ghost base = out@.len();
            let ghost base_ids = ids_of(jobs_view(out@));
            let ghost jv_base = jobs_view(out@);
            let mut x: usize = 0;
            proof {
                assert(d[e as int].1.take(0) =~= Seq::<Seq<char>>::empty());
                assert(base_ids + d[e as int].1.take(0) =~= base_ids);
                assert(jv_base.take(base as int) =~= jv_base);
                assert(jv_base.skip(base as int) =~= Seq::<(Seq<char>, Seq<char>)>::empty());
                assert(paired_with(d[e as int].1.take(0), ss@) =~= Seq::<(
                    Seq<char>,
                    Seq<char>,
                )>::empty());
            }
            while x < m
                invariant
                    d == environment@,
                    n == d.len(),
                    0 <= e < n,
                    ids.deep_view() == d[e as int].1,
                    m == d[e as int].1.len(),
                    m == ids@.len(),
                    0 <= x <= m,
                    ss@.len() >= 3,
                    find_from(d[e as int].0, ss@, 0) is Some,
                    exists|i: int| occurs_at(path@, ss@, i),
                    is_longest_common(path@, d[e as int].0, ss@),
                    shares_span(path@, d[e as int].0),
                    jobs_wf(d, jobs_view(out@)),
                    jobs_substrings_longest(path@, d, jobs_view(out@)),
                    planned_jobs_upto(path@, d, e as int, jv_base),
                    jobs_view(out@).take(base as int) == jv_base,
                    jobs_view(out@).skip(base as int) == paired_with(
                        d[e as int].1.take(x as int),
                        ss@,
                    ),
                    forall|j: int|
                        0 <= j < out@.len() ==> (#[trigger] jobs_view(out@)[j]).1.len() >= 3
                            && exists|i: int| occurs_at(path@, jobs_view(out@)[j].1, i),
                    out@.len() == base + x,
                    ids_of(jobs_view(out@)) == base_ids + d[e as int].1.take(x as int),
                decreases m - x,
            {
                let ghost jv0 = jobs_view(out@);
                let job = Job { identifier: ids[x].clone(), substring: ss.clone() };
                let ghost job_view = job@;
                proof {
                    assert(job_view.0 == d[e as int].1[x as int]);
                    assert(d[e as int].1.contains(job_view.0));
                }
                out.push(job);
                proof {
                    assert(jobs_view(out@) =~= jv0.push(job_view));
                    let jv1 = jobs_view(out@);
                    assert forall|j: int|
                        0 <= j < jv1.len() implies (#[trigger] jv1[j]).1.len() >= 1 && exists|
                        e2: int,
                    |
                        0 <= e2 < d.len() && #[trigger] d[e2].1.contains(jv1[j].0) && (find_from(
                            d[e2].0,
                            jv1[j].1,
                            0,
                        ) is Some) by {
                        if j < jv0.len() {
                            assert(jv1[j] == jv0[j]);
                            assert((jv0[j]).1.len() >= 1);
                        } else {
                            assert(jv1[j] == job_view);
                            assert(d[e as int].1.contains(jv1[j].0));
                            assert(find_from(d[e as int].0, jv1[j].1, 0) is Some);
                        }
                    }
                    assert(jobs_substrings_longest(path@, d, jv1)) by {
                        assert(jv1.drop_last() =~= jv0);
                        assert(jv1.last() == job_view);
                        assert(d[e as int].1.contains(job_view.0));
                        assert(is_longest_common(path@, d[e as int].0, job_view.1));
                    }
                    assert(jv1.take(base as int) =~= jv0.take(base as int));
                    assert(jv1.skip(base as int) =~= jv0.skip(base as int).push(job_view));
                    assert(job_view == (d[e as int].1[x as int], ss@));
                    assert(paired_with(d[e as int].1.take(x + 1), ss@) =~= paired_with(
                        d[e as int].1.take(x as int),
                        ss@,
                    ).push((d[e as int].1[x as int], ss@)));
                    assert(jv1.skip(base as int) == paired_with(d[e as int].1.take(x + 1), ss@));
                    assert(ids_of(jobs_view(out@)) =~= ids_of(jv0).push(job_view.0));
                    assert(d[e as int].1.take(x + 1) =~= d[e as int].1.take(x as int).push(
                        d[e as int].1[x as int],
                    ));
                    assert(base_ids + d[e as int].1.take(x + 1) =~= (base_ids + d[e as int].1.take(
                        x as int,
                    )).push(d[e as int].1[x as int]));
                }
                x += 1;
            }
            proof {
                assert(d[e as int].1.take(m as int) =~= d[e as int].1);
                let jvn = jobs_view(out@);
                assert(paired_with(d[e as int].1.take(m as int), ss@) == paired_with(
                    d[e as int].1,
                    ss@,
                ));
                assert(jvn.len() == base + m);
                assert(jvn.skip(jvn.len() - m) == paired_with(d[e as int].1, ss@));
                assert(jvn.take(jvn.len() - m) == jv_base);
                assert(is_longest_common(path@, d[e as int].0, ss@));
                assert(planned_jobs_upto(path@, d, e + 1, jvn));
            }
        } else {
            proof {
                if shares_span(path@, d[e as int].0) {
                    let (i0, j0) = choose|i0: int, j0: int|
                        common_at(path@, d[e as int].0, i0, j0, 3);
                    assert(!common_at(path@, d[e as int].0, i0, j0, 3));
                }
                assert(planned_ids(path@, d, e as int) == planned_ids(path@, d, e + 1));
                assert(planned_jobs_upto(path@, d, e + 1, jobs_view(out@)));
            }
        }
        e += 1;
    }
    out
}

/// Runs the search over each job in turn and renders every accepted result
/// into its payload line.
pub fn generate(path: &str, environment: &Dictionary, jobs: &Vec<Job>) -> (r: Vec<String>)
    requires
        jobs_wf(environment@, jobs_view(jobs@)),
    ensures
        r.deep_view() == gen_outcomes(path@, environment@, jobs_view(jobs@)),
{
    let ghost d = environment@;
    let ghost jv = jobs_view(jobs@);
    let n = jobs.len();
    let mut out: Vec<String> = Vec::new();
    let mut j: usize = 0;
    proof {
        assert(jv.skip(0) =~= jv);
        assert(out.deep_view() =~= Seq::<Seq<char>>::empty());
        assert(out.deep_view() + gen_outcomes(path@, d, jv) =~= gen_outcomes(path@, d, jv));
    }
    while j < n
        invariant
            d == environment@,
            jv == jobs_view(jobs@),
            n == jv.len(),
            n == jobs@.len(),
            jobs_wf(d, jv),
            0 <= j <= n,
            gen_outcomes(path@, d, jv) == out.deep_view() + gen_outcomes(
                path@,
                d,
                jv.skip(j as int),
            ),
        decreases n - j,
    {
        let ghost odv0 = out.deep_view();
        proof {
            assert(jv.skip(j as int)[0] == jv[j as int]);
            assert(jv.skip(j as int).skip(1) =~= jv.skip(j + 1));
            assert(jv[j as int] == jobs@[j as int]@);
        }
        let outcome = search(&jobs[j], environment);
        if let Some(res) = outcome {
            let ghost id = jobs@[j as int].identifier@;
            let ghost ss = jobs@[j as int].substring@;
            proof {
                lemma_search_from_least(d, id, 1);
                let k = match search_from(d, id, 1) {
                    Some(k) => k,
                    None => 0,
                };
                let pat = pattern_of(id, bits_of(k, id.len()));
                assert(accepted_at(d, id, k));
                assert(resolves(d, id, pat));
                let e_wf = choose|e: int|
                    0 <= e < d.len() && #[trigger] d[e].1.contains(id) && (find_from(
                        d[e].0,
                        ss,
                        0,
                    ) is Some);
                let e_own = choose|e: int| 0 <= e < d.len() && d[e].1.contains(id);
                assert(d[e_own].1.contains(id));
                crate::glob::lemma_unique_owner(d, id, pat, e_own, e_wf);
                assert(res.value@ == d[e_wf].0);
            }
            let line = res.format(path);
            out.push(line);
            proof {
                assert(out.deep_view() =~~= odv0.push(outcome_of(path@, d, jv[j as int])));
                assert(odv0 + (seq![outcome_of(path@, d, jv[j as int])] + gen_outcomes(
                    path@,
                    d,
                    jv.skip(j + 1),
                )) =~= odv0.push(outcome_of(path@, d, jv[j as int])) + gen_outcomes(
                    path@,
                    d,
                    jv.skip(j + 1),
                ));
            }
        } else {
            proof {
                assert(gen_outcomes(path@, d, jv.skip(j as int)) == gen_outcomes(
                    path@,
                    d,
                    jv.skip(j + 1),
                ));
            }
        }
        j += 1;
    }
    proof {
        assert(jv.skip(n as int) =~= Seq::<(Seq<char>, Seq<char>)>::empty());
        assert(gen_outcomes(path@, d, jv.skip(n as int)) =~= Seq::<Seq<char>>::empty());
        assert(out.deep_view() + Seq::<Seq<char>>::empty() =~= out.deep_view());
    }
    out
}

} // verus!
