//! The wildcard matcher: `?` consumes exactly one character, `*` consumes
//! zero or more, and a literal must equal the corresponding input character.

use vstd::prelude::*;
use crate::dictionary::Dictionary;
use crate::text::str_eq;
use crate::text::to_chars;

verus! {

/// Wildcard matching, defined by recursion on the pattern and the input.
pub open spec fn glob_match(p: Seq<char>, s: Seq<char>) -> bool
    decreases p.len() + s.len(),
{
    if p.len() == 0 {
        s.len() == 0
    } else if p[0] == '*' {
        glob_match(p.skip(1), s) || (s.len() > 0 && glob_match(p, s.skip(1)))
    } else {
        s.len() > 0 && (p[0] == '?' || p[0] == s[0]) && glob_match(p.skip(1), s.skip(1))
    }
}

proof fn lemma_skip_skip<A>(s: Seq<A>, a: int, b: int)
    requires
        0 <= a,
        0 <= b,
        a + b <= s.len(),
    ensures
        s.skip(a).skip(b) == s.skip(a + b),
{
    assert(s.skip(a).skip(b) =~= s.skip(a + b));
}

/// A leading `*` consumes any prefix: the match holds exactly when the rest
/// of the pattern matches some suffix of the input.
proof fn lemma_star_unfold(p: Seq<char>, s: Seq<char>)
    requires
        p.len() > 0,
        p[0] == '*',
    ensures
        glob_match(p, s) == exists|k: int|
            0 <= k <= s.len() && glob_match(p.skip(1), #[trigger] s.skip(k)),
    decreases s.len(),
{
    if glob_match(p, s) {
        if glob_match(p.skip(1), s) {
            assert(s.skip(0) =~= s);
            assert(glob_match(p.skip(1), s.skip(0)));
        } else {
            lemma_star_unfold(p, s.skip(1));
            let k = choose|k: int|
                0 <= k <= s.skip(1).len() && glob_match(p.skip(1), #[trigger] s.skip(1).skip(k));
            lemma_skip_skip(s, 1, k);
            assert(glob_match(p.skip(1), s.skip(1 + k)));
        }
    }
    if exists|k: int| 0 <= k <= s.len() && glob_match(p.skip(1), #[trigger] s.skip(k)) {
        let k = choose|k: int| 0 <= k <= s.len() && glob_match(p.skip(1), #[trigger] s.skip(k));
        if k == 0 {
            assert(s.skip(0) =~= s);
            assert(glob_match(p, s));
        } else {
            lemma_skip_skip(s, 1, k - 1);
            assert(glob_match(p.skip(1), s.skip(1).skip(k - 1)));
            lemma_star_unfold(p, s.skip(1));
            assert(glob_match(p, s.skip(1)));
            assert(glob_match(p, s));
        }
    }
}

/// Whether every character of a star-free pattern segment fits the input
/// character at the same offset.
pub open spec fn seg_fits(q: Seq<char>, s: Seq<char>, at: int) -> bool {
    forall|d: int| 0 <= d < q.len() ==> q[d] == '?' || q[d] == s[at + d]
}

/// A star-free segment consumes the input character by character: matching
/// `q + rest` means `q` fits the front of the input and `rest` matches what
/// is left.
proof fn lemma_segment(q: Seq<char>, rest: Seq<char>, s: Seq<char>)
    requires
        forall|l: int| 0 <= l < q.len() ==> q[l] != '*',
    ensures
        glob_match(q + rest, s) == (s.len() >= q.len() && seg_fits(q, s, 0) && glob_match(
            rest,
            s.skip(q.len() as int),
        )),
    decreases q.len(),
{
    if q.len() == 0 {
        assert(q + rest =~= rest);
        assert(s.skip(0) =~= s);
    } else {
        let t = q + rest;
        assert(t[0] == q[0]);
        assert(t[0] != '*');
        assert(t.skip(1) =~= q.skip(1) + rest);
        assert(forall|l: int| 0 <= l < q.skip(1).len() ==> q.skip(1)[l] == q[l + 1]);
        if s.len() == 0 {
            assert(!glob_match(t, s));
        } else {
            lemma_segment(q.skip(1), rest, s.skip(1));
            if s.len() >= q.len() {
                lemma_skip_skip(s, 1, q.len() - 1);
                assert(s.skip(1).skip(q.len() - 1) == s.skip(q.len() as int));
            }
            // seg_fits chains between q at 0 and q.skip(1) at 0 over s.skip(1)
            if s.len() >= q.len() && seg_fits(q.skip(1), s.skip(1), 0) && (q[0] == '?' || q[0]
                == s[0]) {
                assert forall|d: int| 0 <= d < q.len() implies q[d] == '?' || q[d] == s[d] by {
                    if d > 0 {
                        assert(q.skip(1)[d - 1] == q[d]);
                        assert(s.skip(1)[d - 1] == s[d]);
                    }
                }
            }
            if s.len() >= q.len() && seg_fits(q, s, 0) {
                assert forall|d: int|
                    0 <= d < q.skip(1).len() implies q.skip(1)[d] == '?' || q.skip(1)[d] == s.skip(
                    1,
                )[d] by {
                    assert(q.skip(1)[d] == q[d + 1]);
                    assert(s.skip(1)[d] == s[d + 1]);
                }
            }
        }
    }
}

/// The two-pointer backtracking matcher over character buffers.
fn match_chars(p: &Vec<char>, s: &Vec<char>) -> (r: bool)
    ensures
        r == glob_match(p@, s@),
{
    let n = s.len();
    let m = p.len();
    let mut i: usize = 0;
    let mut j: usize = 0;
    let mut star: Option<usize> = None;
    let mut matched: usize = 0;
    proof {
        assert(p@.skip(0) =~= p@);
        assert(s@.skip(0) =~= s@);
    }
    while i < n
        invariant
            n == s@.len(),
            m == p@.len(),
            0 <= i <= n,
            0 <= j <= m,
            matched <= i,
            star is None ==> glob_match(p@, s@) == glob_match(p@.skip(j as int), s@.skip(i as int)),
            star matches Some(st) ==> {
                &&& 0 <= st < j <= m
                &&& p@[st as int] == '*'
                &&& matched <= i
                &&& i - matched == j - (st + 1)
                &&& (forall|l: int| st < l < j ==> p@[l] != '*')
                &&& seg_fits(p@.subrange(st + 1, j as int), s@, matched as int)
                &&& glob_match(p@, s@) == (glob_match(p@.skip(j as int), s@.skip(i as int))
                    || exists|k: int|
                    matched < k <= n && glob_match(p@.skip(st + 1), #[trigger] s@.skip(k)))
            },
        decreases n - matched, n - i, m - j,
    {
        if j < m && p[j] == '*' {
            proof {
                lemma_star_unfold(p@.skip(j as int), s@.skip(i as int));
                assert(p@.skip(j as int).skip(1) =~= p@.skip(j + 1));
                // (a) matching on from (j, i) is: some k in [i, n] works past the star
                assert forall|k: int|
                    0 <= k <= s@.skip(i as int).len() && glob_match(
                        p@.skip(j + 1),
                        #[trigger] s@.skip(i as int).skip(k),
                    ) implies glob_match(p@.skip(j + 1), s@.skip(i + k)) by {
                    lemma_skip_skip(s@, i as int, k);
                }
                assert forall|k: int|
                    i <= k <= n && glob_match(p@.skip(j + 1), #[trigger] s@.skip(k)) implies
                    glob_match(p@.skip(j as int), s@.skip(i as int)) by {
                    lemma_skip_skip(s@, i as int, k - i);
                    assert(glob_match(p@.skip(j as int).skip(1), s@.skip(i as int).skip(k - i)));
                }
                match star {
                    Some(st) => {
                        // (b) a pending backtrack chance also reaches (j, .) past
                        // the star-free segment, hence some k > i works past the
                        // new star as well.
                        let q = p@.subrange(st + 1, j as int);
                        let ln = q.len() as int;
                        assert forall|k: int|
                            matched < k <= n && glob_match(p@.skip(st + 1), #[trigger] s@.skip(k))
                            implies glob_match(p@, s@) && exists|k2: int|
                            i < k2 <= n && glob_match(
                                p@.skip(j as int),
                                #[trigger] s@.skip(k2),
                            ) by {
                            assert(q + p@.skip(j as int) =~= p@.skip(st + 1));
                            lemma_segment(q, p@.skip(j as int), s@.skip(k));
                            lemma_skip_skip(s@, k, ln);
                            assert(glob_match(p@.skip(j as int), s@.skip(k + ln)));
                            assert(i < k + ln <= n);
                        }
                        // (c) any such k2 is in turn a star-unfold witness at (j, i).
                        assert forall|k2: int|
                            i < k2 <= n && glob_match(p@.skip(j as int), #[trigger] s@.skip(k2))
                            implies glob_match(p@.skip(j as int), s@.skip(i as int)) by {
                            lemma_star_unfold(p@.skip(j as int), s@.skip(k2));
                            let k3 = choose|k3: int|
                                0 <= k3 <= s@.skip(k2).len() && glob_match(
                                    p@.skip(j as int).skip(1),
                                    #[trigger] s@.skip(k2).skip(k3),
                                );
                            lemma_skip_skip(s@, k2, k3);
                            assert(glob_match(p@.skip(j + 1), s@.skip(k2 + k3)));
                            assert(i <= k2 + k3 <= n);
                        }
                    },
                    None => {},
                }
            }
            star = Some(j);
            matched = i;
            j += 1;
            proof {
                assert(p@.subrange(j as int, j as int).len() == 0);
            }
        } else if j < m && (p[j] == '?' || p[j] == s[i]) {
            proof {
                let pj = p@.skip(j as int);
                let si = s@.skip(i as int);
                assert(pj[0] == p@[j as int]);
                assert(si[0] == s@[i as int]);
                assert(pj.skip(1) =~= p@.skip(j + 1));
                assert(si.skip(1) =~= s@.skip(i + 1));
                assert(glob_match(pj, si) == glob_match(p@.skip(j + 1), s@.skip(i + 1)));
                match star {
                    Some(st) => {
                        let q0 = p@.subrange(st + 1, j as int);
                        let q1 = p@.subrange(st + 1, j + 1);
                        assert forall|d: int|
                            0 <= d < q1.len() implies q1[d] == '?' || q1[d] == s@[matched + d] by {
                            if d < q0.len() {
                                assert(q0[d] == q1[d]);
                                assert(q0[d] == '?' || q0[d] == s@[matched + d]);
                            } else {
                                assert(q1[d] == p@[j as int]);
                                assert(matched + d == i);
                            }
                        }
                        assert(forall|l: int| st < l < j + 1 ==> p@[l] != '*');
                    },
                    None => {},
                }
            }
            i += 1;
            j += 1;
        } else {
            proof {
                // The pattern cannot match the input right here.
                let pj = p@.skip(j as int);
                let si = s@.skip(i as int);
                assert(si.len() > 0);
                if j < m {
                    assert(pj[0] == p@[j as int]);
                    assert(pj[0] != '*');
                    assert(!(pj[0] == '?' || pj[0] == si[0]));
                    assert(!glob_match(pj, si));
                } else {
                    assert(pj.len() == 0);
                    assert(!glob_match(pj, si));
                }
            }
            if let Some(index) = star {
                proof {
                    // Retreat: the next resumption point either works at once
                    // or stays among the pending chances.
                    assert(p@.subrange(index + 1, index + 1).len() == 0);
                    let kk = (matched + 1) as int;
                    assert forall|k: int|
                        matched < k <= n && glob_match(p@.skip(index + 1), #[trigger] s@.skip(k))
                        implies glob_match(p@.skip(index + 1), s@.skip(kk)) || (kk < k <= n
                        && glob_match(p@.skip(index + 1), s@.skip(k))) by {
                        assert(k == kk || kk < k);
                    }
                }
                j = index + 1;
                matched += 1;
                i = matched;
            } else {
                return false;
            }
        }
    }
    proof {
        // All input consumed: the pending-star disjunct is empty, since the
        // star-free segment it would have to fit no longer fits.
        match star {
            Some(st) => {
                let q = p@.subrange(st + 1, j as int);
                assert forall|k: int|
                    matched < k <= n implies !glob_match(
                    p@.skip(st + 1),
                    #[trigger] s@.skip(k),
                ) by {
                    assert(q + p@.skip(j as int) =~= p@.skip(st + 1));
                    lemma_segment(q, p@.skip(j as int), s@.skip(k));
                    assert(s@.skip(k).len() == n - k);
                    assert(q.len() == i - matched);
                }
            },
            None => {},
        }
        assert(glob_match(p@, s@) == glob_match(p@.skip(j as int), s@.skip(n as int)));
    }
    // Trailing stars in the pattern are satisfied by the empty rest.
    while j < m && p[j] == '*'
        invariant
            n == s@.len(),
            m == p@.len(),
            0 <= j <= m,
            glob_match(p@, s@) == glob_match(p@.skip(j as int), s@.skip(n as int)),
        decreases m - j,
    {
        proof {
            let pj = p@.skip(j as int);
            let sn = s@.skip(n as int);
            assert(pj[0] == '*');
            assert(pj.skip(1) =~= p@.skip(j + 1));
            assert(glob_match(pj, sn) == glob_match(p@.skip(j + 1), sn));
        }
        j += 1;
    }
    proof {
        let pj = p@.skip(j as int);
        let sn = s@.skip(n as int);
        assert(sn.len() == 0);
        if j == m {
            assert(pj.len() == 0);
            assert(glob_match(pj, sn));
        } else {
            assert(pj[0] == p@[j as int]);
            assert(pj[0] != '*');
            assert(!glob_match(pj, sn));
        }
    }
    j == m
}

/// Whether the wildcard expression matches the whole input string.
pub fn is_match(expression: &str, input: &str) -> (r: bool)
    ensures
        r == glob_match(expression@, input@),
{
    let p = to_chars(expression);
    let s = to_chars(input);
    match_chars(&p, &s)
}

/// A wildcard-free expression matches exactly one string: itself. In
/// particular the literal expression equal to `s` matches `s`.
pub proof fn lemma_literal_match(p: Seq<char>, s: Seq<char>)
    requires
        forall|j: int| 0 <= j < p.len() ==> p[j] != '*' && p[j] != '?',
    ensures
        glob_match(p, s) == (p == s),
    decreases p.len(),
{
    if p.len() == 0 {
        if s.len() == 0 {
            assert(p =~= s);
        }
    } else {
        if s.len() > 0 {
            assert(forall|j: int| 0 <= j < p.skip(1).len() ==> p.skip(1)[j] == p[j + 1]);
            lemma_literal_match(p.skip(1), s.skip(1));
            if glob_match(p, s) {
                assert(p[0] == s[0]);
                assert(p.skip(1) == s.skip(1));
                assert forall|j: int| 0 <= j < p.len() implies p[j] == s[j] by {
                    if j > 0 {
                        assert(p.skip(1)[j - 1] == s.skip(1)[j - 1]);
                    }
                }
                assert(p =~= s);
            }
            if p == s {
                assert(p.skip(1) =~= s.skip(1));
                assert(p[0] == s[0]);
                assert(glob_match(p, s));
            }
        } else {
            assert(!glob_match(p, s));
            assert(p.len() != s.len());
        }
    }
}

/// The shape of a dictionary, as the contracts speak of it: for each entry
/// its value and its identifier list.
pub type DictView = Seq<(Seq<char>, Seq<Seq<char>>)>;

/// How many identifiers of one entry the expression matches.
pub open spec fn entry_matches(ids: Seq<Seq<char>>, expr: Seq<char>) -> nat
    decreases ids.len(),
{
    if ids.len() == 0 {
        0
    } else {
        (if glob_match(expr, ids[0]) {
            1nat
        } else {
            0nat
        }) + entry_matches(ids.skip(1), expr)
    }
}

/// How many identifiers of the whole dictionary the expression matches.
pub open spec fn match_count(dict: DictView, expr: Seq<char>) -> nat
    decreases dict.len(),
{
    if dict.len() == 0 {
        0
    } else {
        entry_matches(dict[0].1, expr) + match_count(dict.skip(1), expr)
    }
}

/// Whether some entry lists this identifier.
pub open spec fn dict_has_id(dict: DictView, id: Seq<char>) -> bool {
    exists|e: int| 0 <= e < dict.len() && dict[e].1.contains(id)
}

/// The uniqueness test: the expression matches exactly one identifier in the
/// whole dictionary, and that identifier is the needle.
pub open spec fn resolves(dict: DictView, needle: Seq<char>, expr: Seq<char>) -> bool {
    match_count(dict, expr) == 1 && glob_match(expr, needle) && dict_has_id(dict, needle)
}

/// The value of an entry listing the needle. Where `resolves` holds, that
/// entry is unique.
pub open spec fn owner_value(dict: DictView, needle: Seq<char>) -> Seq<char> {
    let e = choose|e: int| 0 <= e < dict.len() && dict[e].1.contains(needle);
    dict[e].0
}

spec fn capped(c: nat) -> nat {
    if c < 2 {
        c
    } else {
        2
    }
}

proof fn lemma_entry_matches_push(ids: Seq<Seq<char>>, expr: Seq<char>, id: Seq<char>)
    ensures
        entry_matches(ids.push(id), expr) == entry_matches(ids, expr) + (if glob_match(expr, id) {
            1nat
        } else {
            0nat
        }),
    decreases ids.len(),
{
    if ids.len() == 0 {
        assert(ids.push(id)[0] == id);
        assert(ids.push(id).skip(1) =~= Seq::<Seq<char>>::empty());
        assert(entry_matches(ids.push(id).skip(1), expr) == 0);
        assert(entry_matches(ids, expr) == 0);
    } else {
        assert(ids.push(id)[0] == ids[0]);
        assert(ids.push(id).skip(1) =~= ids.skip(1).push(id));
        lemma_entry_matches_push(ids.skip(1), expr, id);
        assert(entry_matches(ids.push(id), expr) == (if glob_match(expr, ids[0]) {
            1nat
        } else {
            0nat
        }) + entry_matches(ids.skip(1).push(id), expr));
    }
}

proof fn lemma_match_count_push(dict: DictView, expr: Seq<char>, entry: (Seq<char>, Seq<Seq<char>>))
    ensures
        match_count(dict.push(entry), expr) == match_count(dict, expr) + entry_matches(
            entry.1,
            expr,
        ),
    decreases dict.len(),
{
    if dict.len() == 0 {
        assert(dict.push(entry)[0] == entry);
        assert(dict.push(entry).skip(1) =~= Seq::<(Seq<char>, Seq<Seq<char>>)>::empty());
        assert(match_count(dict.push(entry).skip(1), expr) == 0);
        assert(match_count(dict, expr) == 0);
    } else {
        assert(dict.push(entry)[0] == dict[0]);
        assert(dict.push(entry).skip(1) =~= dict.skip(1).push(entry));
        lemma_match_count_push(dict.skip(1), expr, entry);
        assert(match_count(dict.push(entry), expr) == entry_matches(dict[0].1, expr) + match_count(
            dict.skip(1).push(entry),
            expr,
        ));
    }
}

proof fn lemma_entry_matches_ge_one(ids: Seq<Seq<char>>, expr: Seq<char>, x: int)
    requires
        0 <= x < ids.len(),
        glob_match(expr, ids[x]),
    ensures
        entry_matches(ids, expr) >= 1,
    decreases x,
{
    if x > 0 {
        assert(ids.skip(1)[x - 1] == ids[x]);
        lemma_entry_matches_ge_one(ids.skip(1), expr, x - 1);
    }
}

proof fn lemma_entry_matches_ge_two(ids: Seq<Seq<char>>, expr: Seq<char>, x1: int, x2: int)
    requires
        0 <= x1 < x2 < ids.len(),
        glob_match(expr, ids[x1]),
        glob_match(expr, ids[x2]),
    ensures
        entry_matches(ids, expr) >= 2,
    decreases x1,
{
    if x1 == 0 {
        assert(ids.skip(1)[x2 - 1] == ids[x2]);
        lemma_entry_matches_ge_one(ids.skip(1), expr, x2 - 1);
    } else {
        assert(ids.skip(1)[x1 - 1] == ids[x1]);
        assert(ids.skip(1)[x2 - 1] == ids[x2]);
        lemma_entry_matches_ge_two(ids.skip(1), expr, x1 - 1, x2 - 1);
    }
}

proof fn lemma_match_count_ge_entry(dict: DictView, expr: Seq<char>, e: int)
    requires
        0 <= e < dict.len(),
    ensures
        match_count(dict, expr) >= entry_matches(dict[e].1, expr),
    decreases e,
{
    if e > 0 {
        assert(dict.skip(1)[e - 1] == dict[e]);
        lemma_match_count_ge_entry(dict.skip(1), expr, e - 1);
    }
}

proof fn lemma_match_count_ge_two_entries(dict: DictView, expr: Seq<char>, e1: int, e2: int)
    requires
        0 <= e1 < e2 < dict.len(),
    ensures
        match_count(dict, expr) >= entry_matches(dict[e1].1, expr) + entry_matches(
            dict[e2].1,
            expr,
        ),
    decreases e1,
{
    if e1 == 0 {
        assert(dict.skip(1)[e2 - 1] == dict[e2]);
        lemma_match_count_ge_entry(dict.skip(1), expr, e2 - 1);
    } else {
        assert(dict.skip(1)[e1 - 1] == dict[e1]);
        assert(dict.skip(1)[e2 - 1] == dict[e2]);
        lemma_match_count_ge_two_entries(dict.skip(1), expr, e1 - 1, e2 - 1);
    }
}

/// With exactly one match in the whole dictionary, the entry listing a
/// matching needle is unique.
pub proof fn lemma_unique_owner(dict: DictView, needle: Seq<char>, expr: Seq<char>, e1: int, e2: int)
    requires
        match_count(dict, expr) == 1,
        glob_match(expr, needle),
        0 <= e1 < dict.len(),
        dict[e1].1.contains(needle),
        0 <= e2 < dict.len(),
        dict[e2].1.contains(needle),
    ensures
        e1 == e2,
{
    if e1 != e2 {
        let x1 = choose|x: int| 0 <= x < dict[e1].1.len() && dict[e1].1[x] == needle;
        let x2 = choose|x: int| 0 <= x < dict[e2].1.len() && dict[e2].1[x] == needle;
        lemma_entry_matches_ge_one(dict[e1].1, expr, x1);
        lemma_entry_matches_ge_one(dict[e2].1, expr, x2);
        if e1 < e2 {
            lemma_match_count_ge_two_entries(dict, expr, e1, e2);
        } else {
            lemma_match_count_ge_two_entries(dict, expr, e2, e1);
        }
        assert(false);
    }
}

/// An accepted expression is a unique locator: where it resolves for the
/// needle, no other identifier anywhere in the dictionary matches it.
pub proof fn lemma_accepted_is_unique_locator(
    dict: DictView,
    needle: Seq<char>,
    expr: Seq<char>,
    e: int,
    x: int,
)
    requires
        resolves(dict, needle, expr),
        0 <= e < dict.len(),
        0 <= x < dict[e].1.len(),
        dict[e].1[x] != needle,
    ensures
        !glob_match(expr, dict[e].1[x]),
{
    if glob_match(expr, dict[e].1[x]) {
        let e0 = choose|e0: int| 0 <= e0 < dict.len() && dict[e0].1.contains(needle);
        let x0 = choose|x0: int| 0 <= x0 < dict[e0].1.len() && dict[e0].1[x0] == needle;
        if e == e0 {
            if x < x0 {
                lemma_entry_matches_ge_two(dict[e].1, expr, x, x0);
            } else {
                lemma_entry_matches_ge_two(dict[e].1, expr, x0, x);
            }
            lemma_match_count_ge_entry(dict, expr, e);
        } else {
            lemma_entry_matches_ge_one(dict[e].1, expr, x);
            lemma_entry_matches_ge_one(dict[e0].1, expr, x0);
            if e < e0 {
                lemma_match_count_ge_two_entries(dict, expr, e, e0);
            } else {
                lemma_match_count_ge_two_entries(dict, expr, e0, e);
            }
        }
        assert(false);
    }
}

/// The uniqueness oracle: `expression` resolves to a dictionary value
/// exactly when it matches `needle` and nothing else in the whole
/// dictionary; the value returned is the one owning `needle`.
pub fn matches(needle: &str, expression: &str, env: &Dictionary) -> (r: Option<String>)
    ensures
        r.is_some() == resolves(env@, needle@, expression@),
        r matches Some(v) ==> v@ == owner_value(env@, needle@) && exists|e: int|
            0 <= e < env@.len() && env@[e].1.contains(needle@) && env@[e].0 == v@,
{
    let ghost d = env@;
    let ghost x = expression@;
    let n = env.len();
    let mut total: usize = 0;
    let mut found: Option<String> = None;
    let mut e: usize = 0;
    while e < n
        invariant
            d == env@,
            x == expression@,
            n == d.len(),
            0 <= e <= n,
            total == capped(match_count(d.take(e as int), x)),
            found matches Some(v) ==> glob_match(x, needle@) && exists|e2: int|
                0 <= e2 < d.len() && d[e2].1.contains(needle@) && d[e2].0 == v@,
            found is None ==> !(glob_match(x, needle@) && exists|e2: int|
                0 <= e2 < e && #[trigger] d[e2].1.contains(needle@)),
        decreases n - e,
    {
        let ids = env.ids_at(e);
        let m = ids.len();
        let mut xx: usize = 0;
        while xx < m
            invariant
                d == env@,
                x == expression@,
                n == d.len(),
                0 <= e < n,
                ids.deep_view() == d[e as int].1,
                m == d[e as int].1.len(),
                m == ids@.len(),
                0 <= xx <= m,
                total == capped(
                    match_count(d.take(e as int), x) + entry_matches(
                        d[e as int].1.take(xx as int),
                        x,
                    ),
                ),
                found matches Some(v) ==> glob_match(x, needle@) && exists|e2: int|
                    0 <= e2 < d.len() && d[e2].1.contains(needle@) && d[e2].0 == v@,
                found is None ==> !(glob_match(x, needle@) && exists|e2: int|
                    0 <= e2 < e && #[trigger] d[e2].1.contains(needle@)),
                found is None ==> !(glob_match(x, needle@) && d[e as int].1.take(
                    xx as int,
                ).contains(needle@)),
            decreases m - xx,
        {
            let id = &ids[xx];
            proof {
                assert(id@ == d[e as int].1[xx as int]);
            }
            let hit = is_match(expression, id.as_str());
            if hit {
                if total < 2 {
                    total += 1;
                }
                if found.is_none() && str_eq(id.as_str(), needle) {
                    found = Some(env.value_at(e).clone());
                    proof {
                        assert(d[e as int].1.contains(needle@));
                    }
                }
            }
            proof {
                let idsv = d[e as int].1;
                assert(idsv.take(xx + 1) =~= idsv.take(xx as int).push(idsv[xx as int]));
                lemma_entry_matches_push(idsv.take(xx as int), x, idsv[xx as int]);
                if found is None {
                    assert forall|y: int|
                        0 <= y < xx + 1 && #[trigger] idsv.take(xx + 1)[y] == needle@ implies
                        !glob_match(x, needle@) by {
                        if y < xx {
                            assert(idsv.take(xx as int)[y] == needle@);
                            assert(idsv.take(xx as int).contains(needle@));
                        } else {
                            assert(idsv[xx as int] == needle@);
                        }
                    }
                    if glob_match(x, needle@) && idsv.take(xx + 1).contains(needle@) {
                        let y = choose|y: int|
                            0 <= y < idsv.take(xx + 1).len() && #[trigger] idsv.take(xx + 1)[y]
                                == needle@;
                        assert(false);
                    }
                }
            }
            xx += 1;
        }
        proof {
            assert(d[e as int].1.take(m as int) =~= d[e as int].1);
            assert(d.take(e + 1) =~= d.take(e as int).push(d[e as int]));
            lemma_match_count_push(d.take(e as int), x, d[e as int]);
            if found is None {
                assert forall|e2: int|
                    0 <= e2 < e + 1 && #[trigger] d[e2].1.contains(needle@) implies !glob_match(
                    x,
                    needle@,
                ) by {}
            }
        }
        e += 1;
    }
    proof {
        assert(d.take(n as int) =~= d);
        if total == 1 {
            match &found {
                Some(v) => {
                    assert(dict_has_id(d, needle@));
                    let e1 = choose|e2: int|
                        0 <= e2 < d.len() && d[e2].1.contains(needle@) && d[e2].0 == v@;
                    let e0 = choose|e2: int| 0 <= e2 < d.len() && d[e2].1.contains(needle@);
                    lemma_unique_owner(d, needle@, x, e0, e1);
                    assert(v@ == owner_value(d, needle@));
                },
                None => {
                    if dict_has_id(d, needle@) && glob_match(x, needle@) {
                        assert(false);
                    }
                },
            }
        }
    }
    if total == 1 {
        found
    } else {
        None
    }
}

} // verus!
