//! Small verified helpers over strings and character buffers.

use vstd::prelude::*;
use vstd::string::StrSliceExecFns;
use vstd::string::StringExecFns;

verus! {

/// Relies on String::push: appends exactly one character.
#[verifier::external_body]
pub(crate) fn push_char(s: &mut String, c: char)
    ensures
        final(s)@ == old(s)@.push(c),
{
    s.push(c);
}

/// The characters of a string slice, as a vector.
pub fn to_chars(s: &str) -> (r: Vec<char>)
    ensures
        r@ == s@,
{
    let n = s.unicode_len();
    let mut r: Vec<char> = Vec::new();
    let mut i: usize = 0;
    while i < n
        invariant
            0 <= i <= n,
            n == s@.len(),
            r@ == s@.take(i as int),
        decreases n - i,
    {
        let c = s.get_char(i);
        r.push(c);
        proof {
            assert(s@.take(i + 1) =~= s@.take(i as int).push(s@[i as int]));
        }
        i += 1;
    }
    proof {
        assert(s@.take(n as int) =~= s@);
    }
    r
}

/// A string holding exactly the given characters.
pub fn chars_to_string(v: &Vec<char>) -> (r: String)
    ensures
        r@ == v@,
{
    let mut r = String::new();
    let mut i: usize = 0;
    while i < v.len()
        invariant
            0 <= i <= v@.len(),
            r@ == v@.take(i as int),
        decreases v@.len() - i,
    {
        push_char(&mut r, v[i]);
        proof {
            assert(v@.take(i + 1) =~= v@.take(i as int).push(v@[i as int]));
        }
        i += 1;
    }
    proof {
        assert(v@.take(v@.len() as int) =~= v@);
    }
    r
}

/// Appends every character of `src` to `dst`.
pub fn append_chars(dst: &mut Vec<char>, src: &Vec<char>)
    ensures
        final(dst)@ == old(dst)@ + src@,
{
    let mut i: usize = 0;
    while i < src.len()
        invariant
            0 <= i <= src@.len(),
            dst@ == old(dst)@ + src@.take(i as int),
        decreases src@.len() - i,
    {
        dst.push(src[i]);
        proof {
            assert(src@.take(i + 1) =~= src@.take(i as int).push(src@[i as int]));
            assert(old(dst)@ + src@.take(i + 1) =~= (old(dst)@ + src@.take(i as int)).push(
                src@[i as int],
            ));
        }
        i += 1;
    }
    proof {
        assert(src@.take(src@.len() as int) =~= src@);
    }
}

/// Whether `pat` occurs in `s` starting at position `i`.
pub open spec fn occurs_at(s: Seq<char>, pat: Seq<char>, i: int) -> bool {
    0 <= i && i + pat.len() <= s.len() && s.subrange(i, i + pat.len()) == pat
}

/// The first position at or after `i` where `pat` occurs in `s`.
pub open spec fn find_from(s: Seq<char>, pat: Seq<char>, i: int) -> Option<int>
    decreases s.len() - i,
{
    if pat.len() <= 0 || i > s.len() - pat.len() {
        None
    } else if occurs_at(s, pat, i) {
        Some(i)
    } else {
        find_from(s, pat, i + 1)
    }
}

/// `find_from` finds the leftmost occurrence at or after `i`, or tells that
/// there is none.
pub proof fn lemma_find_from_spec(s: Seq<char>, pat: Seq<char>, i: int)
    requires
        pat.len() >= 1,
    ensures
        find_from(s, pat, i) matches Some(j) ==> i <= j && occurs_at(s, pat, j) && forall|k: int|
            i <= k < j ==> !occurs_at(s, pat, k),
        find_from(s, pat, i) is None ==> forall|k: int| i <= k ==> !occurs_at(s, pat, k),
    decreases s.len() - i,
{
    if pat.len() <= 0 || i > s.len() - pat.len() {
        assert forall|k: int| i <= k implies !occurs_at(s, pat, k) by {}
    } else if occurs_at(s, pat, i) {
    } else {
        lemma_find_from_spec(s, pat, i + 1);
    }
}

/// `s` from position `i` on, with every occurrence of `pat` replaced by
/// `sub`, scanning left to right without overlap.
pub open spec fn replace_from(s: Seq<char>, pat: Seq<char>, sub: Seq<char>, i: int) -> Seq<char>
    decreases s.len() - i,
{
    if pat.len() <= 0 || i < 0 || i > s.len() - pat.len() {
        if 0 <= i <= s.len() {
            s.skip(i)
        } else {
            Seq::empty()
        }
    } else if occurs_at(s, pat, i) {
        sub + replace_from(s, pat, sub, i + pat.len())
    } else {
        seq![s[i]] + replace_from(s, pat, sub, i + 1)
    }
}

/// The pieces of `s` from position `i` on between occurrences of `pat`;
/// `cur` is the piece collected so far.
pub open spec fn split_from(s: Seq<char>, pat: Seq<char>, i: int, cur: Seq<char>) -> Seq<Seq<char>>
    decreases s.len() - i,
{
    if pat.len() <= 0 || i < 0 || i > s.len() - pat.len() {
        if 0 <= i <= s.len() {
            seq![cur + s.skip(i)]
        } else {
            seq![cur]
        }
    } else if occurs_at(s, pat, i) {
        seq![cur] + split_from(s, pat, i + pat.len(), Seq::empty())
    } else {
        split_from(s, pat, i + 1, cur.push(s[i]))
    }
}

/// The pieces of `s` between occurrences of `pat`, as `str::split` cuts
/// them: empty pieces stand for leading, trailing and adjacent occurrences.
pub open spec fn split_by(s: Seq<char>, pat: Seq<char>) -> Seq<Seq<char>> {
    split_from(s, pat, 0, Seq::empty())
}

/// Whether `pat` occurs in `s` at position `i`, checked character-wise.
fn occurs_check(s: &Vec<char>, pat: &Vec<char>, i: usize) -> (r: bool)
    requires
        i + pat@.len() <= s@.len(),
    ensures
        r == occurs_at(s@, pat@, i as int),
{
    let m = pat.len();
    let n = s.len();
    let mut d: usize = 0;
    while d < m
        invariant
            0 <= d <= m,
            m == pat@.len(),
            n == s@.len(),
            i + m <= n,
            forall|l: int| 0 <= l < d ==> s@[i + l] == pat@[l],
        decreases m - d,
    {
        if s[i + d] != pat[d] {
            proof {
                assert(s@.subrange(i as int, i + pat@.len())[d as int] != pat@[d as int]);
            }
            return false;
        }
        d += 1;
    }
    proof {
        assert(s@.subrange(i as int, i + pat@.len()) =~= pat@);
    }
    true
}

/// The leftmost occurrence of `pat` in `s`, if any.
pub fn find_sub(s: &Vec<char>, pat: &Vec<char>) -> (r: Option<usize>)
    requires
        pat@.len() >= 1,
    ensures
        r matches Some(j) ==> find_from(s@, pat@, 0) == Some(j as int),
        r is None ==> find_from(s@, pat@, 0) is None,
{
    if s.len() < pat.len() {
        proof {
            lemma_find_from_spec(s@, pat@, 0);
        }
        return None;
    }
    let last = s.len() - pat.len();
    let mut i: usize = 0;
    while i <= last
        invariant
            pat@.len() >= 1,
            last == s@.len() - pat@.len(),
            last <= usize::MAX - 1,
            0 <= i <= last + 1,
            find_from(s@, pat@, 0) == find_from(s@, pat@, i as int),
        decreases last + 1 - i,
    {
        if occurs_check(s, pat, i) {
            return Some(i);
        }
        i += 1;
    }
    None
}

/// `s` with every occurrence of `pat` replaced by `sub`.
pub fn replace_chars(s: &Vec<char>, pat: &Vec<char>, sub: &Vec<char>) -> (r: Vec<char>)
    requires
        pat@.len() >= 1,
    ensures
        r@ == replace_from(s@, pat@, sub@, 0),
{
    let n = s.len();
    let m = pat.len();
    let mut out: Vec<char> = Vec::new();
    let mut i: usize = 0;
    while i < n
        invariant
            n == s@.len(),
            m == pat@.len(),
            m >= 1,
            0 <= i <= n,
            replace_from(s@, pat@, sub@, 0) == out@ + replace_from(s@, pat@, sub@, i as int),
        decreases n - i,
    {
        if m <= n && i <= n - m && occurs_check(s, pat, i) {
            let ghost out0 = out@;
            append_chars(&mut out, sub);
            proof {
                assert(replace_from(s@, pat@, sub@, i as int) == sub@ + replace_from(
                    s@,
                    pat@,
                    sub@,
                    i + m,
                ));
                assert(out@ + replace_from(s@, pat@, sub@, i + m) =~= out0 + (sub@ + replace_from(
                    s@,
                    pat@,
                    sub@,
                    i + m,
                )));
            }
            i += m;
        } else {
            let ghost out0 = out@;
            out.push(s[i]);
            proof {
                assert(s@.skip(i as int) =~= seq![s@[i as int]] + s@.skip(i + 1));
                assert(replace_from(s@, pat@, sub@, i as int) == seq![s@[i as int]] + replace_from(
                    s@,
                    pat@,
                    sub@,
                    i + 1,
                ));
                assert(out@ + replace_from(s@, pat@, sub@, i + 1) =~= out0 + (seq![s@[i as int]]
                    + replace_from(s@, pat@, sub@, i + 1)));
            }
            i += 1;
        }
    }
    proof {
        assert(replace_from(s@, pat@, sub@, n as int) =~= s@.skip(n as int));
        assert(s@.skip(n as int) =~= Seq::<char>::empty());
        assert(out@ + Seq::<char>::empty() =~= out@);
    }
    out
}

/// The pieces of `s` between occurrences of `pat`.
pub fn split_chars(s: &Vec<char>, pat: &Vec<char>) -> (r: Vec<Vec<char>>)
    requires
        pat@.len() >= 1,
    ensures
        r.deep_view() == split_by(s@, pat@),
{
    let n = s.len();
    let m = pat.len();
    let mut out: Vec<Vec<char>> = Vec::new();
    let mut cur: Vec<char> = Vec::new();
    let mut i: usize = 0;
    while i < n
        invariant
            n == s@.len(),
            m == pat@.len(),
            m >= 1,
            0 <= i <= n,
            split_by(s@, pat@) == out.deep_view() + split_from(s@, pat@, i as int, cur@),
        decreases n - i,
    {
        if m <= n && i <= n - m && occurs_check(s, pat, i) {
            let ghost dv0 = out.deep_view();
            let ghost cur0 = cur@;
            let piece = cur;
            cur = Vec::new();
            out.push(piece);
            proof {
                assert(out.deep_view() =~~= dv0.push(cur0));
                assert(split_from(s@, pat@, i as int, cur0) == seq![cur0] + split_from(
                    s@,
                    pat@,
                    i + m,
                    Seq::empty(),
                ));
                assert(dv0 + (seq![cur0] + split_from(s@, pat@, i + m, Seq::empty())) =~= dv0.push(
                    cur0,
                ) + split_from(s@, pat@, i + m, Seq::empty()));
            }
            i += m;
        } else {
            let ghost cur0 = cur@;
            cur.push(s[i]);
            proof {
                if i as int > s@.len() - pat@.len() {
                    assert(cur0 + s@.skip(i as int) =~= cur0.push(s@[i as int]) + s@.skip(i + 1));
                    assert(split_from(s@, pat@, i as int, cur0) =~~= split_from(
                        s@,
                        pat@,
                        i + 1,
                        cur0.push(s@[i as int]),
                    ));
                }
            }
            i += 1;
        }
    }
    let ghost dv0 = out.deep_view();
    let ghost cur0 = cur@;
    proof {
        assert(s@.skip(n as int) =~= Seq::<char>::empty());
        assert(cur0 + s@.skip(n as int) =~= cur0);
        assert(split_from(s@, pat@, n as int, cur0) =~= seq![cur0]);
    }
    out.push(cur);
    proof {
        assert(out.deep_view() =~~= dv0.push(cur0));
        assert(dv0 + seq![cur0] =~= dv0.push(cur0));
    }
    out
}

/// The decimal digit character for `d`.
pub open spec fn digit(d: nat) -> char {
    if d == 0 {
        '0'
    } else if d == 1 {
        '1'
    } else if d == 2 {
        '2'
    } else if d == 3 {
        '3'
    } else if d == 4 {
        '4'
    } else if d == 5 {
        '5'
    } else if d == 6 {
        '6'
    } else if d == 7 {
        '7'
    } else if d == 8 {
        '8'
    } else {
        '9'
    }
}

/// The decimal digits of `v`, most significant first.
pub open spec fn decimal(v: nat) -> Seq<char>
    decreases v,
{
    if v < 10 {
        seq![digit(v)]
    } else {
        decimal(v / 10) + seq![digit(v % 10)]
    }
}

fn digit_char(d: usize) -> (r: char)
    requires
        d < 10,
    ensures
        r == digit(d as nat),
{
    if d == 0 {
        '0'
    } else if d == 1 {
        '1'
    } else if d == 2 {
        '2'
    } else if d == 3 {
        '3'
    } else if d == 4 {
        '4'
    } else if d == 5 {
        '5'
    } else if d == 6 {
        '6'
    } else if d == 7 {
        '7'
    } else if d == 8 {
        '8'
    } else {
        '9'
    }
}

/// The decimal digits of `v`.
pub fn decimal_chars(v: usize) -> (r: Vec<char>)
    ensures
        r@ == decimal(v as nat),
{
    let mut rev: Vec<char> = Vec::new();
    let mut n = v;
    while n >= 10
        invariant
            decimal(v as nat) == decimal(n as nat) + rev@.reverse(),
        decreases n,
    {
        rev.push(digit_char(n % 10));
        proof {
            assert(rev@.reverse() =~= seq![digit((n % 10) as nat)] + rev@.drop_last().reverse());
            assert(decimal(n as nat) == decimal((n / 10) as nat) + seq![digit((n % 10) as nat)]);
            assert(decimal((n / 10) as nat) + (seq![digit((n % 10) as nat)]
                + rev@.drop_last().reverse()) =~= (decimal((n / 10) as nat) + seq![
                digit((n % 10) as nat),
            ]) + rev@.drop_last().reverse());
        }
        n = n / 10;
    }
    rev.push(digit_char(n));
    proof {
        assert(rev@.reverse() =~= seq![digit(n as nat)] + rev@.drop_last().reverse());
        assert(decimal(v as nat) =~= rev@.reverse());
    }
    let mut out: Vec<char> = Vec::new();
    let mut k: usize = rev.len();
    while k > 0
        invariant
            0 <= k <= rev@.len(),
            out@ == rev@.reverse().take(rev@.len() - k),
        decreases k,
    {
        k -= 1;
        out.push(rev[k]);
        proof {
            assert(rev@.reverse()[rev@.len() - k - 1] == rev@[k as int]);
            assert(rev@.reverse().take(rev@.len() - k) =~= rev@.reverse().take(
                rev@.len() - k - 1,
            ).push(rev@.reverse()[rev@.len() - k - 1]));
        }
    }
    proof {
        assert(rev@.reverse().take(rev@.len() as int) =~= rev@.reverse());
    }
    out
}

/// Character-wise string equality.
pub fn str_eq(a: &str, b: &str) -> (r: bool)
    ensures
        r == (a@ == b@),
{
    let n = a.unicode_len();
    if n != b.unicode_len() {
        return false;
    }
    let mut i: usize = 0;
    while i < n
        invariant
            0 <= i <= n,
            n == a@.len(),
            n == b@.len(),
            forall|j: int| 0 <= j < i ==> a@[j] == b@[j],
        decreases n - i,
    {
        if a.get_char(i) != b.get_char(i) {
            return false;
        }
        i += 1;
    }
    proof {
        assert(a@ =~= b@);
    }
    true
}

} // verus!
