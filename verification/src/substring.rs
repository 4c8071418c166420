//! The longest common substring of two strings, by the classic dynamic
//! program over common-suffix lengths.

use vstd::prelude::*;
use vstd::string::StrSliceExecFns;
use vstd::string::StringExecFns;
use crate::text::to_chars;

verus! {

/// Whether a block of `l` characters starting at `i` in `a` equals the
/// block starting at `j` in `b`.
pub open spec fn common_at(a: Seq<char>, b: Seq<char>, i: int, j: int, l: int) -> bool {
    0 <= i && 0 <= j && 0 <= l && i + l <= a.len() && j + l <= b.len() && a.subrange(i, i + l)
        == b.subrange(j, j + l)
}

/// The length of the longest common suffix of `a.take(x)` and `b.take(y)`.
pub open spec fn csuf(a: Seq<char>, b: Seq<char>, x: int, y: int) -> nat
    decreases x + y,
{
    if x <= 0 || y <= 0 || x > a.len() || y > b.len() {
        0
    } else if a[x - 1] == b[y - 1] {
        csuf(a, b, x - 1, y - 1) + 1
    } else {
        0
    }
}

proof fn lemma_csuf_bound(a: Seq<char>, b: Seq<char>, x: int, y: int)
    ensures
        csuf(a, b, x, y) <= x || x < 0,
        csuf(a, b, x, y) <= y || y < 0,
    decreases x + y,
{
    if 0 < x <= a.len() && 0 < y <= b.len() && a[x - 1] == b[y - 1] {
        lemma_csuf_bound(a, b, x - 1, y - 1);
    }
}

/// A common block of length `l` ending at `(x, y)` forces a common suffix of
/// at least `l` there.
proof fn lemma_common_to_csuf(a: Seq<char>, b: Seq<char>, i: int, j: int, l: int)
    requires
        common_at(a, b, i, j, l),
    ensures
        csuf(a, b, i + l, j + l) >= l,
    decreases l,
{
    if l > 0 {
        assert(a.subrange(i, i + l)[l - 1] == b.subrange(j, j + l)[l - 1]);
        assert(a[i + l - 1] == b[j + l - 1]);
        assert(a.subrange(i, i + (l - 1)) =~= a.subrange(i, i + l).subrange(0, l - 1));
        assert(b.subrange(j, j + (l - 1)) =~= b.subrange(j, j + l).subrange(0, l - 1));
        lemma_common_to_csuf(a, b, i, j, l - 1);
    }
}

/// A common suffix at `(x, y)` is a common block ending there.
proof fn lemma_csuf_to_common(a: Seq<char>, b: Seq<char>, x: int, y: int)
    requires
        0 <= x <= a.len(),
        0 <= y <= b.len(),
    ensures
        common_at(a, b, x - csuf(a, b, x, y), y - csuf(a, b, x, y), csuf(a, b, x, y) as int),
    decreases x + y,
{
    lemma_csuf_bound(a, b, x, y);
    let c = csuf(a, b, x, y) as int;
    if c == 0 {
        assert(a.subrange(x, x) =~= b.subrange(y, y));
    } else {
        lemma_csuf_to_common(a, b, x - 1, y - 1);
        assert(a[x - 1] == b[y - 1]);
        let c0 = c - 1;
        assert(csuf(a, b, x - 1, y - 1) == c0);
        assert forall|d: int| 0 <= d < c implies #[trigger] a.subrange(x - c, x)[d] == b.subrange(
            y - c,
            y,
        )[d] by {
            if d < c0 {
                assert(a.subrange(x - 1 - c0, x - 1)[d] == b.subrange(y - 1 - c0, y - 1)[d]);
            }
        }
        assert(a.subrange(x - c, x) =~= b.subrange(y - c, y));
    }
}

/// `r` is a longest common substring of `a` and `b`: it occurs in `a`, the
/// same block occurs in `b`, and no longer common block of the two exists.
pub open spec fn is_longest_common(a: Seq<char>, b: Seq<char>, r: Seq<char>) -> bool {
    &&& exists|i: int, j: int|
        #[trigger] common_at(a, b, i, j, r.len() as int) && r == a.subrange(i, i + r.len())
    &&& forall|i: int, j: int, l: int| l > r.len() ==> !common_at(a, b, i, j, l)
}

/// The longest common substring of `a` and `b`: a block of characters that
/// occurs in both, than which no longer one does. Where none is shared, the
/// empty string.
pub fn longest_common(a: &str, b: &str) -> (r: String)
    ensures
        is_longest_common(a@, b@, r@),
{
    let ac = to_chars(a);
    let bc = to_chars(b);
    let n = ac.len();
    let m = bc.len();
    let mut dp: Vec<Vec<usize>> = Vec::new();
    let mut longest: usize = 0;
    let mut x_longest: usize = 0;
    let mut x: usize = 0;
    while x < n
        invariant
            n == a@.len(),
            m == b@.len(),
            ac@ == a@,
            bc@ == b@,
            0 <= x <= n,
            dp@.len() == x,
            forall|x2: int| 0 <= x2 < x ==> #[trigger] dp@[x2]@.len() == m,
            forall|x2: int, y2: int|
                0 <= x2 < x && 0 <= y2 < m ==> #[trigger] dp@[x2]@[y2] == csuf(
                    a@,
                    b@,
                    x2 + 1,
                    y2 + 1,
                ),
            longest == 0 || (x_longest < x && exists|y2: int|
                0 <= y2 < m && #[trigger] csuf(a@, b@, x_longest + 1, y2 + 1) == longest),
            longest <= n,
            x_longest < n || longest == 0,
            forall|x2: int, y2: int|
                0 <= x2 < x && 0 <= y2 < m ==> #[trigger] csuf(a@, b@, x2 + 1, y2 + 1)
                    <= longest,
        decreases n - x,
    {
        let mut row: Vec<usize> = Vec::new();
        let mut y: usize = 0;
        while y < m
            invariant
                n == a@.len(),
                m == b@.len(),
                ac@ == a@,
                bc@ == b@,
                0 <= x < n,
                0 <= y <= m,
                dp@.len() == x,
                forall|x2: int| 0 <= x2 < x ==> #[trigger] dp@[x2]@.len() == m,
                forall|x2: int, y2: int|
                    0 <= x2 < x && 0 <= y2 < m ==> #[trigger] dp@[x2]@[y2] == csuf(
                        a@,
                        b@,
                        x2 + 1,
                        y2 + 1,
                    ),
                row@.len() == y,
                forall|y2: int| 0 <= y2 < y ==> #[trigger] row@[y2] == csuf(a@, b@, x + 1, y2 + 1),
                longest == 0 || (exists|y2: int|
                    0 <= y2 < m && #[trigger] csuf(a@, b@, x_longest + 1, y2 + 1) == longest),
                longest <= n,
                longest == 0 || x_longest <= x,
                x_longest < n || longest == 0,
                forall|x2: int, y2: int|
                    0 <= x2 < x && 0 <= y2 < m ==> #[trigger] csuf(a@, b@, x2 + 1, y2 + 1)
                    <= longest,
                forall|y2: int| 0 <= y2 < y ==> #[trigger] csuf(a@, b@, x + 1, y2 + 1)
                    <= longest,
            decreases m - y,
        {
            if ac[x] == bc[y] {
                let v: usize = if x == 0 || y == 0 {
                    1
                } else {
                    proof {
                        lemma_csuf_bound(a@, b@, x as int, y as int);
                    }
                    dp[x - 1][y - 1] + 1
                };
                proof {
                    assert(v == csuf(a@, b@, x + 1, y + 1));
                }
                row.push(v);
                if v > longest {
                    longest = v;
                    x_longest = x;
                    proof {
                        lemma_csuf_bound(a@, b@, x + 1, y + 1);
                    }
                }
            } else {
                proof {
                    assert(csuf(a@, b@, x + 1, y + 1) == 0);
                }
                row.push(0);
            }
            y += 1;
        }
        dp.push(row);
        x += 1;
    }
    proof {
        if longest == 0 {
            assert(a@.subrange(0, 0) =~= b@.subrange(0, 0));
            assert(common_at(a@, b@, 0, 0, 0));
        }
        assert forall|i: int, j: int, l: int| l > longest implies !common_at(a@, b@, i, j, l) by {
            if common_at(a@, b@, i, j, l) {
                lemma_common_to_csuf(a@, b@, i, j, l);
                assert(csuf(a@, b@, (i + l - 1) + 1, (j + l - 1) + 1) <= longest);
                assert(csuf(a@, b@, i + l, j + l) <= longest);
            }
        }
    }
    if longest == 0 {
        let out = String::new();
        proof {
            assert(out@ =~= a@.subrange(0, 0));
            assert(common_at(a@, b@, 0, 0, out@.len() as int));
        }
        out
    } else {
        let ghost y2 = choose|y2: int|
            0 <= y2 < m && #[trigger] csuf(a@, b@, x_longest + 1, y2 + 1) == longest;
        proof {
            lemma_csuf_bound(a@, b@, x_longest + 1, y2 + 1);
            lemma_csuf_to_common(a@, b@, x_longest + 1, y2 + 1);
        }
        let start = x_longest + 1 - longest;
        let slice = a.substring_char(start, x_longest + 1);
        let out = String::from_str(slice);
        proof {
            assert(out@.len() == longest);
            assert(common_at(a@, b@, start as int, y2 + 1 - longest, out@.len() as int));
            assert(out@ == a@.subrange(start as int, start + out@.len()));
        }
        out
    }
}

} // verus!
