//! The pattern synthesizer: turns one selector assignment over an
//! identifier's positions into a candidate wildcard expression.

use vstd::prelude::*;
use vstd::string::StrSliceExecFns;
use crate::bitfield::BitField;
use crate::bitfield::bit_at;
use crate::text::push_char;

verus! {

/// The token emitted at position `x`: the literal character where selected;
/// `?` for an isolated one-wide gap right after a literal run; a single `*`
/// at the last position of a wider gap; nothing inside a wider gap.
pub open spec fn token_at(c: Seq<char>, b: Seq<bool>, x: int) -> Seq<char>
    recommends
        0 <= x < c.len(),
        b.len() == c.len(),
{
    if b[x] {
        seq![c[x]]
    } else if x > 0 && b[x - 1] && (x == c.len() - 1 || b[x + 1]) {
        seq!['?']
    } else if x == c.len() - 1 || b[x + 1] {
        seq!['*']
    } else {
        Seq::empty()
    }
}

/// The expression synthesized over the first `k` positions.
pub open spec fn pattern_prefix(c: Seq<char>, b: Seq<bool>, k: int) -> Seq<char>
    decreases k,
{
    if k <= 0 {
        Seq::empty()
    } else {
        pattern_prefix(c, b, k - 1) + token_at(c, b, k - 1)
    }
}

/// The expression synthesized from an identifier and an assignment.
pub open spec fn pattern_of(c: Seq<char>, b: Seq<bool>) -> Seq<char> {
    pattern_prefix(c, b, c.len() as int)
}

/// The assignment a counter value selects: position `i` is bit `i` of `v`.
pub open spec fn bits_of(v: nat, n: nat) -> Seq<bool> {
    Seq::new(n, |i: int| bit_at(v, i as nat))
}

/// Emits the candidate expression for the selector's current assignment over
/// the identifier's characters.
pub fn synthesize(identifier: &str, sel: &BitField) -> (r: String)
    requires
        sel.wf(),
        sel.width() == identifier@.len(),
    ensures
        r@ == pattern_of(identifier@, bits_of(sel.value(), sel.width())),
{
    let n = identifier.unicode_len();
    let mut out = String::new();
    let ghost c = identifier@;
    let ghost b = bits_of(sel.value(), sel.width());
    let mut x: usize = 0;
    while x < n
        invariant
            n == c.len(),
            c == identifier@,
            b == bits_of(sel.value(), sel.width()),
            b.len() == n,
            sel.wf(),
            sel.width() == n,
            0 <= x <= n,
            out@ == pattern_prefix(c, b, x as int),
        decreases n - x,
    {
        let ghost out0 = out@;
        if sel.at(x) {
            let ch = identifier.get_char(x);
            push_char(&mut out, ch);
            proof {
                assert(b[x as int]);
                assert(token_at(c, b, x as int) =~= seq![c[x as int]]);
                assert(out@ =~= out0 + token_at(c, b, x as int));
            }
        } else if x > 0 && sel.at(x - 1) && (x == n - 1 || sel.at(x + 1)) {
            push_char(&mut out, '?');
            proof {
                assert(!b[x as int]);
                assert(b[x as int - 1]);
                assert(x == n - 1 || b[x as int + 1]);
                assert(token_at(c, b, x as int) =~= seq!['?']);
                assert(out@ =~= out0 + token_at(c, b, x as int));
            }
        } else if x == n - 1 || sel.at(x + 1) {
            push_char(&mut out, '*');
            proof {
                assert(!b[x as int]);
                assert(!(x > 0 && b[x as int - 1] && (x == n - 1 || b[x as int + 1])));
                assert(token_at(c, b, x as int) =~= seq!['*']);
                assert(out@ =~= out0 + token_at(c, b, x as int));
            }
        } else {
            proof {
                assert(!b[x as int]);
                assert(!(x == n - 1 || b[x as int + 1]));
                assert(token_at(c, b, x as int) =~= Seq::<char>::empty());
                assert(out@ =~= out0 + token_at(c, b, x as int));
            }
        }
        x += 1;
    }
    out
}

} // verus!
