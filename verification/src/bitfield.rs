//! The selector: a fixed-width bit counter that enumerates every boolean
//! assignment over the character positions of an identifier, in increasing
//! numeric order.

use vstd::prelude::*;
use vstd::arithmetic::power2::*;
use vstd::arithmetic::div_mod::*;

verus! {

/// Little-endian value of a byte buffer: byte `i` carries weight `256^i`.
pub open spec fn value_of(s: Seq<u8>) -> nat
    decreases s.len(),
{
    if s.len() == 0 {
        0
    } else {
        s[0] as nat + 256 * value_of(s.skip(1))
    }
}

/// Bit `i` of the binary representation of `v`.
pub open spec fn bit_at(v: nat, i: nat) -> bool {
    (v / pow2(i)) % 2 == 1
}

/// Number of bytes that store `n` bits.
pub open spec fn bytes_for(n: nat) -> nat {
    if n % 8 == 0 {
        n / 8
    } else {
        n / 8 + 1
    }
}

/// The mask of semantically valid bits in the final byte.
pub open spec fn tail_mask(n: nat) -> u8 {
    (pow2(n % 8) - 1) as u8
}

/// The all-ones assignment of width `n`, numerically.
pub open spec fn all_ones(n: nat) -> nat {
    (pow2(n) - 1) as nat
}

/// A bit counter over `width` positions, stored as a byte buffer of
/// `bytes_for(width)` bytes. Bits beyond `width` are always zero.
pub struct BitField {
    pub mask: u8,
    pub bytes: Vec<u8>,
    pub width: Ghost<nat>,
}

impl BitField {
    /// The counter value: the assignment read as a little-endian number.
    pub closed spec fn value(self) -> nat {
        value_of(self.bytes@)
    }

    /// The number of bit positions this counter enumerates.
    pub closed spec fn width(self) -> nat {
        self.width@
    }

    pub closed spec fn wf(self) -> bool {
        &&& self.bytes@.len() == bytes_for(self.width@)
        &&& self.mask == tail_mask(self.width@)
        &&& self.value() < pow2(self.width@)
    }

    pub fn new(size: usize) -> (s: BitField)
        ensures
            s.wf(),
            s.width() == size,
            s.value() == 0,
            s.mask == tail_mask(size as nat),
    {
        let quo = size / 8;
        let rem = size % 8;
        let len = if rem != 0 { quo + 1 } else { quo };
        let mut bytes: Vec<u8> = Vec::new();
        while bytes.len() < len
            invariant
                bytes@.len() <= len,
                forall|j: int| 0 <= j < bytes@.len() ==> bytes@[j] == 0,
            decreases len - bytes@.len(),
        {
            bytes.push(0);
        }
        proof {
            lemma_value_of_all_zero(bytes@);
            lemma_pow2_pos(size as nat);
            if rem != 0 {
                lemma_u8_shift_is_pow2(rem);
                lemma_pow2_pos(rem as nat);
                lemma_pow2_le_128((size as nat) % 8);
            } else {
                lemma2_to64();
            }
        }
        let mask = if rem == 0 { 0 } else { (1u8 << rem) - 1 };
        BitField { mask, bytes, width: Ghost(size as nat) }
    }

    /// Binary-counter step: ripple-carry from the lowest byte upward. Once
    /// every valid bit is set the counter stays put.
    pub fn increment(&mut self)
        requires
            old(self).wf(),
        ensures
            final(self).wf(),
            final(self).width() == old(self).width(),
            final(self).mask == old(self).mask,
            final(self).value() == advance(old(self).value(), old(self).width()),
    {
        if self.maxed() {
            return ;
        }
        let ghost s0 = self.bytes@;
        let ghost v0 = self.value();
        let ghost w = self.width@;
        let ghost m0 = self.mask;
        proof {
            if w == 0 {
                lemma2_to64();
                assert(false);
            }
            lemma_bytes_for_covers(w);
            lemma_pow2_strictly_increases_or_eq(w, 8 * bytes_for(w));
        }
        let n = self.bytes.len();
        let mut i: usize = 0;
        while i < n
            invariant_except_break
                self.bytes@.len() == n,
                n == s0.len(),
                1 <= n,
                self.width@ == w,
                self.mask == m0,
                0 <= i < n,
                forall|j: int| 0 <= j < i ==> s0[j] == 255,
                forall|j: int| 0 <= j < i ==> self.bytes@[j] == 0,
                forall|j: int| i <= j < n ==> self.bytes@[j] == s0[j],
                value_of(s0) == v0,
                v0 + 1 < pow2((8 * n) as nat),
            ensures
                self.bytes@.len() == n,
                self.width@ == w,
                self.mask == m0,
                value_of(self.bytes@) == v0 + 1,
            decreases n - i,
        {
            let b = self.bytes[i];
            if b == 255 {
                proof {
                    if i + 1 == n {
                        assert forall|j: int| 0 <= j < n implies s0[j] == 255 by {
                            if j == i {
                                assert(self.bytes@[j] == s0[j]);
                            }
                        }
                        lemma_value_of_ones_prefix(s0, n as int);
                        assert(value_of(s0.skip(n as int)) == 0);
                        assert(false);
                    }
                }
                self.bytes.set(i, 0);
                i += 1;
            } else {
                let ghost sp = self.bytes@;
                self.bytes.set(i, b + 1);
                proof {
                    let s1 = self.bytes@;
                    assert(s1 =~= sp.update(i as int, (b + 1) as u8));
                    assert forall|j: int| 0 <= j < i implies s1[j] == 0 by {
                        assert(sp[j] == 0);
                    }
                    lemma_value_of_ones_prefix(s0, i as int);
                    lemma_value_of_unfold(s0, i as int);
                    lemma_value_of_zero_prefix(s1, i as int);
                    lemma_value_of_unfold(s1, i as int);
                    assert(s1.skip(i + 1) =~= s0.skip(i + 1));
                    assert(s1[i as int] == b + 1);
                    assert(s0[i as int] == b);
                    let p = pow2((8 * i) as nat);
                    let v = value_of(s0.skip(i + 1));
                    assert(p * ((b + 1) + 256 * v) == p - 1 + p * (b + 256 * v) + 1)
                        by (nonlinear_arith);
                }
                break ;
            }
        }
    }
}

impl BitField {
    /// True exactly when every assignment has been visited: all full bytes
    /// are 255 and the final byte carries every valid bit.
    pub fn maxed(&self) -> (r: bool)
        requires
            self.wf(),
        ensures
            r == (self.value() == all_ones(self.width())),
    {
        let ghost w = self.width@;
        let n = self.bytes.len();
        if n == 0 {
            proof {
                lemma_fundamental_div_mod(w as int, 8);
                assert(w == 0);
                lemma2_to64();
            }
            return true;
        }
        proof {
            if w == 0 {
                assert(bytes_for(0nat) == 0);
                assert(false);
            }
            lemma_mask_is_last_byte(w);
        }
        let target = if self.mask == 0 { 255 } else { self.mask };
        let mut i: usize = 0;
        while i < n - 1
            invariant
                self.wf(),
                self.width@ == w,
                1 <= w,
                n == self.bytes@.len(),
                1 <= n,
                0 <= i <= n - 1,
                forall|j: int| 0 <= j < i ==> self.bytes@[j] == 255,
            decreases n - 1 - i,
        {
            if self.bytes[i] != 255 {
                proof {
                    lemma_value_of_byte(self.bytes@, i as int);
                    lemma_all_ones_byte(w, i as int);
                }
                return false;
            }
            i += 1;
        }
        let ok = self.bytes[n - 1] == target;
        proof {
            lemma_mask_is_last_byte(w);
            lemma_all_ones_byte(w, n - 1);
            if ok {
                let s = self.bytes@;
                lemma_value_of_ones_prefix(s, n - 1);
                lemma_value_of_unfold(s, n - 1);
                assert(value_of(s.skip(n as int)) == 0);
                lemma_bytes_for_covers(w);
                let rp = (w - 8 * (n - 1)) as nat;
                lemma_pow2_adds((8 * (n - 1)) as nat, rp);
                let p = pow2((8 * (n - 1)) as nat);
                assert(p - 1 + p * (last_byte(w) as int) == p * (last_byte(w) + 1) - 1)
                    by (nonlinear_arith);
                assert(last_byte(w) + 1 == pow2(rp)) by {
                    lemma_fundamental_div_mod(w as int, 8);
                    if w % 8 == 0 {
                        assert(rp == 8);
                        lemma2_to64();
                    } else {
                        assert(rp == w % 8);
                        lemma_pow2_pos(rp);
                    }
                }
            } else {
                lemma_value_of_byte(self.bytes@, n - 1);
            }
        }
        ok
    }

    /// Whether bit `index` of the current assignment is set.
    pub fn at(&self, index: usize) -> (r: bool)
        requires
            self.wf(),
            index < self.width(),
        ensures
            r == bit_at(self.value(), index as nat),
    {
        let quo = index / 8;
        let rem = index % 8;
        proof {
            lemma_bytes_for_covers(self.width@);
            lemma_fundamental_div_mod(index as int, 8);
            assert(quo < self.bytes@.len());
        }
        let b = self.bytes[quo];
        let bit_index: u8 = 1 << (rem as u8);
        let r = (b & bit_index) == bit_index;
        proof {
            lemma_bit_of_byte(self.bytes@, quo as int, rem as int);
            vstd::bits::lemma_u8_shr_is_div(b, rem as u8);
            assert(((b & (1u8 << (rem as u8))) == (1u8 << (rem as u8))) == ((b >> (rem as u8))
                & 1 == 1)) by (bit_vector)
                requires
                    rem < 8,
            ;
            assert(((b >> (rem as u8)) & 1 == 1) == ((b >> (rem as u8)) % 2 == 1))
                by (bit_vector);
        }
        r
    }
}

/// The final byte of the all-ones assignment of width `n`.
pub open spec fn last_byte(n: nat) -> nat {
    if n % 8 == 0 {
        255
    } else {
        (pow2(n % 8) - 1) as nat
    }
}

/// The stored mask names the final byte of the all-ones assignment.
proof fn lemma_mask_is_last_byte(n: nat)
    requires
        n >= 1,
    ensures
        tail_mask(n) == 0 ==> n % 8 == 0,
        tail_mask(n) != 0 ==> tail_mask(n) as nat == last_byte(n),
{
    lemma2_to64();
    lemma_pow2_le_128(n % 8);
    if n % 8 != 0 {
        lemma_pow2_strictly_increases(0, n % 8);
    }
}

/// Byte `j` of the all-ones assignment: 255 for every full byte, and
/// `last_byte(n)` for the final one.
proof fn lemma_all_ones_byte(n: nat, j: int)
    requires
        1 <= n,
        0 <= j < bytes_for(n),
    ensures
        j < bytes_for(n) - 1 ==> (all_ones(n) / pow2((8 * j) as nat)) % 256 == 255,
        j == bytes_for(n) - 1 ==> (all_ones(n) / pow2((8 * j) as nat)) % 256 == last_byte(n),
{
    let b = bytes_for(n) as int;
    lemma_bytes_for_covers(n);
    lemma_fundamental_div_mod(n as int, 8);
    assert(8 * (b - 1) < n <= 8 * b);
    let d = (n - 8 * j) as nat;
    assert(d >= 1);
    lemma_pow2_pos((8 * j) as nat);
    lemma_pow2_pos(d);
    lemma_pow2_adds((8 * j) as nat, d);
    let pj = pow2((8 * j) as nat) as int;
    let pd = pow2(d) as int;
    lemma_pow2_pos(n);
    assert(pow2(n) == pj * pd);
    assert(all_ones(n) == pj * (pd - 1) + (pj - 1)) by (nonlinear_arith)
        requires
            pow2(n) == pj * pd,
            all_ones(n) == pow2(n) - 1,
            pj >= 1,
    ;
    lemma_fundamental_div_mod_converse(all_ones(n) as int, pj, pd - 1, pj - 1);
    assert(all_ones(n) as int / pj == pd - 1);
    if j < b - 1 {
        // d > 8, so pow2(d) - 1 ends in a full byte of ones.
        assert(d > 8);
        lemma_pow2_adds(8, (d - 8) as nat);
        lemma_pow2_pos((d - 8) as nat);
        lemma2_to64();
        let q = pow2((d - 8) as nat) as int;
        assert(pd - 1 == 256 * (q - 1) + 255) by (nonlinear_arith)
            requires
                pd == 256 * q,
        ;
        lemma_fundamental_div_mod_converse_mod(pd - 1, 256, q - 1, 255);
    } else {
        // d <= 8: the final byte is exactly the masked tail.
        assert(d <= 8);
        lemma_pow2_le_128(n % 8);
        lemma2_to64();
        if n % 8 == 0 {
            assert(8 * b == n);
            assert(d == 8);
            lemma_small_mod(255, 256);
            assert(last_byte(n) == 255);
        } else {
            assert(8 * (b - 1) == n - n % 8);
            assert(d == n % 8);
            lemma_pow2_strictly_increases(d, 8);
            lemma_small_mod((pow2(d) - 1) as nat, 256);
        }
    }
}

/// One step of the counter: saturates at the all-ones assignment.
pub open spec fn advance(v: nat, n: nat) -> nat {
    if v == all_ones(n) {
        v
    } else {
        v + 1
    }
}

/// The counter value after `k` increment steps from zero.
pub open spec fn counter_after(n: nat, k: nat) -> nat
    decreases k,
{
    if k == 0 {
        0
    } else {
        advance(counter_after(n, (k - 1) as nat), n)
    }
}

/// A selector of width `n` counts 0, 1, 2, ...: after `k` increments it holds
/// exactly `k`, until every one of the `pow2(n)` assignments has been visited,
/// after which it stays at the all-ones assignment. Together with the
/// contract of `BitField::maxed` this is the enumeration law: starting from
/// all-zero, the counter passes through all `pow2(n)` assignments, each
/// exactly once, in strictly increasing numeric order, and `maxed` first
/// holds at the all-ones assignment.
pub proof fn lemma_selector_visits_all(n: nat, k: nat)
    ensures
        k <= all_ones(n) ==> counter_after(n, k) == k,
        k > all_ones(n) ==> counter_after(n, k) == all_ones(n),
    decreases k,
{
    lemma_pow2_pos(n);
    if k > 0 {
        lemma_selector_visits_all(n, (k - 1) as nat);
    }
}

/// After `k` increments the assignment reads out the binary representation
/// of `k`: bit `i` of the counter equals bit `i` of `k`.
pub proof fn lemma_selector_reads_binary(n: nat, k: nat, i: nat)
    requires
        k <= all_ones(n),
        i < n,
    ensures
        bit_at(counter_after(n, k), i) == bit_at(k, i),
{
    lemma_selector_visits_all(n, k);
}

/// No assignment repeats during the sweep: two different increment counts
/// below the all-ones assignment read out assignments that differ at some
/// position below `n`.
pub proof fn lemma_assignments_distinct(n: nat, k1: nat, k2: nat)
    requires
        k1 < k2 <= all_ones(n),
    ensures
        exists|i: nat|
            i < n && bit_at(counter_after(n, k1), i) != bit_at(counter_after(n, k2), i),
{
    lemma_selector_visits_all(n, k1);
    lemma_selector_visits_all(n, k2);
    lemma_pow2_pos(n);
    if forall|i: nat| i < n ==> bit_at(k1, i) == bit_at(k2, i) {
        lemma_bits_pin_value(k1, k2, n);
        assert(false);
    }
    let i = choose|i: nat| i < n && bit_at(k1, i) != bit_at(k2, i);
    assert(i < n && bit_at(counter_after(n, k1), i) != bit_at(counter_after(n, k2), i));
}

/// Bit `i + 1` of a value is bit `i` of its half.
proof fn lemma_bit_at_half(v: nat, i: nat)
    ensures
        bit_at(v, i + 1) == bit_at(v / 2, i),
{
    lemma_pow2_adds(1, i);
    lemma2_to64();
    lemma_pow2_pos(i);
    lemma_div_denominator(v as int, 2, pow2(i) as int);
}

/// Two counter values below `pow2(n)` that agree on every bit position below
/// `n` are equal: an assignment is read off without loss, so distinct counter
/// values are distinct assignments.
pub proof fn lemma_bits_pin_value(v1: nat, v2: nat, n: nat)
    requires
        v1 < pow2(n),
        v2 < pow2(n),
        forall|i: nat| i < n ==> bit_at(v1, i) == bit_at(v2, i),
    ensures
        v1 == v2,
    decreases n,
{
    lemma2_to64();
    if n == 0 {
        assert(pow2(0) == 1);
    } else {
        assert(bit_at(v1, 0) == bit_at(v2, 0));
        assert(v1 / pow2(0) == v1) by {
            lemma_div_basics(v1 as int);
        }
        assert(v2 / pow2(0) == v2) by {
            lemma_div_basics(v2 as int);
        }
        lemma_fundamental_div_mod(v1 as int, 2);
        lemma_fundamental_div_mod(v2 as int, 2);
        assert(v1 % 2 == v2 % 2);
        assert forall|i: nat| i < (n - 1) as nat implies #[trigger] bit_at(v1 / 2, i) == bit_at(
            v2 / 2,
            i,
        ) by {
            lemma_bit_at_half(v1, i);
            lemma_bit_at_half(v2, i);
            assert(bit_at(v1, i + 1) == bit_at(v2, i + 1));
        }
        lemma_pow2_adds(1, (n - 1) as nat);
        assert(v1 / 2 < pow2((n - 1) as nat)) by {
            lemma_half_bound(v1, pow2((n - 1) as nat));
        }
        assert(v2 / 2 < pow2((n - 1) as nat)) by {
            lemma_half_bound(v2, pow2((n - 1) as nat));
        }
        lemma_bits_pin_value(v1 / 2, v2 / 2, (n - 1) as nat);
    }
}

/// `v < 2 * p` gives `v / 2 < p`.
proof fn lemma_half_bound(v: nat, p: nat)
    requires
        p >= 1,
        v < 2 * p,
    ensures
        v / 2 < p,
{
    lemma_fundamental_div_mod(v as int, 2);
}

/// `n` bits fit in `bytes_for(n)` bytes.
proof fn lemma_bytes_for_covers(n: nat)
    ensures
        n <= 8 * bytes_for(n),
        n >= 1 ==> 8 * (bytes_for(n) - 1) < n,
{
    lemma_fundamental_div_mod(n as int, 8);
}

proof fn lemma_pow2_strictly_increases_or_eq(e1: nat, e2: nat)
    requires
        e1 <= e2,
    ensures
        pow2(e1) <= pow2(e2),
{
    if e1 < e2 {
        lemma_pow2_strictly_increases(e1, e2);
    }
}

/// `pow2(r) <= 128` for `r < 8`; lets a partial-byte mask live in a `u8`.
proof fn lemma_pow2_le_128(r: nat)
    requires
        r < 8,
    ensures
        pow2(r) <= 128,
{
    lemma2_to64();
    if r < 7 {
        lemma_pow2_strictly_increases(r, 7);
    }
}

/// `1u8 << r` equals `pow2(r)` for `r < 8`.
proof fn lemma_u8_shift_is_pow2(r: usize)
    requires
        r < 8,
    ensures
        (1u8 << r) as nat == pow2(r as nat),
{
    lemma_pow2_le_128(r as nat);
    vstd::bits::lemma_u8_shl_is_mul(1u8, r as u8);
    assert(1u8 << r == 1u8 << (r as u8)) by (bit_vector)
        requires
            r < 8,
    ;
}

/// Unfolding `value_of` at an interior position.
proof fn lemma_value_of_unfold(s: Seq<u8>, i: int)
    requires
        0 <= i < s.len(),
    ensures
        value_of(s.skip(i)) == s[i] + 256 * value_of(s.skip(i + 1)),
{
    assert(s.skip(i)[0] == s[i]);
    assert(s.skip(i).skip(1) =~= s.skip(i + 1));
}

/// A buffer of `B` bytes holds a value below `pow2(8 * B)`.
proof fn lemma_value_of_bound(s: Seq<u8>)
    ensures
        value_of(s) < pow2(8 * s.len()),
    decreases s.len(),
{
    if s.len() == 0 {
        lemma2_to64();
    } else {
        lemma_value_of_bound(s.skip(1));
        lemma2_to64();
        lemma_pow2_adds(8, 8 * (s.len() - 1) as nat);
        assert(value_of(s) == s[0] + 256 * value_of(s.skip(1)));
        assert(256 * value_of(s.skip(1)) <= 256 * (pow2(8 * (s.len() - 1) as nat) - 1))
            by (nonlinear_arith)
            requires
                value_of(s.skip(1)) <= pow2(8 * (s.len() - 1) as nat) - 1,
        ;
    }
}

/// When the first `i` bytes are zero, the value is carried by the rest.
proof fn lemma_value_of_zero_prefix(s: Seq<u8>, i: int)
    requires
        0 <= i <= s.len(),
        forall|j: int| 0 <= j < i ==> s[j] == 0,
    ensures
        value_of(s) == pow2((8 * i) as nat) * value_of(s.skip(i)),
    decreases i,
{
    if i == 0 {
        assert(s.skip(0) =~= s);
        lemma2_to64();
        assert(pow2(0) * value_of(s) == value_of(s));
    } else {
        lemma_value_of_zero_prefix(s, i - 1);
        lemma_value_of_unfold(s, i - 1);
        lemma_pow2_adds((8 * (i - 1)) as nat, 8);
        lemma2_to64();
        let p = pow2((8 * (i - 1)) as nat);
        let v = value_of(s.skip(i));
        assert(p * (256 * v) == (p * 256) * v) by (nonlinear_arith);
    }
}

/// When the first `i` bytes are all 255, the value decomposes as the
/// saturated prefix plus the rest shifted up.
proof fn lemma_value_of_ones_prefix(s: Seq<u8>, i: int)
    requires
        0 <= i <= s.len(),
        forall|j: int| 0 <= j < i ==> s[j] == 255,
    ensures
        value_of(s) == pow2((8 * i) as nat) - 1 + pow2((8 * i) as nat) * value_of(s.skip(i)),
    decreases i,
{
    if i == 0 {
        assert(s.skip(0) =~= s);
        lemma2_to64();
    } else {
        lemma_value_of_ones_prefix(s, i - 1);
        lemma_value_of_unfold(s, i - 1);
        lemma_pow2_adds((8 * (i - 1)) as nat, 8);
        lemma2_to64();
        let p = pow2((8 * (i - 1)) as nat);
        let v = value_of(s.skip(i));
        assert(p - 1 + p * (255 + 256 * v) == 256 * p - 1 + (256 * p) * v) by (nonlinear_arith);
    }
}

/// Byte `j` of the buffer is byte `j` of the binary value.
proof fn lemma_value_of_byte(s: Seq<u8>, j: int)
    requires
        0 <= j < s.len(),
    ensures
        s[j] == (value_of(s) / pow2((8 * j) as nat)) % 256,
    decreases j,
{
    if j == 0 {
        lemma2_to64();
        assert(value_of(s) / pow2(0) == value_of(s)) by {
            lemma_div_basics(value_of(s) as int);
        }
        lemma_fundamental_div_mod_converse(
            value_of(s) as int,
            256,
            value_of(s.skip(1)) as int,
            s[0] as int,
        );
    } else {
        lemma_value_of_byte(s.skip(1), j - 1);
        lemma2_to64();
        // value_of(s) / 256 == value_of(s.skip(1))
        lemma_fundamental_div_mod_converse(
            value_of(s) as int,
            256,
            value_of(s.skip(1)) as int,
            s[0] as int,
        );
        lemma_pow2_adds(8, (8 * (j - 1)) as nat);
        lemma_pow2_pos((8 * (j - 1)) as nat);
        lemma_div_denominator(
            value_of(s) as int,
            256,
            pow2((8 * (j - 1)) as nat) as int,
        );
        assert(s.skip(1)[j - 1] == s[j]);
    }
}

/// Bit `8 * q + r` of the value is bit `r` of byte `q`.
proof fn lemma_bit_of_byte(s: Seq<u8>, q: int, r: int)
    requires
        0 <= q < s.len(),
        0 <= r < 8,
    ensures
        bit_at(value_of(s), (8 * q + r) as nat) == ((s[q] as nat / pow2(r as nat)) % 2 == 1),
{
    let v = value_of(s) as int;
    let pq = pow2((8 * q) as nat) as int;
    let pr = pow2(r as nat) as int;
    lemma_pow2_pos((8 * q) as nat);
    lemma_pow2_pos(r as nat);
    lemma_pow2_pos((8 - r) as nat);
    lemma_pow2_pos((7 - r) as nat);
    lemma_pow2_adds((8 * q) as nat, r as nat);
    lemma_div_denominator(v, pq, pr);
    let x = v / pq;
    lemma_value_of_byte(s, q);
    assert(s[q] == x % 256);
    // x / pr % 2 agrees with (x % 256) / pr % 2 because 256 = pow2(r) * pow2(8 - r).
    lemma_fundamental_div_mod(x, 256);
    let hi = x / 256;
    let lo = x % 256;
    lemma_pow2_adds(r as nat, (8 - r) as nat);
    lemma2_to64();
    let j = pow2((8 - r) as nat) as int * hi;
    assert(x == lo + j * pr) by (nonlinear_arith)
        requires
            x == 256 * hi + lo,
            256 == pr * pow2((8 - r) as nat),
            j == pow2((8 - r) as nat) as int * hi,
    ;
    lemma_hoist_over_denominator(lo, j, pr as nat);
    assert(x / pr == lo / pr + j);
    // j is even: pow2(8 - r) == 2 * pow2(7 - r).
    lemma_pow2_adds(1, (7 - r) as nat);
    assert(j == 2 * (pow2((7 - r) as nat) as int * hi)) by (nonlinear_arith)
        requires
            j == pow2((8 - r) as nat) as int * hi,
            pow2((8 - r) as nat) == 2 * pow2((7 - r) as nat),
    ;
    lemma_mod_multiples_vanish(pow2((7 - r) as nat) as int * hi, lo / pr, 2);
    assert((x / pr) % 2 == (lo / pr) % 2);
}

proof fn lemma_value_of_all_zero(s: Seq<u8>)
    requires
        forall|j: int| 0 <= j < s.len() ==> s[j] == 0,
    ensures
        value_of(s) == 0,
    decreases s.len(),
{
    if s.len() > 0 {
        lemma_value_of_all_zero(s.skip(1));
    }
}

} // verus!
