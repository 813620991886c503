//! Carry-propagating addition over digit vectors, and magnitude addition
//! built on it.

use vstd::prelude::*;
use crate::biguint::BigUint;
use crate::values::{mag_val, digit_weight, lemma_mag_val_snoc, lemma_mag_val_bound,
    lemma_weighted_carry, lemma_distribute3, lemma_digit_weight_pos};

verus! {

/// One digit of addition: `*out` receives the low digit of
/// `a + b + carry`, and the returned bit is the carry out.
pub fn adc(carry: u8, a: u32, b: u32, out: &mut u32) -> (r: u8)
    requires
        carry <= 1,
    ensures
        r <= 1,
        *final(out) as nat + 0x1_0000_0000 * (r as nat)
            == a as nat + b as nat + carry as nat,
{
    let sum: u64 = a as u64 + b as u64 + carry as u64;
    *out = (sum % 0x1_0000_0000) as u32;
    (sum / 0x1_0000_0000) as u8
}

/// Adds `b` into `a` element-wise with carry propagation across the full
/// length of `a`, returning the final carry (0 or 1). The caller must ensure
/// that `a` is at least as long as `b`.
pub fn __add2(a: &mut Vec<u32>, b: &Vec<u32>) -> (carry: u32)
    requires
        old(a)@.len() >= b@.len(),
    ensures
        final(a)@.len() == old(a)@.len(),
        carry <= 1,
        mag_val(final(a)@) + carry * digit_weight(old(a)@.len())
            == mag_val(old(a)@) + mag_val(b@),
{
    let n = a.len();
    let mut carry: u8 = 0;
    let mut i: usize = 0;
    while i < b.len()
        invariant
            a@.len() == old(a)@.len(),
            b@.len() <= a@.len(),
            0 <= i <= b@.len(),
            carry <= 1,
            a@.skip(i as int) =~= old(a)@.skip(i as int),
            mag_val(a@.take(i as int)) + carry * digit_weight(i as nat)
                == mag_val(old(a)@.take(i as int)) + mag_val(b@.take(i as int)),
        decreases b@.len() - i,
    {
        let ghost pre = a@;
        let ghost c1 = carry as nat;
        let x = a[i];
        let y = b[i];
        proof {
            assert(pre.skip(i as int)[0] == pre[i as int]);
            assert(x == old(a)@[i as int]);
        }
        let mut t = x;
        carry = adc(carry, x, y, &mut t);
        a.set(i, t);
        proof {
            lemma_add_loop_step(pre, old(a)@, mag_val(b@.take(i as int)), a@,
                i as nat, x, y, c1, t, carry as nat);
            assert(b@.take(i as int + 1) =~= b@.take(i as int).push(y));
            lemma_mag_val_snoc(b@.take(i as int), y);
        }
        i = i + 1;
    }
    proof {
        assert(b@.take(i as int) =~= b@);
    }
    // propagate the carry through the remaining high digits of `a`
    while carry != 0 && i < n
        invariant
            n == a@.len(),
            a@.len() == old(a)@.len(),
            b@.len() <= i <= a@.len(),
            carry <= 1,
            a@.skip(i as int) =~= old(a)@.skip(i as int),
            mag_val(a@.take(i as int)) + carry * digit_weight(i as nat)
                == mag_val(old(a)@.take(i as int)) + mag_val(b@),
        decreases a@.len() - i,
    {
        let ghost pre = a@;
        let ghost c1 = carry as nat;
        let x = a[i];
        proof {
            assert(pre.skip(i as int)[0] == pre[i as int]);
            assert(x == old(a)@[i as int]);
        }
        let mut t = x;
        carry = adc(carry, x, 0, &mut t);
        a.set(i, t);
        proof {
            lemma_add_loop_step(pre, old(a)@, mag_val(b@), a@, i as nat, x, 0,
                c1, t, carry as nat);
        }
        i = i + 1;
    }
    // whether the loop stopped on carry == 0 or on i == n, the whole vector
    // now carries the sum
    proof {
        if carry == 0 {
            lemma_tail_unchanged_sum(a@, old(a)@, b@, i as nat);
        } else {
            assert(i == n);
            assert(a@.take(i as int) =~= a@);
            assert(old(a)@.take(i as int) =~= old(a)@);
        }
    }
    carry as u32
}

/// Extends a partial-sum invariant by one digit position: `bsum` is the
/// value already absorbed from the addend, and `y` the addend digit at
/// position `i` (zero past its end).
proof fn lemma_add_loop_step(
    pre: Seq<u32>,
    orig: Seq<u32>,
    bsum: nat,
    cur: Seq<u32>,
    i: nat,
    x: u32,
    y: u32,
    c1: nat,
    t: u32,
    c2: nat,
)
    requires
        pre.len() == orig.len(),
        i < pre.len(),
        cur =~= pre.update(i as int, t),
        pre.skip(i as int) =~= orig.skip(i as int),
        x == orig[i as int],
        t as nat + 0x1_0000_0000 * c2 == x as nat + y as nat + c1,
        mag_val(pre.take(i as int)) + c1 * digit_weight(i)
            == mag_val(orig.take(i as int)) + bsum,
    ensures
        cur.skip(i as int + 1) =~= orig.skip(i as int + 1),
        mag_val(cur.take(i as int + 1)) + c2 * digit_weight(i + 1)
            == mag_val(orig.take(i as int + 1)) + bsum + y * digit_weight(i),
{
    let w = digit_weight(i);
    assert(cur.take(i as int + 1) =~= pre.take(i as int).push(t));
    assert(orig.take(i as int + 1) =~= orig.take(i as int).push(x));
    lemma_mag_val_snoc(pre.take(i as int), t);
    lemma_mag_val_snoc(orig.take(i as int), x);
    lemma_weighted_carry(i, t as nat, c2, x as nat + y as nat + c1);
    lemma_distribute3(x as nat, y as nat, c1, w);
    assert forall|m: int| 0 <= m < cur.skip(i as int + 1).len()
        implies #[trigger] cur.skip(i as int + 1)[m] == orig.skip(i as int + 1)[m] by {
        assert(cur.skip(i as int + 1)[m] == cur[i + 1 + m]);
        assert(pre.skip(i as int)[m + 1] == orig.skip(i as int)[m + 1]);
    }
}

/// When the carry dies out early, the untouched tail contributes equally on
/// both sides.
proof fn lemma_tail_unchanged_sum(cur: Seq<u32>, orig: Seq<u32>, b: Seq<u32>, i: nat)
    requires
        cur.len() == orig.len(),
        i <= cur.len(),
        cur.skip(i as int) =~= orig.skip(i as int),
        mag_val(cur.take(i as int)) == mag_val(orig.take(i as int)) + mag_val(b),
    ensures
        mag_val(cur) == mag_val(orig) + mag_val(b),
{
    crate::values::lemma_mag_val_split(cur, i);
    crate::values::lemma_mag_val_split(orig, i);
}

/// Adds `b` into `a` when the caller has already sized `a` so that no carry
/// can remain.
pub fn add2(a: &mut Vec<u32>, b: &Vec<u32>)
    requires
        old(a)@.len() >= b@.len(),
        mag_val(old(a)@) + mag_val(b@) < digit_weight(old(a)@.len()),
    ensures
        final(a)@.len() == old(a)@.len(),
        mag_val(final(a)@) == mag_val(old(a)@) + mag_val(b@),
{
    let ghost n = old(a)@.len();
    let carry = __add2(a, b);
    proof {
        if carry != 0 {
            lemma_digit_weight_pos(n);
            assert((carry as nat) * digit_weight(n) >= digit_weight(n))
                by (nonlinear_arith)
                requires carry >= 1, digit_weight(n) >= 1;
        }
    }
    assert(carry == 0);
}

impl BigUint {
    /// Adds `other` into `self`.
    pub fn add_assign(&mut self, other: &BigUint)
        requires
            old(self).wf(),
            other.wf(),
        ensures
            final(self).wf(),
            final(self)@ == old(self)@ + other@,
    {
        while self.data.len() < other.data.len()
            invariant
                mag_val(self.data@) == old(self)@,
            decreases other.data@.len() - self.data@.len(),
        {
            let ghost pre = self.data@;
            self.data.push(0);
            proof {
                lemma_mag_val_snoc(pre, 0);
            }
        }
        let carry = __add2(&mut self.data, &other.data);
        if carry != 0 {
            let ghost pre = self.data@;
            self.data.push(carry);
            proof {
                lemma_mag_val_snoc(pre, carry);
            }
        }
        self.normalize();
    }

    /// Returns the sum of `self` and `other`.
    pub fn add(self, other: &BigUint) -> (r: BigUint)
        requires
            self.wf(),
            other.wf(),
        ensures
            r.wf(),
            r@ == self@ + other@,
    {
        let mut s = self;
        s.add_assign(other);
        s
    }

    /// Addition of magnitudes cannot overflow, so the checked form always
    /// succeeds.
    pub fn checked_add(&self, v: &BigUint) -> (r: Option<BigUint>)
        requires
            self.wf(),
            v.wf(),
        ensures
            r is Some,
            r->Some_0.wf(),
            r->Some_0@ == self@ + v@,
    {
        Some(self.clone().add(v))
    }
}

impl BigUint {
    /// Adds one machine digit in place, via the digit-vector core.
    pub fn add_assign_u32(&mut self, other: u32)
        requires
            old(self).wf(),
        ensures
            final(self).wf(),
            final(self)@ == old(self)@ + other,
    {
        if other != 0 {
            if self.data.len() == 0 {
                let ghost pre = self.data@;
                self.data.push(0);
                proof {
                    lemma_mag_val_snoc(pre, 0);
                }
            }
            let mut b: Vec<u32> = Vec::new();
            b.push(other);
            proof {
                assert(b@ =~= seq![other]);
                crate::values::lemma_mag_val_single(other);
            }
            let carry = __add2(&mut self.data, &b);
            if carry != 0 {
                let ghost pre = self.data@;
                self.data.push(carry);
                proof {
                    lemma_mag_val_snoc(pre, carry);
                }
            }
            self.normalize();
        }
    }

    /// Adds a 64-bit value in place, splitting it into at most two digits.
    pub fn add_assign_u64(&mut self, other: u64)
        requires
            old(self).wf(),
        ensures
            final(self).wf(),
            final(self)@ == old(self)@ + other,
    {
        let lo = (other % 0x1_0000_0000) as u32;
        let hi = (other / 0x1_0000_0000) as u32;
        proof {
            vstd::arithmetic::div_mod::lemma_fundamental_div_mod(other as int,
                0x1_0000_0000);
        }
        if hi == 0 {
            self.add_assign_u32(lo);
        } else {
            while self.data.len() < 2
                invariant
                    mag_val(self.data@) == old(self)@,
                decreases 2 - self.data@.len(),
            {
                let ghost pre = self.data@;
                self.data.push(0);
                proof {
                    lemma_mag_val_snoc(pre, 0);
                }
            }
            let mut b: Vec<u32> = Vec::new();
            b.push(lo);
            b.push(hi);
            proof {
                assert(b@ =~= seq![lo, hi]);
                crate::values::lemma_mag_val_pair(lo, hi);
            }
            let carry = __add2(&mut self.data, &b);
            if carry != 0 {
                let ghost pre = self.data@;
                self.data.push(carry);
                proof {
                    lemma_mag_val_snoc(pre, carry);
                }
            }
            self.normalize();
        }
    }

    /// Adds a 128-bit value in place, splitting it into at most four digits.
    pub fn add_assign_u128(&mut self, other: u128)
        requires
            old(self).wf(),
        ensures
            final(self).wf(),
            final(self)@ == old(self)@ + other,
    {
        if other <= 0xFFFF_FFFF_FFFF_FFFF {
            self.add_assign_u64(other as u64);
        } else {
            let d0 = (other % 0x1_0000_0000) as u32;
            let d1 = ((other / 0x1_0000_0000) % 0x1_0000_0000) as u32;
            let d2 = ((other / 0x1_0000_0000_0000_0000) % 0x1_0000_0000) as u32;
            let d3 = (other / 0x1_0000_0000_0000_0000_0000_0000) as u32;
            proof {
                lemma_u128_digits(other);
            }
            while self.data.len() < 4
                invariant
                    mag_val(self.data@) == old(self)@,
                decreases 4 - self.data@.len(),
            {
                let ghost pre = self.data@;
                self.data.push(0);
                proof {
                    lemma_mag_val_snoc(pre, 0);
                }
            }
            let mut b: Vec<u32> = Vec::new();
            b.push(d0);
            b.push(d1);
            b.push(d2);
            b.push(d3);
            proof {
                assert(b@ =~= seq![d0, d1, d2, d3]);
                crate::values::lemma_mag_val_quad(d0, d1, d2, d3);
            }
            let carry = __add2(&mut self.data, &b);
            if carry != 0 {
                let ghost pre = self.data@;
                self.data.push(carry);
                proof {
                    lemma_mag_val_snoc(pre, carry);
                }
            }
            self.normalize();
        }
    }

    /// Returns `self` plus one machine digit.
    pub fn add_u32(self, other: u32) -> (r: BigUint)
        requires
            self.wf(),
        ensures
            r.wf(),
            r@ == self@ + other,
    {
        let mut s = self;
        s.add_assign_u32(other);
        s
    }

    /// Returns `self` plus a 64-bit value.
    pub fn add_u64(self, other: u64) -> (r: BigUint)
        requires
            self.wf(),
        ensures
            r.wf(),
            r@ == self@ + other,
    {
        let mut s = self;
        s.add_assign_u64(other);
        s
    }

    /// Returns `self` plus a 128-bit value.
    pub fn add_u128(self, other: u128) -> (r: BigUint)
        requires
            self.wf(),
        ensures
            r.wf(),
            r@ == self@ + other,
    {
        let mut s = self;
        s.add_assign_u128(other);
        s
    }
}

/// The four base-2^32 digits of a 128-bit value.
pub proof fn lemma_u128_digits(n: u128)
    ensures
        n == (n % 0x1_0000_0000)
            + 0x1_0000_0000 * ((n / 0x1_0000_0000) % 0x1_0000_0000
                + 0x1_0000_0000 * ((n / 0x1_0000_0000_0000_0000) % 0x1_0000_0000
                    + 0x1_0000_0000 * (n / 0x1_0000_0000_0000_0000_0000_0000))),
        n / 0x1_0000_0000_0000_0000_0000_0000 < 0x1_0000_0000,
{
    vstd::arithmetic::div_mod::lemma_fundamental_div_mod(n as int, 0x1_0000_0000);
    vstd::arithmetic::div_mod::lemma_fundamental_div_mod(
        (n / 0x1_0000_0000) as int, 0x1_0000_0000);
    vstd::arithmetic::div_mod::lemma_fundamental_div_mod(
        (n / 0x1_0000_0000_0000_0000) as int, 0x1_0000_0000);
    vstd::arithmetic::div_mod::lemma_div_denominator(n as int, 0x1_0000_0000,
        0x1_0000_0000);
    vstd::arithmetic::div_mod::lemma_div_denominator(n as int,
        0x1_0000_0000_0000_0000, 0x1_0000_0000);
}

impl Clone for BigUint {
    fn clone(&self) -> (r: Self)
        ensures
            r.data@ == self.data@,
            r@ == self@,
            self.wf() ==> r.wf(),
    {
        let mut data: Vec<u32> = Vec::new();
        let mut i: usize = 0;
        while i < self.data.len()
            invariant
                0 <= i <= self.data@.len(),
                data@ =~= self.data@.take(i as int),
            decreases self.data@.len() - i,
        {
            data.push(self.data[i]);
            i = i + 1;
        }
        proof {
            assert(data@ =~= self.data@);
        }
        BigUint { data }
    }
}

} // verus!
