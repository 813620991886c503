//! Borrow-propagating subtraction over digit vectors, and magnitude
//! subtraction built on it. Unsigned subtraction demands that the subtrahend
//! not exceed the minuend; the checked form reports the violation instead.

use vstd::prelude::*;
use core::cmp::Ordering;
use crate::biguint::BigUint;
use crate::values::{mag_val, digit_weight, lemma_mag_val_snoc, lemma_mag_val_bound,
    lemma_mag_val_split, lemma_mag_val_zero, lemma_prefix_update, lemma_digit_weight_succ,
    lemma_digit_weight_pos};

verus! {

/// One digit of subtraction: `*out` receives the low digit of
/// `a - b - borrow`, and the returned bit is the borrow out.
pub fn sbb(borrow: u8, a: u32, b: u32, out: &mut u32) -> (r: u8)
    requires
        borrow <= 1,
    ensures
        r <= 1,
        *final(out) as nat + b as nat + borrow as nat
            == a as nat + 0x1_0000_0000 * (r as nat),
{
    let d: u64 = 0x1_0000_0000 + a as u64 - b as u64 - borrow as u64;
    *out = (d % 0x1_0000_0000) as u32;
    if d < 0x1_0000_0000 {
        1
    } else {
        0
    }
}

/// The arithmetic core of one subtraction step, weighted at position `i`.
proof fn lemma_sub_weighted(i: nat, t: nat, y: nat, c1: nat, x: nat, c2: nat)
    requires
        t + y + c1 == x + 0x1_0000_0000 * c2,
    ensures
        t * digit_weight(i) + y * digit_weight(i) + c1 * digit_weight(i)
            == x * digit_weight(i) + c2 * digit_weight(i + 1),
{
    lemma_digit_weight_succ(i);
    let w = digit_weight(i);
    assert(t * w + y * w + c1 * w == (t + y + c1) * w) by (nonlinear_arith);
    assert((x + 0x1_0000_0000 * c2) * w == x * w + c2 * (0x1_0000_0000 * w))
        by (nonlinear_arith);
}

/// Subtracts `b` from `a` in place with borrow propagation. The numeric value
/// of `b` must not exceed that of `a`; digits of `b` beyond `a`'s length can
/// then only be zero.
pub fn sub2(a: &mut Vec<u32>, b: &Vec<u32>)
    requires
        mag_val(b@) <= mag_val(old(a)@),
    ensures
        final(a)@.len() == old(a)@.len(),
        mag_val(final(a)@) == mag_val(old(a)@) - mag_val(b@),
{
    let n = a.len();
    let len = if n < b.len() { n } else { b.len() };
    let mut borrow: u8 = 0;
    let mut i: usize = 0;
    while i < len
        invariant
            a@.len() == old(a)@.len(),
            len <= a@.len(),
            len <= b@.len(),
            0 <= i <= len,
            borrow <= 1,
            a@.skip(i as int) =~= old(a)@.skip(i as int),
            mag_val(a@.take(i as int)) + mag_val(b@.take(i as int))
                == mag_val(old(a)@.take(i as int)) + borrow * digit_weight(i as nat),
        decreases len - i,
    {
        let ghost pre = a@;
        let ghost c1 = borrow as nat;
        let x = a[i];
        let y = b[i];
        let mut t = x;
        borrow = sbb(borrow, x, y, &mut t);
        a.set(i, t);
        proof {
            lemma_prefix_update(pre, old(a)@, a@, i as nat, t);
            lemma_sub_weighted(i as nat, t as nat, y as nat, c1, x as nat,
                borrow as nat);
            assert(b@.take(i as int + 1) =~= b@.take(i as int).push(y));
            lemma_mag_val_snoc(b@.take(i as int), y);
        }
        i = i + 1;
    }
    // the digits of `b` past `a`'s length are all zero: a nonzero one would
    // push `b` above `a`
    proof {
        lemma_mag_val_split(b@, len as nat);
        lemma_mag_val_bound(old(a)@);
        lemma_mag_val_zero(b@.skip(len as int));
        if mag_val(b@.skip(len as int)) > 0 {
            crate::biguint::lemma_weight_monotone(old(a)@.len(), len as nat);
            assert(digit_weight(len as nat) * mag_val(b@.skip(len as int))
                >= digit_weight(len as nat)) by (nonlinear_arith)
                requires mag_val(b@.skip(len as int)) >= 1,
                    digit_weight(len as nat) >= 1,
            ;
        }
        lemma_digit_weight_pos(len as nat);
        assert(mag_val(b@.take(len as int)) == mag_val(b@));
    }
    // propagate the borrow through the remaining high digits of `a`
    while borrow != 0 && i < n
        invariant
            n == a@.len(),
            a@.len() == old(a)@.len(),
            len <= i <= a@.len(),
            borrow <= 1,
            mag_val(b@) <= mag_val(old(a)@),
            a@.skip(i as int) =~= old(a)@.skip(i as int),
            mag_val(a@.take(i as int)) + mag_val(b@)
                == mag_val(old(a)@.take(i as int)) + borrow * digit_weight(i as nat),
        decreases a@.len() - i,
    {
        let ghost pre = a@;
        let ghost c1 = borrow as nat;
        let x = a[i];
        let mut t = x;
        borrow = sbb(borrow, x, 0, &mut t);
        a.set(i, t);
        proof {
            lemma_prefix_update(pre, old(a)@, a@, i as nat, t);
            lemma_sub_weighted(i as nat, t as nat, 0, c1, x as nat, borrow as nat);
        }
        i = i + 1;
    }
    // a remaining borrow would leave the result at least one whole weight
    // above any value `a` can hold, which the precondition rules out
    proof {
        lemma_mag_val_split(a@, i as nat);
        lemma_mag_val_split(old(a)@, i as nat);
        if borrow != 0 {
            assert(i == n);
            assert(a@.take(i as int) =~= a@);
            assert(old(a)@.take(i as int) =~= old(a)@);
            lemma_mag_val_bound(a@);
            assert(false);
        }
    }
}

/// One pass of reversed subtraction over buffers of equal length:
/// `b := a - b`, returning the final borrow bit.
pub fn __sub2rev(a: &Vec<u32>, b: &mut Vec<u32>) -> (r: u8)
    requires
        old(b)@.len() == a@.len(),
    ensures
        r <= 1,
        final(b)@.len() == old(b)@.len(),
        mag_val(final(b)@) + mag_val(old(b)@)
            == mag_val(a@) + (r as nat) * digit_weight(a@.len()),
{
    let mut borrow: u8 = 0;
    let mut i: usize = 0;
    while i < a.len()
        invariant
            b@.len() == a@.len(),
            old(b)@.len() == a@.len(),
            0 <= i <= a@.len(),
            borrow <= 1,
            b@.skip(i as int) =~= old(b)@.skip(i as int),
            mag_val(b@.take(i as int)) + mag_val(old(b)@.take(i as int))
                == mag_val(a@.take(i as int)) + borrow * digit_weight(i as nat),
        decreases a@.len() - i,
    {
        let ghost pre = b@;
        let ghost c1 = borrow as nat;
        let x = a[i];
        let y = b[i];
        let mut t = y;
        borrow = sbb(borrow, x, y, &mut t);
        b.set(i, t);
        proof {
            lemma_prefix_update(pre, old(b)@, b@, i as nat, t);
            lemma_sub_weighted(i as nat, t as nat, y as nat, c1, x as nat,
                borrow as nat);
            assert(a@.take(i as int + 1) =~= a@.take(i as int).push(x));
            lemma_mag_val_snoc(a@.take(i as int), x);
        }
        i = i + 1;
    }
    proof {
        assert(a@.take(i as int) =~= a@);
        assert(b@.take(i as int) =~= b@);
        assert(old(b)@.take(i as int) =~= old(b)@);
    }
    borrow
}

/// Reversed subtraction `b := a - b` where `b` is the buffer at least as
/// long as `a`; the value of `b` must not exceed that of `a`, so digits of
/// `b` past `a`'s length can only be zero and no borrow can remain.
pub fn sub2rev(a: &Vec<u32>, b: &mut Vec<u32>)
    requires
        old(b)@.len() >= a@.len(),
        mag_val(old(b)@) <= mag_val(a@),
    ensures
        final(b)@.len() == old(b)@.len(),
        mag_val(final(b)@) == mag_val(a@) - mag_val(old(b)@),
{
    let len = a.len();
    // split off the (all-zero) tail of `b` in the proof, not in the code
    proof {
        lemma_mag_val_split(old(b)@, len as nat);
        lemma_mag_val_bound(a@);
        lemma_mag_val_zero(old(b)@.skip(len as int));
        lemma_digit_weight_pos(len as nat);
        let hi = mag_val(old(b)@.skip(len as int));
        let w = digit_weight(len as nat);
        if hi > 0 {
            assert(w * hi >= w) by (nonlinear_arith)
                requires hi >= 1, w >= 1;
            assert(false);
        }
    }
    let mut borrow: u8 = 0;
    let mut i: usize = 0;
    while i < len
        invariant
            len == a@.len(),
            b@.len() == old(b)@.len() >= a@.len(),
            0 <= i <= len,
            borrow <= 1,
            b@.skip(i as int) =~= old(b)@.skip(i as int),
            mag_val(b@.take(i as int)) + mag_val(old(b)@.take(i as int))
                == mag_val(a@.take(i as int)) + borrow * digit_weight(i as nat),
        decreases len - i,
    {
        let ghost pre = b@;
        let ghost c1 = borrow as nat;
        let x = a[i];
        let y = b[i];
        let mut t = y;
        borrow = sbb(borrow, x, y, &mut t);
        b.set(i, t);
        proof {
            lemma_prefix_update(pre, old(b)@, b@, i as nat, t);
            lemma_sub_weighted(i as nat, t as nat, y as nat, c1, x as nat,
                borrow as nat);
            assert(a@.take(i as int + 1) =~= a@.take(i as int).push(x));
            lemma_mag_val_snoc(a@.take(i as int), x);
        }
        i = i + 1;
    }
    // no borrow can survive: the prefix of `b` holds all of `b`'s value,
    // which does not exceed `a`'s
    proof {
        assert(a@.take(i as int) =~= a@);
        assert(mag_val(old(b)@.take(i as int)) == mag_val(old(b)@));
        lemma_mag_val_split(b@, i as nat);
        lemma_mag_val_split(old(b)@, i as nat);
        if borrow != 0 {
            lemma_mag_val_bound(b@.take(i as int));
            assert(false);
        }
        assert(b@.skip(i as int) =~= old(b)@.skip(i as int));
        assert(mag_val(b@) == mag_val(a@) - mag_val(old(b)@));
    }
}

/// Subtraction inverts addition exactly: for any magnitudes `a` and `b`, the
/// value that `add` returns for them satisfies `sub`'s precondition with
/// `b`, and subtracting `b` gives back `a`'s value; and addition commutes.
pub proof fn lemma_add_sub_inverse(a: BigUint, b: BigUint)
    requires
        a.wf(),
        b.wf(),
    ensures
        b@ <= a@ + b@,
        (a@ + b@) - b@ == a@,
        a@ + b@ == b@ + a@,
{
}

impl BigUint {
    /// Subtracts `other` from `self`; `other` must not exceed `self`.
    pub fn sub_assign(&mut self, other: &BigUint)
        requires
            old(self).wf(),
            other.wf(),
            other@ <= old(self)@,
        ensures
            final(self).wf(),
            final(self)@ == old(self)@ - other@,
    {
        sub2(&mut self.data, &other.data);
        self.normalize();
    }

    /// Returns `self - other`; `other` must not exceed `self`.
    pub fn sub(self, other: &BigUint) -> (r: BigUint)
        requires
            self.wf(),
            other.wf(),
            other@ <= self@,
        ensures
            r.wf(),
            r@ == self@ - other@,
    {
        let mut s = self;
        s.sub_assign(other);
        s
    }

    /// Returns `self - other`, reusing `other`'s buffer; `other` must not
    /// exceed `self`.
    pub fn sub_rev(&self, other: BigUint) -> (r: BigUint)
        requires
            self.wf(),
            other.wf(),
            other@ <= self@,
        ensures
            r.wf(),
            r@ == self@ - other@,
    {
        let mut other = other;
        let ghost oval = other@;
        let other_len = other.data.len();
        if other_len < self.data.len() {
            // bring `other` up to length first; its value is unchanged
            while other.data.len() < self.data.len()
                invariant
                    mag_val(other.data@) == oval,
                    other.data@.len() <= self.data@.len(),
                decreases self.data@.len() - other.data@.len(),
            {
                let ghost pre = other.data@;
                other.data.push(0);
                proof {
                    lemma_mag_val_snoc(pre, 0);
                }
            }
        }
        sub2rev(&self.data, &mut other.data);
        other.normalized()
    }

    /// Subtracts one machine digit in place; it must not exceed `self`.
    pub fn sub_assign_u32(&mut self, other: u32)
        requires
            old(self).wf(),
            other <= old(self)@,
        ensures
            final(self).wf(),
            final(self)@ == old(self)@ - other,
    {
        let mut b: Vec<u32> = Vec::new();
        b.push(other);
        proof {
            assert(b@ =~= seq![other]);
            crate::values::lemma_mag_val_single(other);
        }
        sub2(&mut self.data, &b);
        self.normalize();
    }

    /// Subtracts a 64-bit value in place; it must not exceed `self`.
    pub fn sub_assign_u64(&mut self, other: u64)
        requires
            old(self).wf(),
            other <= old(self)@,
        ensures
            final(self).wf(),
            final(self)@ == old(self)@ - other,
    {
        let lo = (other % 0x1_0000_0000) as u32;
        let hi = (other / 0x1_0000_0000) as u32;
        let mut b: Vec<u32> = Vec::new();
        b.push(lo);
        b.push(hi);
        proof {
            assert(b@ =~= seq![lo, hi]);
            crate::values::lemma_mag_val_pair(lo, hi);
            vstd::arithmetic::div_mod::lemma_fundamental_div_mod(other as int,
                0x1_0000_0000);
        }
        sub2(&mut self.data, &b);
        self.normalize();
    }

    /// Subtracts a 128-bit value in place; it must not exceed `self`.
    pub fn sub_assign_u128(&mut self, other: u128)
        requires
            old(self).wf(),
            other <= old(self)@,
        ensures
            final(self).wf(),
            final(self)@ == old(self)@ - other,
    {
        let d0 = (other % 0x1_0000_0000) as u32;
        let d1 = ((other / 0x1_0000_0000) % 0x1_0000_0000) as u32;
        let d2 = ((other / 0x1_0000_0000_0000_0000) % 0x1_0000_0000) as u32;
        let d3 = (other / 0x1_0000_0000_0000_0000_0000_0000) as u32;
        let mut b: Vec<u32> = Vec::new();
        b.push(d0);
        b.push(d1);
        b.push(d2);
        b.push(d3);
        proof {
            assert(b@ =~= seq![d0, d1, d2, d3]);
            crate::values::lemma_mag_val_quad(d0, d1, d2, d3);
            crate::addition::lemma_u128_digits(other);
        }
        sub2(&mut self.data, &b);
        self.normalize();
    }

    /// Returns `self` minus one machine digit.
    pub fn sub_u32(self, other: u32) -> (r: BigUint)
        requires
            self.wf(),
            other <= self@,
        ensures
            r.wf(),
            r@ == self@ - other,
    {
        let mut s = self;
        s.sub_assign_u32(other);
        s
    }

    /// Returns `self` minus a 64-bit value.
    pub fn sub_u64(self, other: u64) -> (r: BigUint)
        requires
            self.wf(),
            other <= self@,
        ensures
            r.wf(),
            r@ == self@ - other,
    {
        let mut s = self;
        s.sub_assign_u64(other);
        s
    }

    /// Returns `self` minus a 128-bit value.
    pub fn sub_u128(self, other: u128) -> (r: BigUint)
        requires
            self.wf(),
            other <= self@,
        ensures
            r.wf(),
            r@ == self@ - other,
    {
        let mut s = self;
        s.sub_assign_u128(other);
        s
    }

    /// Checked subtraction: `None` exactly when `v` exceeds `self`.
    pub fn checked_sub(&self, v: &BigUint) -> (r: Option<BigUint>)
        requires
            self.wf(),
            v.wf(),
        ensures
            r is Some <==> v@ <= self@,
            r is Some ==> r->Some_0.wf() && r->Some_0@ == self@ - v@,
    {
        match self.cmp(v) {
            Ordering::Less => None,
            Ordering::Equal => Some(BigUint::zero()),
            Ordering::Greater => Some(self.clone().sub(v)),
        }
    }
}

} // verus!
