//! Schoolbook long multiplication: multiply-accumulate of one digit at a
//! time through a double-width intermediate, and the magnitude product built
//! on it.

use vstd::prelude::*;
use crate::biguint::{BigUint, biguint_from_vec};
use crate::values::{mag_val, digit_weight, lemma_mag_val_snoc, lemma_mag_val_bound,
    lemma_mag_val_split, lemma_prefix_update, lemma_weighted_carry, lemma_distribute3,
    lemma_digit_weight_succ, lemma_digit_weight_pos};
use vstd::arithmetic::mul::lemma_mul_upper_bound;
use vstd::arithmetic::power2::lemma_pow2_adds;

verus! {

/// One multiply-accumulate step: returns the low digit of
/// `a + b * c + *acc` and leaves the high part in `*acc`.
pub fn mac_with_carry(a: u32, b: u32, c: u32, acc: &mut u64) -> (r: u32)
    requires
        *old(acc) < 0x1_0000_0000,
    ensures
        *final(acc) < 0x1_0000_0000,
        r as nat + 0x1_0000_0000 * (*final(acc) as nat)
            == a as nat + (b as nat) * (c as nat) + *old(acc) as nat,
{
    proof {
        lemma_mul_upper_bound(b as int, 0xFFFF_FFFF, c as int, 0xFFFF_FFFF);
    }
    let t: u64 = *acc + a as u64 + (b as u64) * (c as u64);
    *acc = t / 0x1_0000_0000;
    proof {
        assert(t / 0x1_0000_0000 < 0x1_0000_0000) by (nonlinear_arith)
            requires t <= 0xFFFF_FFFF_FFFF_FFFFu64;
    }
    (t % 0x1_0000_0000) as u32
}

/// Weights compose: the weight of position `off + i` is the product of the
/// weights of `off` and `i`.
pub proof fn lemma_weight_add(off: nat, i: nat)
    ensures
        digit_weight(off + i) == digit_weight(off) * digit_weight(i),
{
    lemma_pow2_adds(32 * off, 32 * i);
    assert(32 * (off + i) == 32 * off + 32 * i) by (nonlinear_arith);
}

/// Multiply-accumulate of a whole vector: `acc += b * c`, with `b` entering
/// `acc` at digit offset `off`. The caller guarantees the result still fits
/// in `acc`'s digits.
pub fn mac_digit(acc: &mut Vec<u32>, off: usize, b: &Vec<u32>, c: u32)
    requires
        off + b@.len() <= old(acc)@.len(),
        mag_val(old(acc)@) + mag_val(b@) * (c as nat) * digit_weight(off as nat)
            < digit_weight(old(acc)@.len()),
    ensures
        final(acc)@.len() == old(acc)@.len(),
        mag_val(final(acc)@)
            == mag_val(old(acc)@) + mag_val(b@) * (c as nat) * digit_weight(off as nat),
{
    let ghost w_off = digit_weight(off as nat);
    let n = acc.len();
    let mut carry: u64 = 0;
    let mut i: usize = 0;
    proof {
        assert(b@.take(0) =~= Seq::<u32>::empty());
        assert(acc@.take(off as int) =~= old(acc)@.take(off as int));
        assert(mag_val(b@.take(0)) * (c as nat) * w_off == 0) by (nonlinear_arith)
            requires mag_val(b@.take(0)) == 0;
    }
    while i < b.len()
        invariant
            n == acc@.len(),
            acc@.len() == old(acc)@.len(),
            off + b@.len() <= acc@.len(),
            0 <= i <= b@.len(),
            carry < 0x1_0000_0000,
            w_off == digit_weight(off as nat),
            acc@.skip(off + i) =~= old(acc)@.skip(off + i),
            mag_val(acc@.take(off + i)) + (carry as nat) * digit_weight((off + i) as nat)
                == mag_val(old(acc)@.take(off + i))
                    + mag_val(b@.take(i as int)) * (c as nat) * w_off,
        decreases b@.len() - i,
    {
        let p = off + i;
        let ghost pre = acc@;
        let ghost c1 = carry as nat;
        let x = acc[p];
        let y = b[i];
        let t = mac_with_carry(x, y, c, &mut carry);
        acc.set(p, t);
        proof {
            lemma_prefix_update(pre, old(acc)@, acc@, p as nat, t);
            lemma_weighted_carry(p as nat, t as nat, carry as nat,
                x as nat + (y as nat) * (c as nat) + c1);
            lemma_distribute3(x as nat, (y as nat) * (c as nat), c1,
                digit_weight(p as nat));
            assert(b@.take(i as int + 1) =~= b@.take(i as int).push(y));
            lemma_mag_val_snoc(b@.take(i as int), y);
            // (val + y*w(i)) * c * w_off == val*c*w_off + (y*c)*w(p)
            lemma_weight_add(off as nat, i as nat);
            let vb = mag_val(b@.take(i as int));
            assert((vb + (y as nat) * digit_weight(i as nat)) * (c as nat) * w_off
                == vb * (c as nat) * w_off
                    + (y as nat) * (c as nat) * (w_off * digit_weight(i as nat)))
                by (nonlinear_arith);
        }
        i = i + 1;
    }
    // propagate the remaining carry through the high digits of `acc`
    let mut p = off + b.len();
    proof {
        assert(b@.take(b@.len() as int) =~= b@);
    }
    while carry != 0 && p < n
        invariant
            n == acc@.len(),
            acc@.len() == old(acc)@.len(),
            off + b@.len() <= p <= acc@.len(),
            carry < 0x1_0000_0000,
            w_off == digit_weight(off as nat),
            acc@.skip(p as int) =~= old(acc)@.skip(p as int),
            mag_val(acc@.take(p as int)) + (carry as nat) * digit_weight(p as nat)
                == mag_val(old(acc)@.take(p as int))
                    + mag_val(b@) * (c as nat) * w_off,
        decreases acc@.len() - p,
    {
        let ghost pre = acc@;
        let ghost c1 = carry as nat;
        let x = acc[p];
        let sum: u64 = x as u64 + carry;
        let t = (sum % 0x1_0000_0000) as u32;
        carry = sum / 0x1_0000_0000;
        acc.set(p, t);
        proof {
            lemma_prefix_update(pre, old(acc)@, acc@, p as nat, t);
            lemma_weighted_carry(p as nat, t as nat, carry as nat, x as nat + c1);
            lemma_distribute3(x as nat, c1, 0, digit_weight(p as nat));
        }
        p = p + 1;
    }
    // either the carry died out (tail unchanged on both sides), or it ran off
    // the top, which the size precondition forbids
    proof {
        lemma_mag_val_split(acc@, p as nat);
        lemma_mag_val_split(old(acc)@, p as nat);
        if carry != 0 {
            assert(p == n);
            assert(acc@.take(p as int) =~= acc@);
            assert(old(acc)@.take(p as int) =~= old(acc)@);
            lemma_digit_weight_pos(n as nat);
            assert((carry as nat) * digit_weight(n as nat) >= digit_weight(n as nat))
                by (nonlinear_arith)
                requires carry >= 1, digit_weight(n as nat) >= 1;
            assert(false);
        }
    }
}

/// In-place scalar fold for radix import: `data := data * m + d`.
pub fn mul_add_digit(data: &mut Vec<u32>, m: u32, d: u32)
    ensures
        mag_val(final(data)@) == mag_val(old(data)@) * (m as nat) + d as nat,
{
    let mut carry: u64 = d as u64;
    let mut i: usize = 0;
    proof {
        assert(data@.take(0) =~= Seq::<u32>::empty());
        assert(digit_weight(0) == 1) by {
            vstd::arithmetic::power2::lemma2_to64();
        }
        assert(mag_val(data@.take(0)) * (m as nat) == 0) by (nonlinear_arith)
            requires mag_val(data@.take(0)) == 0;
    }
    while i < data.len()
        invariant
            data@.len() == old(data)@.len(),
            0 <= i <= data@.len(),
            carry < 0x1_0000_0000,
            data@.skip(i as int) =~= old(data)@.skip(i as int),
            mag_val(data@.take(i as int)) + (carry as nat) * digit_weight(i as nat)
                == mag_val(old(data)@.take(i as int)) * (m as nat) + d as nat,
        decreases data@.len() - i,
    {
        let ghost pre = data@;
        let ghost c1 = carry as nat;
        let x = data[i];
        let t = mac_with_carry(0, x, m, &mut carry);
        data.set(i, t);
        proof {
            lemma_prefix_update(pre, old(data)@, data@, i as nat, t);
            lemma_weighted_carry(i as nat, t as nat, carry as nat,
                (x as nat) * (m as nat) + c1);
            lemma_distribute3((x as nat) * (m as nat), c1, 0, digit_weight(i as nat));
            // (val + x*w(i)) * m == val*m + (x*m)*w(i)
            let v = mag_val(old(data)@.take(i as int));
            assert((v + (x as nat) * digit_weight(i as nat)) * (m as nat)
                == v * (m as nat)
                    + (x as nat) * (m as nat) * digit_weight(i as nat))
                by (nonlinear_arith);
        }
        i = i + 1;
    }
    proof {
        assert(data@.take(i as int) =~= data@);
        assert(old(data)@.take(i as int) =~= old(data)@);
    }
    if carry != 0 {
        let ghost pre = data@;
        data.push((carry % 0x1_0000_0000) as u32);
        proof {
            lemma_mag_val_snoc(pre, (carry % 0x1_0000_0000) as u32);
        }
    }
}

impl BigUint {
    /// Returns the product of the two magnitudes.
    pub fn mul(&self, other: &BigUint) -> (r: BigUint)
        requires
            self.wf(),
            other.wf(),
            self.data@.len() + other.data@.len() <= usize::MAX,
        ensures
            r.wf(),
            r@ == self@ * other@,
    {
        let an = self.data.len();
        let bn = other.data.len();
        let mut prod: Vec<u32> = Vec::new();
        let mut k: usize = 0;
        while k < an + bn
            invariant
                0 <= k <= an + bn,
                an + bn <= usize::MAX,
                prod@.len() == k,
                mag_val(prod@) == 0,
                an == self.data@.len(),
                bn == other.data@.len(),
            decreases an + bn - k,
        {
            let ghost pre = prod@;
            prod.push(0);
            proof {
                lemma_mag_val_snoc(pre, 0);
            }
            k = k + 1;
        }
        let mut j: usize = 0;
        proof {
            assert(other.data@.take(0) =~= Seq::<u32>::empty());
            assert(self@ * mag_val(other.data@.take(0)) == 0) by (nonlinear_arith)
                requires mag_val(other.data@.take(0)) == 0;
        }
        while j < bn
            invariant
                0 <= j <= bn,
                an == self.data@.len(),
                bn == other.data@.len(),
                prod@.len() == an + bn,
                self.wf(),
                other.wf(),
                mag_val(prod@) == self@ * mag_val(other.data@.take(j as int)),
            decreases bn - j,
        {
            let y = other.data[j];
            proof {
                lemma_mul_fits(self.data@, other.data@, j as nat, y);
            }
            mac_digit(&mut prod, j, &self.data, y);
            proof {
                assert(other.data@.take(j as int + 1)
                    =~= other.data@.take(j as int).push(y));
                lemma_mag_val_snoc(other.data@.take(j as int), y);
                let va = self@;
                let vb = mag_val(other.data@.take(j as int));
                let wj = digit_weight(j as nat);
                assert(va * (vb + (y as nat) * wj)
                    == va * vb + va * (y as nat) * wj) by (nonlinear_arith);
            }
            j = j + 1;
        }
        proof {
            assert(other.data@.take(j as int) =~= other.data@);
        }
        biguint_from_vec(prod)
    }

    /// Multiplication of magnitudes cannot overflow, so the checked form
    /// always succeeds.
    pub fn checked_mul(&self, v: &BigUint) -> (r: Option<BigUint>)
        requires
            self.wf(),
            v.wf(),
            self.data@.len() + v.data@.len() <= usize::MAX,
        ensures
            r is Some,
            r->Some_0.wf(),
            r->Some_0@ == self@ * v@,
    {
        Some(self.mul(v))
    }
}

/// The running product stays below the weight of the output length, so each
/// multiply-accumulate pass has room for its carry.
proof fn lemma_mul_fits(a: Seq<u32>, b: Seq<u32>, j: nat, y: u32)
    requires
        j < b.len(),
        y == b[j as int],
    ensures
        mag_val(a) * mag_val(b.take(j as int))
            + mag_val(a) * (y as nat) * digit_weight(j)
            < digit_weight(a.len() + b.len()),
{
    let va = mag_val(a);
    let vb1 = mag_val(b.take(j as int + 1));
    assert(b.take(j as int + 1) =~= b.take(j as int).push(y));
    lemma_mag_val_snoc(b.take(j as int), y);
    assert(va * vb1 == va * mag_val(b.take(j as int)) + va * (y as nat) * digit_weight(j))
        by (nonlinear_arith)
        requires vb1 == mag_val(b.take(j as int)) + (y as nat) * digit_weight(j);
    lemma_mag_val_bound(a);
    lemma_mag_val_bound(b);
    // the prefix never exceeds the whole
    lemma_mag_val_split(b, (j + 1) as nat);
    assert(vb1 <= mag_val(b));
    lemma_digit_weight_pos(a.len());
    lemma_digit_weight_pos(b.len());
    assert(va * vb1 < digit_weight(a.len()) * digit_weight(b.len()))
        by (nonlinear_arith)
        requires
            va < digit_weight(a.len()),
            vb1 < digit_weight(b.len()),
            digit_weight(a.len()) >= 1,
            digit_weight(b.len()) >= 1,
    ;
    lemma_weight_add(a.len(), b.len());
}

} // verus!
