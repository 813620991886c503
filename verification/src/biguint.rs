//! The unsigned magnitude type: a normalized little-endian vector of 32-bit
//! digits. Zero is the empty vector; no other magnitude carries a trailing
//! zero digit.

use vstd::prelude::*;
use core::cmp::Ordering;
use crate::values::{mag_val, is_normal, digit_weight};
use crate::values::{lemma_mag_val_zero, lemma_mag_val_normal_lower, lemma_mag_val_snoc,
    lemma_mag_val_bound, lemma_mag_val_cmp, lemma_digit_weight_pos};

verus! {

pub struct BigUint {
    pub data: Vec<u32>,
}

impl View for BigUint {
    type V = nat;

    open spec fn view(&self) -> nat {
        mag_val(self.data@)
    }
}

impl BigUint {
    /// The representation invariant: no trailing zero digit.
    pub open spec fn wf(&self) -> bool {
        is_normal(self.data@)
    }

    /// The canonical zero.
    pub fn zero() -> (r: Self)
        ensures
            r.wf(),
            r@ == 0,
    {
        BigUint { data: Vec::new() }
    }

    pub fn is_zero(&self) -> (r: bool)
        requires
            self.wf(),
        ensures
            r <==> self@ == 0,
    {
        proof {
            lemma_mag_val_zero(self.data@);
            if self.data@.len() > 0 {
                assert(self.data@.last() != 0);
            }
        }
        self.data.len() == 0
    }

    /// Strips trailing zero digits, restoring the invariant without changing
    /// the value.
    pub fn normalize(&mut self)
        ensures
            final(self).wf(),
            final(self)@ == old(self)@,
    {
        loop
            invariant
                mag_val(self.data@) == old(self)@,
            ensures
                is_normal(self.data@),
                mag_val(self.data@) == old(self)@,
            decreases self.data@.len(),
        {
            let n = self.data.len();
            if n == 0 {
                break;
            }
            if self.data[n - 1] != 0 {
                break;
            }
            let ghost pre = self.data@;
            proof {
                assert(pre =~= pre.take(n - 1).push(pre[n - 1]));
                lemma_mag_val_snoc(pre.take(n - 1), pre[n - 1]);
            }
            self.data.pop();
            proof {
                assert(self.data@ =~= pre.take(n - 1));
            }
        }
    }

    /// Returns the magnitude with trailing zero digits stripped.
    pub fn normalized(self) -> (r: Self)
        ensures
            r.wf(),
            r@ == self@,
    {
        let mut u = self;
        u.normalize();
        u
    }

    /// Builds a magnitude from one machine digit.
    pub fn from_u32(n: u32) -> (r: Self)
        ensures
            r.wf(),
            r@ == n,
    {
        let mut data: Vec<u32> = Vec::new();
        if n != 0 {
            data.push(n);
            proof {
                assert(data@ =~= seq![n]);
                crate::values::lemma_mag_val_single(n);
            }
        }
        BigUint { data }
    }

    /// Builds a magnitude from a 64-bit value, splitting it into digits.
    pub fn from_u64(n: u64) -> (r: Self)
        ensures
            r.wf(),
            r@ == n,
    {
        let lo = (n % 0x1_0000_0000) as u32;
        let hi = (n / 0x1_0000_0000) as u32;
        let mut data: Vec<u32> = Vec::new();
        if hi != 0 {
            data.push(lo);
            data.push(hi);
            proof {
                assert(data@ =~= seq![lo, hi]);
                crate::values::lemma_mag_val_pair(lo, hi);
                vstd::arithmetic::div_mod::lemma_fundamental_div_mod(
                    n as int, 0x1_0000_0000);
            }
            BigUint { data }
        } else {
            proof {
                vstd::arithmetic::div_mod::lemma_fundamental_div_mod(
                    n as int, 0x1_0000_0000);
            }
            Self::from_u32(lo)
        }
    }

    /// Builds a magnitude from a 128-bit value, splitting it into digits.
    pub fn from_u128(n: u128) -> (r: Self)
        ensures
            r.wf(),
            r@ == n,
    {
        let lo = (n % 0x1_0000_0000_0000_0000) as u64;
        let hi = (n / 0x1_0000_0000_0000_0000) as u64;
        proof {
            vstd::arithmetic::div_mod::lemma_fundamental_div_mod(
                n as int, 0x1_0000_0000_0000_0000);
        }
        if hi == 0 {
            Self::from_u64(lo)
        } else {
            let mut data: Vec<u32> = Vec::new();
            let l0 = (lo % 0x1_0000_0000) as u32;
            let l1 = (lo / 0x1_0000_0000) as u32;
            let h0 = (hi % 0x1_0000_0000) as u32;
            let h1 = (hi / 0x1_0000_0000) as u32;
            data.push(l0);
            data.push(l1);
            data.push(h0);
            data.push(h1);
            proof {
                vstd::arithmetic::div_mod::lemma_fundamental_div_mod(
                    lo as int, 0x1_0000_0000);
                vstd::arithmetic::div_mod::lemma_fundamental_div_mod(
                    hi as int, 0x1_0000_0000);
                assert(data@ =~= seq![l0, l1, h0, h1]);
                crate::values::lemma_mag_val_quad(l0, l1, h0, h1);
            }
            let u = BigUint { data };
            u.normalized()
        }
    }

    /// Compares two magnitudes numerically.
    pub fn cmp(&self, other: &Self) -> (r: Ordering)
        requires
            self.wf(),
            other.wf(),
        ensures
            r == Ordering::Less <==> self@ < other@,
            r == Ordering::Equal <==> self@ == other@,
            r == Ordering::Greater <==> self@ > other@,
    {
        let a = &self.data;
        let b = &other.data;
        if a.len() < b.len() {
            proof {
                lemma_mag_val_bound(a@);
                lemma_mag_val_normal_lower(b@);
                lemma_weight_monotone(a@.len(), (b@.len() - 1) as nat);
            }
            return Ordering::Less;
        }
        if a.len() > b.len() {
            proof {
                lemma_mag_val_bound(b@);
                lemma_mag_val_normal_lower(a@);
                lemma_weight_monotone(b@.len(), (a@.len() - 1) as nat);
            }
            return Ordering::Greater;
        }
        let mut i = a.len();
        loop
            invariant
                a@.len() == b@.len(),
                0 <= i <= a@.len(),
                a@.skip(i as int) =~= b@.skip(i as int),
                mag_val(a@) == self@,
                mag_val(b@) == other@,
            ensures
                self@ == other@,
            decreases i,
        {
            if i == 0 {
                proof {
                    assert(a@.skip(0) =~= a@);
                    assert(b@.skip(0) =~= b@);
                    assert(a@ =~= b@);
                }
                break;
            }
            let j = i - 1;
            let x = a[j];
            let y = b[j];
            if x < y {
                proof {
                    lemma_mag_val_cmp(a@, b@, j as int);
                }
                return Ordering::Less;
            }
            if x > y {
                proof {
                    lemma_mag_val_cmp(b@, a@, j as int);
                }
                return Ordering::Greater;
            }
            proof {
                assert(a@.skip(j as int) =~= b@.skip(j as int)) by {
                    assert forall|m: int| 0 <= m < a@.skip(j as int).len()
                        implies a@.skip(j as int)[m] == b@.skip(j as int)[m] by {
                        if m > 0 {
                            assert(a@.skip(i as int)[m - 1] == b@.skip(i as int)[m - 1]);
                        }
                    }
                }
            }
            i = j;
        }
        Ordering::Equal
    }
}

/// Weights of lower positions never exceed weights of higher ones.
pub proof fn lemma_weight_monotone(j: nat, k: nat)
    requires
        j <= k,
    ensures
        digit_weight(j) <= digit_weight(k),
{
    if j < k {
        vstd::arithmetic::power2::lemma_pow2_strictly_increases(32 * j, 32 * k);
    }
}

/// Wraps a raw digit vector as a magnitude, stripping trailing zeros.
pub fn biguint_from_vec(data: Vec<u32>) -> (r: BigUint)
    ensures
        r.wf(),
        r@ == mag_val(data@),
{
    let u = BigUint { data };
    u.normalized()
}

} // verus!
