//! Magnitude division. A divisor that fits in one digit takes the fast
//! digit-at-a-time path over a hardware-width division; a wider divisor takes
//! a bit-at-a-time long division over the dividend's bits.

use vstd::prelude::*;
use core::cmp::Ordering;
use crate::biguint::BigUint;
use crate::multiplication::mul_add_digit;
use crate::values::{mag_val, digit_weight, lemma_mag_val_single};
use vstd::arithmetic::power2::pow2;
use vstd::arithmetic::power2::{lemma_pow2_unfold, lemma2_to64, lemma_pow2_pos};
use vstd::arithmetic::div_mod::{lemma_fundamental_div_mod,
    lemma_fundamental_div_mod_converse_div, lemma_fundamental_div_mod_converse_mod,
    lemma_basic_div, lemma_div_denominator};

verus! {

/// Whether the target divides a double digit by a single digit in one
/// hardware instruction; the digit-at-a-time export path assumes it does.
pub const FAST_DIV_WIDE: bool = true;

/// Divides a magnitude by one nonzero digit, returning quotient and
/// remainder.
pub fn div_rem_digit(a: BigUint, b: u32) -> (res: (BigUint, u32))
    requires
        a.wf(),
        b != 0,
    ensures
        res.0.wf(),
        res.0@ == a@ / b as nat,
        res.1 == a@ % b as nat,
        res.1 < b,
{
    let ghost orig = a.data@;
    let mut data = a.data;
    let n = data.len();
    let mut rem: u64 = 0;
    let mut i: usize = n;
    proof {
        assert(orig.skip(n as int) =~= Seq::<u32>::empty());
        assert(mag_val(orig.skip(n as int)) * (b as nat) == 0) by (nonlinear_arith)
            requires mag_val(orig.skip(n as int)) == 0;
        assert(data@.take(n as int) =~= orig.take(n as int));
    }
    while i > 0
        invariant
            n == data@.len(),
            orig.len() == n,
            0 <= i <= n,
            rem < b,
            b != 0,
            data@.take(i as int) =~= orig.take(i as int),
            mag_val(orig.skip(i as int))
                == mag_val(data@.skip(i as int)) * (b as nat) + rem,
        decreases i,
    {
        let ghost pre = data@;
        let ghost rem0 = rem as nat;
        i = i - 1;
        proof {
            assert(data@.take(i as int + 1)[i as int] == orig.take(i as int + 1)[i as int]);
        }
        let x = data[i];
        proof {
            assert(x == orig[i as int]);
            assert(rem0 * 0x1_0000_0000 + (x as nat) < 0x1_0000_0000_0000_0000)
                by (nonlinear_arith)
                requires rem0 < 0x1_0000_0000, x < 0x1_0000_0000;
        }
        let cur: u64 = rem * 0x1_0000_0000 + x as u64;
        let qd: u64 = cur / (b as u64);
        rem = cur % (b as u64);
        proof {
            lemma_fundamental_div_mod(cur as int, b as int);
            assert(qd < 0x1_0000_0000) by (nonlinear_arith)
                requires
                    qd == cur as nat / b as nat,
                    cur as nat <= (b as nat) * 0x1_0000_0000 - 1,
                    b >= 1,
            ;
        }
        data.set(i, qd as u32);
        proof {
            lemma_div_digit_step(orig, pre, data@, i as nat, x, qd as nat,
                rem0, rem as nat, b);
        }
    }
    proof {
        assert(data@.skip(0) =~= data@);
        assert(orig.skip(0) =~= orig);
        lemma_fundamental_div_mod_converse_div(mag_val(orig) as int, b as int,
            mag_val(data@) as int, rem as int);
        lemma_fundamental_div_mod_converse_mod(mag_val(orig) as int, b as int,
            mag_val(data@) as int, rem as int);
    }
    let q = BigUint { data }.normalized();
    (q, rem as u32)
}

/// One step of digit-at-a-time division, moving the boundary down from
/// `i + 1` to `i`.
proof fn lemma_div_digit_step(
    orig: Seq<u32>,
    pre: Seq<u32>,
    cur: Seq<u32>,
    i: nat,
    x: u32,
    qd: nat,
    rem0: nat,
    rem1: nat,
    b: u32,
)
    requires
        pre.len() == orig.len(),
        i < pre.len(),
        cur =~= pre.update(i as int, qd as u32),
        qd < 0x1_0000_0000,
        pre.take(i as int + 1) =~= orig.take(i as int + 1),
        x == orig[i as int],
        rem0 * 0x1_0000_0000 + x as nat == qd * (b as nat) + rem1,
        mag_val(orig.skip(i as int + 1))
            == mag_val(pre.skip(i as int + 1)) * (b as nat) + rem0,
    ensures
        cur.take(i as int) =~= orig.take(i as int),
        mag_val(orig.skip(i as int))
            == mag_val(cur.skip(i as int)) * (b as nat) + rem1,
{
    let hi = mag_val(pre.skip(i as int + 1));
    // the quotient suffix past i is untouched by the update at i
    assert(cur.skip(i as int + 1) =~= pre.skip(i as int + 1));
    assert(cur.skip(i as int)[0] == qd as u32);
    assert(cur.skip(i as int).drop_first() =~= cur.skip(i as int + 1));
    assert(mag_val(cur.skip(i as int)) == qd + 0x1_0000_0000 * mag_val(cur.skip(i as int + 1)));
    assert(orig.skip(i as int)[0] == x);
    assert(orig.skip(i as int).drop_first() =~= orig.skip(i as int + 1));
    assert(mag_val(orig.skip(i as int))
        == x as nat + 0x1_0000_0000 * mag_val(orig.skip(i as int + 1)));
    // x + B*(hi*b + rem0) == (qd + B*hi)*b + rem1
    assert(0x1_0000_0000 * (hi * (b as nat) + rem0)
        == 0x1_0000_0000 * hi * (b as nat) + 0x1_0000_0000 * rem0)
        by (nonlinear_arith);
    assert((qd + 0x1_0000_0000 * hi) * (b as nat)
        == qd * (b as nat) + 0x1_0000_0000 * hi * (b as nat))
        by (nonlinear_arith);
    assert forall|m: int| 0 <= m < cur.take(i as int).len()
        implies #[trigger] cur.take(i as int)[m] == orig.take(i as int)[m] by {
        assert(pre.take(i as int + 1)[m] == orig.take(i as int + 1)[m]);
    }
}

impl BigUint {
    /// Divides `self` by a nonzero divisor, returning quotient and remainder.
    pub fn div_rem(&self, d: &BigUint) -> (res: (BigUint, BigUint))
        requires
            self.wf(),
            d.wf(),
            d@ > 0,
        ensures
            res.0.wf(),
            res.1.wf(),
            res.0@ == self@ / d@,
            res.1@ == self@ % d@,
            self@ == res.0@ * d@ + res.1@,
            res.1@ < d@,
    {
        proof {
            crate::values::lemma_mag_val_zero(d.data@);
        }
        if d.data.len() == 1 {
            let b = d.data[0];
            proof {
                assert(d.data@ =~= seq![d.data@[0]]);
                lemma_mag_val_single(d.data[0]);
            }
            let (q, r) = div_rem_digit(self.clone(), b);
            let rm = BigUint::from_u32(r);
            proof {
                lemma_fundamental_div_mod(self@ as int, d@ as int);
            }
            return (q, rm);
        }
        let mut q = BigUint::zero();
        let mut r = BigUint::zero();
        let n = self.data.len();
        let mut u = n;
        proof {
            assert(self.data@.skip(n as int) =~= Seq::<u32>::empty());
            assert(q@ * d@ == 0) by (nonlinear_arith)
                requires q@ == 0;
        }
        while u > 0
            invariant
                self.wf(),
                d.wf(),
                d@ > 0,
                n == self.data@.len(),
                0 <= u <= n,
                q.wf(),
                r.wf(),
                r@ < d@,
                q@ * d@ + r@ == mag_val(self.data@.skip(u as int)),
            decreases u,
        {
            u = u - 1;
            let x = self.data[u];
            let ghost hi = mag_val(self.data@.skip(u as int + 1));
            let mut pow: u32 = 0x8000_0000;
            let mut s: usize = 0;
            proof {
                lemma2_to64();
                lemma_basic_div(x as int, pow2(32) as int);
                assert(hi * pow2(0) == hi) by (nonlinear_arith)
                    requires pow2(0) == 1;
            }
            while s < 32
                invariant
                    d.wf(),
                    d@ > 0,
                    0 <= s <= 32,
                    s < 32 ==> pow == pow2((31 - s) as nat),
                    q.wf(),
                    r.wf(),
                    r@ < d@,
                    q@ * d@ + r@
                        == hi * pow2(s as nat) + (x as nat) / pow2((32 - s) as nat),
                decreases 32 - s,
            {
                let ghost qv = q@;
                let ghost rv = r@;
                let ghost j = (32 - s) as nat;
                proof {
                    lemma_pow2_pos((31 - s) as nat);
                }
                let bit = (x / pow) % 2;
                proof {
                    lemma_bit_peel(x, j, hi, pow2(s as nat), qv * d@ + rv);
                    assert(pow == pow2((j - 1) as nat));
                }
                mul_add_digit(&mut r.data, 2, bit);
                r.normalize();
                proof {
                    assert(r@ == 2 * rv + bit);
                    assert(r@ < 2 * d@);
                }
                let qbit: u32;
                match r.cmp(d) {
                    Ordering::Less => {
                        qbit = 0;
                    }
                    _ => {
                        r.sub_assign(d);
                        qbit = 1;
                    }
                }
                mul_add_digit(&mut q.data, 2, qbit);
                q.normalize();
                proof {
                    assert(q@ == 2 * qv + qbit);
                    assert(q@ * d@ == 2 * qv * d@ + qbit * d@) by (nonlinear_arith)
                        requires q@ == 2 * qv + qbit;
                    assert(2 * (qv * d@) == 2 * qv * d@) by (nonlinear_arith);
                }
                if s < 31 {
                    proof {
                        lemma_pow2_unfold((31 - s) as nat);
                    }
                    pow = pow / 2;
                } else {
                    pow = 0;
                }
                s = s + 1;
                proof {
                    lemma_pow2_unfold(s as nat);
                    assert(hi * pow2(s as nat) == 2 * (hi * pow2((s - 1) as nat)))
                        by (nonlinear_arith)
                        requires pow2(s as nat) == 2 * pow2((s - 1) as nat);
                }
            }
            proof {
                lemma2_to64();
                assert(self.data@.skip(u as int)[0] == x);
                assert(self.data@.skip(u as int).drop_first()
                    =~= self.data@.skip(u as int + 1));
                assert(hi * pow2(32) == 0x1_0000_0000 * hi) by (nonlinear_arith)
                    requires pow2(32) == 0x1_0000_0000;
                assert((x as nat) / pow2(0) == x) by (nonlinear_arith)
                    requires pow2(0) == 1;
            }
        }
        proof {
            assert(self.data@.skip(0) =~= self.data@);
            lemma_fundamental_div_mod_converse_div(self@ as int, d@ as int,
                q@ as int, r@ as int);
            lemma_fundamental_div_mod_converse_mod(self@ as int, d@ as int,
                q@ as int, r@ as int);
        }
        (q, r)
    }

    /// Quotient of truncating magnitude division.
    pub fn div(&self, other: &BigUint) -> (r: BigUint)
        requires
            self.wf(),
            other.wf(),
            other@ > 0,
        ensures
            r.wf(),
            r@ == self@ / other@,
    {
        let (q, _) = self.div_rem(other);
        q
    }

    /// Remainder of truncating magnitude division.
    pub fn rem(&self, other: &BigUint) -> (r: BigUint)
        requires
            self.wf(),
            other.wf(),
            other@ > 0,
        ensures
            r.wf(),
            r@ == self@ % other@,
    {
        let (_, rm) = self.div_rem(other);
        rm
    }

    /// Checked division: `None` exactly on a zero divisor.
    pub fn checked_div(&self, v: &BigUint) -> (r: Option<BigUint>)
        requires
            self.wf(),
            v.wf(),
        ensures
            r is Some <==> v@ > 0,
            r is Some ==> r->Some_0.wf() && r->Some_0@ == self@ / v@,
    {
        if v.is_zero() {
            None
        } else {
            Some(self.div(v))
        }
    }

    /// Checked remainder: `None` exactly on a zero divisor.
    pub fn checked_rem(&self, v: &BigUint) -> (r: Option<BigUint>)
        requires
            self.wf(),
            v.wf(),
        ensures
            r is Some <==> v@ > 0,
            r is Some ==> r->Some_0.wf() && r->Some_0@ == self@ % v@,
    {
        if v.is_zero() {
            None
        } else {
            Some(self.rem(v))
        }
    }
}

/// Peeling the next bit off the dividend: moving the boundary from `j` bits
/// unread to `j - 1` doubles the prefix and adds that bit.
proof fn lemma_bit_peel(x: u32, j: nat, hi: nat, p: nat, acc: nat)
    requires
        1 <= j <= 32,
        p == pow2((32 - j) as nat),
        acc == hi * p + (x as nat) / pow2(j),
    ensures
        hi * pow2((32 - j + 1) as nat) + (x as nat) / pow2((j - 1) as nat)
            == 2 * acc + ((x as nat) / pow2((j - 1) as nat)) % 2,
{
    let xl = x as nat;
    lemma_pow2_pos((j - 1) as nat);
    lemma_pow2_unfold(j);
    // x / 2^j == (x / 2^(j-1)) / 2
    lemma_div_denominator(xl as int, pow2((j - 1) as nat) as int, 2);
    assert(pow2((j - 1) as nat) * 2 == 2 * pow2((j - 1) as nat)) by (nonlinear_arith);
    assert(xl / pow2(j) == (xl / pow2((j - 1) as nat)) / 2);
    // x / 2^(j-1) == 2 * (x / 2^j) + bit
    lemma_fundamental_div_mod((xl / pow2((j - 1) as nat)) as int, 2);
    // prefix weight doubles
    lemma_pow2_unfold((32 - j + 1) as nat);
    assert(hi * pow2((32 - j + 1) as nat) == 2 * (hi * p)) by (nonlinear_arith)
        requires pow2((32 - j + 1) as nat) == 2 * p;
}

} // verus!
