//! The signed integer: a sign tag paired with an unsigned magnitude. The tag
//! is `NoSign` exactly when the magnitude is zero. Addition dispatches on the
//! two signs, multiplication multiplies them, and division assigns them by
//! the truncating rule, with Euclidean variants adjusting by one.

use vstd::prelude::*;
use core::cmp::Ordering;
use crate::biguint::BigUint;

verus! {

#[derive(Clone, Copy, Debug, PartialEq, Eq, Structural)]
pub enum Sign {
    Minus,
    NoSign,
    Plus,
}

impl Sign {
    /// The sign of a product: `NoSign` absorbs, like signs give `Plus`,
    /// unlike signs give `Minus`.
    pub fn mul(self, other: Sign) -> (r: Sign)
        ensures
            r == Sign::NoSign <==> (self == Sign::NoSign || other == Sign::NoSign),
            (self != Sign::NoSign && other != Sign::NoSign)
                ==> (r == Sign::Plus <==> self == other),
    {
        match (self, other) {
            (Sign::NoSign, _) | (_, Sign::NoSign) => Sign::NoSign,
            (Sign::Plus, Sign::Plus) | (Sign::Minus, Sign::Minus) => Sign::Plus,
            (Sign::Plus, Sign::Minus) | (Sign::Minus, Sign::Plus) => Sign::Minus,
        }
    }

    /// The opposite sign.
    pub fn neg(self) -> (r: Sign)
        ensures
            self == Sign::Plus ==> r == Sign::Minus,
            self == Sign::Minus ==> r == Sign::Plus,
            self == Sign::NoSign ==> r == Sign::NoSign,
    {
        match self {
            Sign::Plus => Sign::Minus,
            Sign::NoSign => Sign::NoSign,
            Sign::Minus => Sign::Plus,
        }
    }
}

pub struct BigInt {
    pub sign: Sign,
    pub data: BigUint,
}

/// Magnitude of an integer.
pub open spec fn int_abs(x: int) -> nat {
    if x >= 0 {
        x as nat
    } else {
        (-x) as nat
    }
}

/// Quotient of truncating (toward zero) division.
pub open spec fn trunc_quot(a: int, b: int) -> int
    recommends
        b != 0,
{
    if (a >= 0) == (b >= 0) {
        (int_abs(a) / int_abs(b)) as int
    } else {
        -((int_abs(a) / int_abs(b)) as int)
    }
}

/// Remainder of truncating division; it carries the dividend's sign.
pub open spec fn trunc_rem(a: int, b: int) -> int
    recommends
        b != 0,
{
    if a >= 0 {
        (int_abs(a) % int_abs(b)) as int
    } else {
        -((int_abs(a) % int_abs(b)) as int)
    }
}

impl View for BigInt {
    type V = int;

    open spec fn view(&self) -> int {
        match self.sign {
            Sign::Plus => self.data@ as int,
            Sign::NoSign => 0,
            Sign::Minus => -(self.data@ as int),
        }
    }
}

impl BigInt {
    /// The representation invariant: a normalized magnitude, and the
    /// `NoSign` tag exactly on the zero magnitude.
    pub open spec fn wf(&self) -> bool {
        &&& self.data.wf()
        &&& (self.sign == Sign::NoSign <==> self.data@ == 0)
    }

    /// The canonical zero.
    pub fn zero() -> (r: Self)
        ensures
            r.wf(),
            r@ == 0,
    {
        BigInt { sign: Sign::NoSign, data: BigUint::zero() }
    }

    /// Pairs a sign with a magnitude, restoring the invariant: a zero
    /// magnitude drops the sign, and `NoSign` forces the magnitude to zero.
    pub fn from_biguint(sign: Sign, data: BigUint) -> (r: Self)
        requires
            data.wf(),
        ensures
            r.wf(),
            sign == Sign::Plus ==> r@ == data@,
            sign == Sign::Minus ==> r@ == -(data@ as int),
            sign == Sign::NoSign ==> r@ == 0,
    {
        match sign {
            Sign::NoSign => BigInt::zero(),
            _ => {
                if data.is_zero() {
                    BigInt { sign: Sign::NoSign, data }
                } else {
                    BigInt { sign, data }
                }
            }
        }
    }

    /// The integer with the opposite sign.
    pub fn neg(self) -> (r: Self)
        requires
            self.wf(),
        ensures
            r.wf(),
            r@ == -self@,
    {
        BigInt { sign: self.sign.neg(), data: self.data }
    }

    pub fn is_negative(&self) -> (r: bool)
        ensures
            r <==> self.sign == Sign::Minus,
    {
        match self.sign {
            Sign::Minus => true,
            _ => false,
        }
    }

    pub fn is_positive(&self) -> (r: bool)
        ensures
            r <==> self.sign == Sign::Plus,
    {
        match self.sign {
            Sign::Plus => true,
            _ => false,
        }
    }

    pub fn is_zero(&self) -> (r: bool)
        requires
            self.wf(),
        ensures
            r <==> self@ == 0,
    {
        match self.sign {
            Sign::NoSign => true,
            _ => false,
        }
    }

    /// Signed addition, dispatching on the pair of signs: like signs add
    /// magnitudes and keep the sign; unlike signs subtract the smaller
    /// magnitude from the larger, which donates its operand's sign.
    pub fn add(&self, other: &BigInt) -> (r: Self)
        requires
            self.wf(),
            other.wf(),
        ensures
            r.wf(),
            r@ == self@ + other@,
    {
        match (self.sign, other.sign) {
            (_, Sign::NoSign) => self.clone(),
            (Sign::NoSign, _) => other.clone(),
            (Sign::Plus, Sign::Plus) | (Sign::Minus, Sign::Minus) => {
                BigInt::from_biguint(self.sign, self.data.clone().add(&other.data))
            }
            _ => {
                // opposite signs: the larger magnitude wins
                match self.data.cmp(&other.data) {
                    Ordering::Less => BigInt::from_biguint(other.sign,
                        other.data.clone().sub(&self.data)),
                    Ordering::Greater => BigInt::from_biguint(self.sign,
                        self.data.clone().sub(&other.data)),
                    Ordering::Equal => BigInt::zero(),
                }
            }
        }
    }

    pub fn add_assign(&mut self, other: &BigInt)
        requires
            old(self).wf(),
            other.wf(),
        ensures
            final(self).wf(),
            final(self)@ == old(self)@ + other@,
    {
        *self = self.add(other);
    }

    /// Signed subtraction: adds the negation.
    pub fn sub(&self, other: &BigInt) -> (r: Self)
        requires
            self.wf(),
            other.wf(),
        ensures
            r.wf(),
            r@ == self@ - other@,
    {
        let n = other.clone().neg();
        self.add(&n)
    }

    pub fn sub_assign(&mut self, other: &BigInt)
        requires
            old(self).wf(),
            other.wf(),
        ensures
            final(self).wf(),
            final(self)@ == old(self)@ - other@,
    {
        *self = self.sub(other);
    }

    /// Signed addition cannot fail.
    pub fn checked_add(&self, v: &BigInt) -> (r: Option<BigInt>)
        requires
            self.wf(),
            v.wf(),
        ensures
            r is Some,
            r->Some_0.wf(),
            r->Some_0@ == self@ + v@,
    {
        Some(self.add(v))
    }

    /// Signed subtraction cannot fail.
    pub fn checked_sub(&self, v: &BigInt) -> (r: Option<BigInt>)
        requires
            self.wf(),
            v.wf(),
        ensures
            r is Some,
            r->Some_0.wf(),
            r->Some_0@ == self@ - v@,
    {
        Some(self.sub(v))
    }

    /// Signed multiplication: magnitudes multiply and signs multiply.
    pub fn mul(&self, other: &BigInt) -> (r: Self)
        requires
            self.wf(),
            other.wf(),
            self.data.data@.len() + other.data.data@.len() <= usize::MAX,
        ensures
            r.wf(),
            r@ == self@ * other@,
    {
        let s = self.sign.mul(other.sign);
        let m = self.data.mul(&other.data);
        proof {
            lemma_signed_product(self@, other@, self.data@, other.data@,
                self.sign, other.sign);
        }
        BigInt::from_biguint(s, m)
    }

    pub fn mul_assign(&mut self, other: &BigInt)
        requires
            old(self).wf(),
            other.wf(),
            old(self).data.data@.len() + other.data.data@.len() <= usize::MAX,
        ensures
            final(self).wf(),
            final(self)@ == old(self)@ * other@,
    {
        *self = self.mul(other);
    }

    /// Signed multiplication cannot fail.
    pub fn checked_mul(&self, v: &BigInt) -> (r: Option<BigInt>)
        requires
            self.wf(),
            v.wf(),
            self.data.data@.len() + v.data.data@.len() <= usize::MAX,
        ensures
            r is Some,
            r->Some_0.wf(),
            r->Some_0@ == self@ * v@,
    {
        Some(self.mul(v))
    }

    /// Truncating division: quotient rounded toward zero, remainder with the
    /// dividend's sign.
    pub fn div_rem(&self, other: &BigInt) -> (res: (Self, Self))
        requires
            self.wf(),
            other.wf(),
            other@ != 0,
        ensures
            res.0.wf(),
            res.1.wf(),
            res.0@ == trunc_quot(self@, other@),
            res.1@ == trunc_rem(self@, other@),
    {
        let (q, r) = self.data.div_rem(&other.data);
        let q_sign = self.sign.mul(other.sign);
        let qi = BigInt::from_biguint(q_sign, q);
        let ri = BigInt::from_biguint(self.sign, r);
        proof {
            assert(int_abs(self@) == self.data@);
            assert(int_abs(other@) == other.data@);
            vstd::arithmetic::div_mod::lemma_div_of0(int_abs(other@) as int);
            vstd::arithmetic::div_mod::lemma_small_mod(0, int_abs(other@));
        }
        (qi, ri)
    }

    /// Quotient of truncating division.
    pub fn div(&self, other: &BigInt) -> (r: Self)
        requires
            self.wf(),
            other.wf(),
            other@ != 0,
        ensures
            r.wf(),
            r@ == trunc_quot(self@, other@),
    {
        let (q, _) = self.div_rem(other);
        q
    }

    /// Remainder of truncating division.
    pub fn rem(&self, other: &BigInt) -> (r: Self)
        requires
            self.wf(),
            other.wf(),
            other@ != 0,
        ensures
            r.wf(),
            r@ == trunc_rem(self@, other@),
    {
        let (_, rm) = self.div_rem(other);
        rm
    }

    pub fn div_assign(&mut self, other: &BigInt)
        requires
            old(self).wf(),
            other.wf(),
            other@ != 0,
        ensures
            final(self).wf(),
            final(self)@ == trunc_quot(old(self)@, other@),
    {
        *self = self.div(other);
    }

    pub fn rem_assign(&mut self, other: &BigInt)
        requires
            old(self).wf(),
            other.wf(),
            other@ != 0,
        ensures
            final(self).wf(),
            final(self)@ == trunc_rem(old(self)@, other@),
    {
        *self = self.rem(other);
    }

    /// Checked truncating division: `None` exactly on a zero divisor.
    pub fn checked_div(&self, v: &BigInt) -> (r: Option<BigInt>)
        requires
            self.wf(),
            v.wf(),
        ensures
            r is Some <==> v@ != 0,
            r is Some ==> r->Some_0.wf() && r->Some_0@ == trunc_quot(self@, v@),
    {
        if v.is_zero() {
            return None;
        }
        Some(self.div(v))
    }

    /// Checked truncating remainder: `None` exactly on a zero divisor.
    pub fn checked_rem(&self, v: &BigInt) -> (r: Option<BigInt>)
        requires
            self.wf(),
            v.wf(),
        ensures
            r is Some <==> v@ != 0,
            r is Some ==> r->Some_0.wf() && r->Some_0@ == trunc_rem(self@, v@),
    {
        if v.is_zero() {
            return None;
        }
        Some(self.rem(v))
    }

    /// Euclidean division and remainder: the remainder is never negative,
    /// and the identity `self == q * other + r` holds.
    pub fn div_rem_euclid(&self, v: &BigInt) -> (res: (Self, Self))
        requires
            self.wf(),
            v.wf(),
            v@ != 0,
        ensures
            res.0.wf(),
            res.1.wf(),
            self@ == res.0@ * v@ + res.1@,
            0 <= res.1@ < int_abs(v@),
    {
        proof {
            lemma_trunc_div_identity(self@, v@);
        }
        let (q, r) = self.div_rem(v);
        if r.is_negative() {
            let one = BigInt::from_biguint(Sign::Plus, BigUint::from_u32(1));
            if v.is_positive() {
                let q2 = q.sub(&one);
                let r2 = r.add(v);
                proof {
                    lemma_shift_quotient(q@, r@, v@, -1);
                }
                (q2, r2)
            } else {
                let q2 = q.add(&one);
                let r2 = r.sub(v);
                proof {
                    lemma_shift_quotient(q@, r@, v@, 1);
                }
                (q2, r2)
            }
        } else {
            (q, r)
        }
    }

    /// Euclidean quotient.
    pub fn div_euclid(&self, v: &BigInt) -> (r: Self)
        requires
            self.wf(),
            v.wf(),
            v@ != 0,
        ensures
            r.wf(),
            self@ - r@ * v@ >= 0,
            self@ - r@ * v@ < int_abs(v@),
    {
        let (q, rm) = self.div_rem_euclid(v);
        q
    }

    /// Euclidean remainder: never negative, below the divisor's magnitude.
    pub fn rem_euclid(&self, v: &BigInt) -> (r: Self)
        requires
            self.wf(),
            v.wf(),
            v@ != 0,
        ensures
            r.wf(),
            0 <= r@ < int_abs(v@),
            exists|q: int| self@ == #[trigger] (q * v@) + r@,
    {
        let (q, rm) = self.div_rem_euclid(v);
        proof {
            assert(self@ == (q@ * v@) + rm@);
        }
        rm
    }

    /// Checked Euclidean quotient: `None` exactly on a zero divisor.
    pub fn checked_div_euclid(&self, v: &BigInt) -> (r: Option<BigInt>)
        requires
            self.wf(),
            v.wf(),
        ensures
            r is Some <==> v@ != 0,
            r is Some ==> r->Some_0.wf()
                && 0 <= self@ - r->Some_0@ * v@ < int_abs(v@),
    {
        if v.is_zero() {
            return None;
        }
        Some(self.div_euclid(v))
    }

    /// Checked Euclidean remainder: `None` exactly on a zero divisor.
    pub fn checked_rem_euclid(&self, v: &BigInt) -> (r: Option<BigInt>)
        requires
            self.wf(),
            v.wf(),
        ensures
            r is Some <==> v@ != 0,
            r is Some ==> r->Some_0.wf() && 0 <= r->Some_0@ < int_abs(v@)
                && exists|q: int| self@ == #[trigger] (q * v@) + r->Some_0@,
    {
        if v.is_zero() {
            return None;
        }
        Some(self.rem_euclid(v))
    }

    /// Checked Euclidean division pair: `None` exactly on a zero divisor.
    pub fn checked_div_rem_euclid(&self, v: &BigInt) -> (r: Option<(BigInt, BigInt)>)
        requires
            self.wf(),
            v.wf(),
        ensures
            r is Some <==> v@ != 0,
            r is Some ==> r->Some_0.0.wf() && r->Some_0.1.wf()
                && self@ == r->Some_0.0@ * v@ + r->Some_0.1@
                && 0 <= r->Some_0.1@ < int_abs(v@),
    {
        if v.is_zero() {
            return None;
        }
        Some(self.div_rem_euclid(v))
    }
}

impl BigInt {
    /// A signed integer from an unsigned machine word.
    pub fn from_u32(n: u32) -> (r: Self)
        ensures
            r.wf(),
            r@ == n,
    {
        BigInt::from_biguint(Sign::Plus, BigUint::from_u32(n))
    }

    /// A signed integer from an unsigned 64-bit value.
    pub fn from_u64(n: u64) -> (r: Self)
        ensures
            r.wf(),
            r@ == n,
    {
        BigInt::from_biguint(Sign::Plus, BigUint::from_u64(n))
    }

    /// A signed integer from an unsigned 128-bit value.
    pub fn from_u128(n: u128) -> (r: Self)
        ensures
            r.wf(),
            r@ == n,
    {
        BigInt::from_biguint(Sign::Plus, BigUint::from_u128(n))
    }

    /// A signed integer from a signed machine word.
    pub fn from_i32(n: i32) -> (r: Self)
        ensures
            r.wf(),
            r@ == n,
    {
        Self::from_i64(n as i64)
    }

    /// A signed integer from a signed 64-bit value.
    pub fn from_i64(n: i64) -> (r: Self)
        ensures
            r.wf(),
            r@ == n,
    {
        if n < 0 {
            let m = (-(n as i128)) as u64;
            BigInt::from_biguint(Sign::Minus, BigUint::from_u64(m))
        } else {
            BigInt::from_biguint(Sign::Plus, BigUint::from_u64(n as u64))
        }
    }

    /// A signed integer from a signed 128-bit value.
    pub fn from_i128(n: i128) -> (r: Self)
        ensures
            r.wf(),
            r@ == n,
    {
        if n < 0 {
            if n == i128::MIN {
                let m = 0x8000_0000_0000_0000_0000_0000_0000_0000u128;
                BigInt::from_biguint(Sign::Minus, BigUint::from_u128(m))
            } else {
                BigInt::from_biguint(Sign::Minus, BigUint::from_u128((-n) as u128))
            }
        } else {
            BigInt::from_biguint(Sign::Plus, BigUint::from_u128(n as u128))
        }
    }
}

impl Clone for BigInt {
    fn clone(&self) -> (r: Self)
        ensures
            r.sign == self.sign,
            r.data@ == self.data@,
            r@ == self@,
            self.wf() ==> r.wf(),
    {
        BigInt { sign: self.sign, data: self.data.clone() }
    }
}

/// The sign-and-magnitude product rule agrees with integer multiplication.
proof fn lemma_signed_product(a: int, b: int, ma: nat, mb: nat, sa: Sign, sb: Sign)
    requires
        sa == Sign::Plus ==> a == ma,
        sa == Sign::Minus ==> a == -(ma as int),
        sa == Sign::NoSign ==> a == 0 && ma == 0,
        sb == Sign::Plus ==> b == mb,
        sb == Sign::Minus ==> b == -(mb as int),
        sb == Sign::NoSign ==> b == 0 && mb == 0,
    ensures
        (sa == sb && sa != Sign::NoSign && sb != Sign::NoSign)
            ==> a * b == ma * mb,
        (sa != sb && sa != Sign::NoSign && sb != Sign::NoSign)
            ==> a * b == -((ma * mb) as int),
        (sa == Sign::NoSign || sb == Sign::NoSign) ==> a * b == 0 && ma * mb == 0,
{
    assert((-(ma as int)) * (-(mb as int)) == ma * mb) by (nonlinear_arith);
    assert((ma as int) * (-(mb as int)) == -((ma * mb) as int)) by (nonlinear_arith);
    assert((-(ma as int)) * (mb as int) == -((ma * mb) as int)) by (nonlinear_arith);
    if ma == 0 || mb == 0 {
        assert(ma * mb == 0) by (nonlinear_arith)
            requires ma == 0 || mb == 0;
    }
    if a == 0 || b == 0 {
        assert(a * b == 0) by (nonlinear_arith)
            requires a == 0 || b == 0;
    }
}

/// Truncating division satisfies the division identity, and its remainder is
/// smaller than the divisor and carries the dividend's sign.
pub proof fn lemma_trunc_div_identity(a: int, b: int)
    requires
        b != 0,
    ensures
        trunc_quot(a, b) * b + trunc_rem(a, b) == a,
        int_abs(trunc_rem(a, b)) < int_abs(b),
        a >= 0 ==> trunc_rem(a, b) >= 0,
        a <= 0 ==> trunc_rem(a, b) <= 0,
{
    let ma = int_abs(a);
    let mb = int_abs(b);
    let q = ma / mb;
    let r = ma % mb;
    vstd::arithmetic::div_mod::lemma_fundamental_div_mod(ma as int, mb as int);
    assert(ma == q * mb + r) by (nonlinear_arith)
        requires ma == mb * q + r;
    // each sign combination reduces to the magnitude identity
    if a >= 0 && b >= 0 {
        assert((q as int) * b == q * mb) by (nonlinear_arith)
            requires b == mb;
    } else if a >= 0 && b < 0 {
        assert((-(q as int)) * b == q * mb) by (nonlinear_arith)
            requires b == -(mb as int);
    } else if a < 0 && b >= 0 {
        assert((-(q as int)) * b == -((q * mb) as int)) by (nonlinear_arith)
            requires b == mb;
    } else {
        assert((q as int) * b == -((q * mb) as int)) by (nonlinear_arith)
            requires b == -(mb as int);
    }
}

/// Adjusting a division pair by one multiple of the divisor preserves the
/// division identity.
proof fn lemma_shift_quotient(q: int, r: int, v: int, dq: int)
    ensures
        (q + dq) * v + (r - dq * v) == q * v + r,
{
    assert((q + dq) * v == q * v + dq * v) by (nonlinear_arith);
}

/// Any integer with a zero magnitude carries the `NoSign` tag, and equals
/// the canonical zero in value.
pub proof fn lemma_zero_no_sign(x: BigInt)
    requires
        x.wf(),
    ensures
        x@ == 0 <==> x.sign == Sign::NoSign,
{
}

/// Subtracting any integer from itself yields a value equal to the
/// canonical zero, which carries no sign.
pub proof fn lemma_sub_self_zero(a: BigInt, r: BigInt)
    requires
        a.wf(),
        r.wf(),
        r@ == a@ - a@,
    ensures
        r@ == 0,
        r.sign == Sign::NoSign,
        r.data@ == 0,
{
}

} // verus!
