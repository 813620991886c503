//! Radix conversion: importing magnitudes from radix-digit sequences and
//! textual digit strings, exporting them back, and the precomputed maximal
//! digit-group bases that batch the per-digit work.

use vstd::prelude::*;
use crate::biguint::BigUint;
use crate::division::div_rem_digit;
use crate::values::{mag_val, digit_weight, radix_val_le, radix_val_be};
use vstd::arithmetic::power::pow;
use vstd::arithmetic::power2::pow2;
use vstd::arithmetic::power2::{lemma_pow2_pos, lemma_pow2_adds, lemma2_to64,
    lemma_pow2_strictly_increases, is_pow2};
use vstd::arithmetic::power::{lemma_pow_positive, lemma_pow_adds, lemma_pow1,
    lemma_pow0, lemma_pow_strictly_increases};
use vstd::arithmetic::div_mod::{lemma_fundamental_div_mod,
    lemma_fundamental_div_mod_converse_div, lemma_fundamental_div_mod_converse_mod,
    lemma_small_div_converse, lemma_basic_div};

verus! {

/// Position of the last set bit: `fls(0) == 0`, `fls(u32::MAX) == 32`.
pub fn fls(v: u32) -> (r: u8)
    ensures
        r <= 32,
        (v as nat) < pow2(r as nat),
        v > 0 ==> r >= 1 && pow2((r - 1) as nat) <= v,
        v == 0 ==> r == 0,
{
    let mut n = v;
    let mut r: u8 = 0;
    proof {
        assert(pow2(0) == 1) by {
            lemma2_to64();
        }
        vstd::arithmetic::div_mod::lemma_div_basics(v as int);
    }
    while n > 0
        invariant
            r <= 32,
            n == v as nat / pow2(r as nat),
            r > 0 ==> pow2((r - 1) as nat) <= v,
        decreases n,
    {
        proof {
            lemma_pow2_pos(r as nat);
            vstd::arithmetic::power2::lemma_pow2_unfold((r + 1) as nat);
            vstd::arithmetic::div_mod::lemma_div_denominator(v as int,
                pow2(r as nat) as int, 2);
            assert(pow2(r as nat) * 2 == 2 * pow2(r as nat));
            // n >= 1 here, so v >= pow2(r)
            lemma_fundamental_div_mod(v as int, pow2(r as nat) as int);
            assert(pow2(r as nat) * (v as nat / pow2(r as nat)) >= pow2(r as nat))
                by (nonlinear_arith)
                requires
                    v as nat / pow2(r as nat) >= 1,
                    pow2(r as nat) >= 1,
            ;
            // v < 2^32 keeps r below 32
            if r >= 32 {
                lemma2_to64();
                if r > 32 {
                    lemma_pow2_strictly_increases(32, r as nat);
                }
                lemma_basic_div(v as int, pow2(r as nat) as int);
                assert(false);
            }
        }
        n = n / 2;
        r = r + 1;
    }
    proof {
        lemma_pow2_pos(r as nat);
        lemma_small_div_converse(v as int, pow2(r as nat) as int);
        if r > 0 {
            lemma_pow2_pos((r - 1) as nat);
        }
    }
    r
}

/// Base-two logarithm of a nonzero value, rounded down.
pub fn ilog2(v: u32) -> (r: u8)
    requires
        v > 0,
    ensures
        r <= 31,
        pow2(r as nat) <= v < pow2((r + 1) as nat),
{
    let f = fls(v);
    f - 1
}

/// A power of two equals the power of two of its logarithm.
pub proof fn lemma_pow2_exact(v: u32, b: nat)
    requires
        is_pow2(v as int),
        pow2(b) <= v,
        (v as nat) < pow2(b + 1),
    ensures
        v == pow2(b),
{
    vstd::arithmetic::power2::is_pow2_equiv(v as int);
    let i = choose|i: nat| pow(2, i) == v as int;
    vstd::arithmetic::power2::lemma_pow2(i);
    assert(pow2(i) == v);
    if i < b {
        lemma_pow2_strictly_increases(i, b);
        assert(false);
    }
    if i > b {
        lemma_pow2_strictly_increases(b + 1, i + 1);
        if i != b + 1 {
            lemma_pow2_strictly_increases(b + 1, i);
        }
        assert(false);
    }
}

/// Whether a value is a power of two.
pub fn is_power_of_two(v: u32) -> (r: bool)
    ensures
        r <==> is_pow2(v as int),
{
    let mut n = v;
    if n == 0 {
        proof {
            reveal(is_pow2);
        }
        return false;
    }
    while n > 1
        invariant
            n >= 1,
            is_pow2(v as int) <==> is_pow2(n as int),
        decreases n,
    {
        proof {
            reveal(is_pow2);
        }
        if n % 2 == 1 {
            return false;
        }
        n = n / 2;
    }
    proof {
        reveal(is_pow2);
    }
    true
}

/// The greatest power of `radix` not exceeding `max`, with its exponent.
fn max_pow_base(radix: u32, max: u32) -> (res: (u32, usize))
    requires
        2 <= radix,
        radix <= max,
    ensures
        res.0 == pow(radix as int, res.1 as nat),
        res.1 >= 1,
        res.0 <= max,
        (res.0 as nat) * (radix as nat) > max,
{
    let mut base = radix;
    let mut power: usize = 1;
    proof {
        lemma_pow1(radix as int);
    }
    proof {
        assert(pow2(1) == 2) by {
            lemma2_to64();
        }
    }
    while base <= max / radix
        invariant
            2 <= radix <= max,
            1 <= power,
            base == pow(radix as int, power as nat),
            radix <= base <= max,
            pow2(power as nat) <= base,
        decreases max - base,
    {
        proof {
            lemma_fundamental_div_mod(max as int, radix as int);
            // base <= max / radix means base * radix <= max
            assert((base as nat) * (radix as nat)
                <= ((max as nat) / (radix as nat)) * (radix as nat))
                by (nonlinear_arith)
                requires base as nat <= (max as nat) / (radix as nat), radix >= 2;
            assert(((max as nat) / (radix as nat)) * (radix as nat) <= max as nat)
                by (nonlinear_arith)
                requires
                    max as int == (radix as int) * ((max as int) / (radix as int))
                        + (max as int) % (radix as int),
                    (max as int) % (radix as int) >= 0,
            ;
            lemma_pow_adds(radix as int, power as nat, 1);
            lemma_pow1(radix as int);
            // the base at least doubles each round, bounding the exponent
            assert((base as nat) * (radix as nat) >= (base as nat) * 2)
                by (nonlinear_arith)
                requires radix >= 2, base >= 1;
            vstd::arithmetic::power2::lemma_pow2_unfold((power + 1) as nat);
            assert(2 * pow2(power as nat) <= 2 * (base as nat)) by (nonlinear_arith)
                requires pow2(power as nat) <= base as nat;
            if power + 1 >= usize::MAX {
                lemma_pow2_strictly_increases(32, power as nat);
                lemma2_to64();
                assert(false);
            }
        }
        base = base * radix;
        power = power + 1;
    }
    proof {
        // base > max / radix means base * radix > max
        lemma_fundamental_div_mod(max as int, radix as int);
        assert((base as nat) * (radix as nat)
            >= ((max as nat) / (radix as nat) + 1) * (radix as nat))
            by (nonlinear_arith)
            requires base as nat >= (max as nat) / (radix as nat) + 1, radix >= 2;
        assert(((max as nat) / (radix as nat) + 1) * (radix as nat) > max as nat)
            by (nonlinear_arith)
            requires
                max as int == (radix as int) * ((max as int) / (radix as int))
                    + (max as int) % (radix as int),
                (max as int) % (radix as int) < radix as int,
            ;
    }
    (base, power)
}

/// Returns the greatest power of the radix that fits in one big digit.
pub fn get_radix_base(radix: u32) -> (res: (u32, usize))
    requires
        3 <= radix,
        radix < 256,
        !is_pow2(radix as int),
    ensures
        res.0 == pow(radix as int, res.1 as nat),
        res.1 >= 1,
        res.0 <= 0xFFFF_FFFF,
        (res.0 as nat) * (radix as nat) > 0xFFFF_FFFF,
{
    max_pow_base(radix, 0xFFFF_FFFF)
}

/// Returns the greatest power of the radix that fits in half a big digit.
pub fn get_half_radix_base(radix: u32) -> (res: (u32, usize))
    requires
        3 <= radix,
        radix < 256,
        !is_pow2(radix as int),
    ensures
        res.0 == pow(radix as int, res.1 as nat),
        res.1 >= 1,
        res.0 <= 0xFFFF,
        (res.0 as nat) * (radix as nat) > 0xFFFF,
{
    max_pow_base(radix, 0xFFFF)
}

/// Tables of the greatest power of each radix not exceeding the given
/// maximum, indexed by radix. Powers of two are implemented with shifts
/// instead, so their entries are zeroed, as is everything below radix 3.
pub fn generate_radix_bases(max: u32) -> (r: Vec<(u32, usize)>)
    requires
        max >= 256,
    ensures
        r@.len() == 257,
        forall|radix: int| 3 <= radix < 256 && !is_pow2(radix)
            ==> {
                &&& #[trigger] r@[radix].0 == pow(radix, r@[radix].1 as nat)
                &&& r@[radix].1 >= 1
                &&& r@[radix].0 <= max
                &&& (r@[radix].0 as nat) * (radix as nat) > max
            },
        forall|radix: int| 0 <= radix < 257 && !(3 <= radix < 256 && !is_pow2(radix))
            ==> #[trigger] r@[radix] == (0u32, 0usize),
{
    let mut bases: Vec<(u32, usize)> = Vec::new();
    let mut radix: u32 = 0;
    while radix < 257
        invariant
            bases@.len() == radix,
            radix <= 257,
            max >= 256,
            forall|q: int| 3 <= q < 256 && q < radix && !is_pow2(q)
                ==> {
                    &&& #[trigger] bases@[q].0 == pow(q, bases@[q].1 as nat)
                    &&& bases@[q].1 >= 1
                    &&& bases@[q].0 <= max
                    &&& (bases@[q].0 as nat) * (q as nat) > max
                },
            forall|q: int| 0 <= q < radix && !(3 <= q < 256 && !is_pow2(q))
                ==> #[trigger] bases@[q] == (0u32, 0usize),
        decreases 257 - radix,
    {
        if radix >= 3 && radix < 256 && !is_power_of_two(radix) {
            let entry = max_pow_base(radix, max);
            bases.push(entry);
        } else {
            bases.push((0, 0));
        }
        radix = radix + 1;
    }
    bases
}

/// A power of a power of two, as a power of two.
pub proof fn lemma_pow_pow2(bits: nat, k: nat)
    ensures
        pow(pow2(bits) as int, k) == pow2(bits * k),
{
    vstd::arithmetic::power2::lemma_pow2(bits);
    vstd::arithmetic::power2::lemma_pow2(bits * k);
    vstd::arithmetic::power::lemma_pow_multiplies(2, bits, k);
}

/// Computes a small power of two.
pub fn pow2_exec(e: u8) -> (r: u32)
    requires
        e <= 31,
    ensures
        r == pow2(e as nat),
        r >= 1,
{
    let mut r: u32 = 1;
    let mut i: u8 = 0;
    proof {
        lemma2_to64();
    }
    while i < e
        invariant
            i <= e <= 31,
            r == pow2(i as nat),
        decreases e - i,
    {
        proof {
            vstd::arithmetic::power2::lemma_pow2_unfold((i + 1) as nat);
            if i + 1 <= 31 {
                lemma_pow2_strictly_increases((i + 1) as nat, 32);
            }
            lemma2_to64();
        }
        r = r * 2;
        i = i + 1;
    }
    proof {
        lemma_pow2_pos(e as nat);
    }
    r
}

/// Bounds for a power of two with a small exponent.
proof fn lemma_pow2_bounds(bits: u8)
    requires
        1 <= bits <= 8,
    ensures
        2 <= pow2(bits as nat) <= 256,
{
    lemma2_to64();
    if bits > 1 {
        lemma_pow2_strictly_increases(1, bits as nat);
    }
    if bits < 8 {
        lemma_pow2_strictly_increases(bits as nat, 8);
    }
}

/// One emitted digit: pushing `r % base` and stepping `r` down to
/// `r / base` leaves the combined value unchanged.
proof fn lemma_emit(s: Seq<u8>, base: nat, d: u8, r: nat)
    requires
        base >= 2,
        d as nat == r % base,
    ensures
        radix_val_le(s.push(d), base)
            + pow(base as int, (s.len() + 1) as nat) * ((r / base) as int)
            == radix_val_le(s, base) + pow(base as int, s.len()) * (r as int),
{
    crate::values::lemma_radix_le_snoc(s, base, d);
    lemma_fundamental_div_mod(r as int, base as int);
    lemma_pow_adds(base as int, s.len(), 1);
    lemma_pow1(base as int);
    lemma_pow_positive(base as int, s.len());
    let p = pow(base as int, s.len());
    assert(p * base * ((r / base) as int) + (r % base) * p == p * (r as int))
        by (nonlinear_arith)
        requires r as int == base * ((r / base) as int) + (r % base), p >= 1;
}

/// Pushes exactly `count` little-endian base-`radix` digits of `r0`,
/// zero-padded at the top.
fn emit_le_digits(res: &mut Vec<u8>, r0: u32, count: usize, radix: u32)
    requires
        2 <= radix <= 256,
        (r0 as nat) < pow(radix as int, count as nat),
    ensures
        final(res)@.len() == old(res)@.len() + count,
        forall|i: int| 0 <= i < old(res)@.len() ==> final(res)@[i] == old(res)@[i],
        forall|i: int| old(res)@.len() <= i < final(res)@.len()
            ==> (#[trigger] final(res)@[i] as nat) < radix,
        radix_val_le(final(res)@, radix as nat)
            == radix_val_le(old(res)@, radix as nat)
                + (r0 as nat) * pow(radix as int, old(res)@.len()),
{
    let mut r = r0;
    let mut k: usize = 0;
    proof {
        lemma_pow_positive(radix as int, 0);
        lemma_pow0(radix as int);
    }
    while k < count
        invariant
            2 <= radix <= 256,
            0 <= k <= count,
            res@.len() == old(res)@.len() + k,
            forall|i: int| 0 <= i < old(res)@.len() ==> res@[i] == old(res)@[i],
            forall|i: int| old(res)@.len() <= i < res@.len()
                ==> (#[trigger] res@[i] as nat) < radix,
            (r as nat) < pow(radix as int, (count - k) as nat),
            radix_val_le(res@, radix as nat)
                + pow(radix as int, res@.len()) * (r as int)
                == radix_val_le(old(res)@, radix as nat)
                    + (r0 as nat) * pow(radix as int, old(res)@.len()),
        decreases count - k,
    {
        let d = (r % radix) as u8;
        let ghost pre = res@;
        let ghost rr = r as nat;
        res.push(d);
        proof {
            assert(res@ =~= pre.push(d));
            lemma_emit(pre, radix as nat, d, rr);
            // the bound on r steps down with it
            lemma_pow_adds(radix as int, (count - k - 1) as nat, 1);
            lemma_pow1(radix as int);
            lemma_pow_positive(radix as int, (count - k - 1) as nat);
            lemma_fundamental_div_mod(rr as int, radix as int);
            assert((rr / (radix as nat)) < pow(radix as int, (count - k - 1) as nat))
                by (nonlinear_arith)
                requires
                    rr < pow(radix as int, (count - k - 1) as nat) * (radix as int),
                    rr as int == (radix as int) * ((rr / (radix as nat)) as int)
                        + (rr % (radix as nat)),
                    (rr % (radix as nat)) >= 0,
                    radix >= 2,
            ;
        }
        r = r / radix;
        k = k + 1;
    }
    proof {
        lemma_pow0(radix as int);
        assert(pow(radix as int, 0) == 1);
        assert(r == 0);
        assert(pow(radix as int, res@.len()) * 0 == 0) by (nonlinear_arith);
    }
}

/// Pushes the little-endian base-`radix` digits of `r0`, stopping at the
/// last nonzero one.
fn emit_le_all(res: &mut Vec<u8>, r0: u32, radix: u32)
    requires
        2 <= radix <= 256,
    ensures
        final(res)@.len() >= old(res)@.len(),
        forall|i: int| 0 <= i < old(res)@.len() ==> final(res)@[i] == old(res)@[i],
        forall|i: int| old(res)@.len() <= i < final(res)@.len()
            ==> (#[trigger] final(res)@[i] as nat) < radix,
        radix_val_le(final(res)@, radix as nat)
            == radix_val_le(old(res)@, radix as nat)
                + (r0 as nat) * pow(radix as int, old(res)@.len()),
        r0 > 0 ==> final(res)@.len() > old(res)@.len()
            && final(res)@.last() != 0,
        r0 == 0 ==> final(res)@ =~= old(res)@,
{
    let mut r = r0;
    while r > 0
        invariant
            2 <= radix <= 256,
            res@.len() >= old(res)@.len(),
            forall|i: int| 0 <= i < old(res)@.len() ==> res@[i] == old(res)@[i],
            forall|i: int| old(res)@.len() <= i < res@.len()
                ==> (#[trigger] res@[i] as nat) < radix,
            radix_val_le(res@, radix as nat)
                + pow(radix as int, res@.len()) * (r as int)
                == radix_val_le(old(res)@, radix as nat)
                    + (r0 as nat) * pow(radix as int, old(res)@.len()),
            r == 0 && res@.len() > old(res)@.len() ==> res@.last() != 0,
            res@.len() == old(res)@.len() ==> r == r0,
            r0 == 0 ==> res@ =~= old(res)@,
        decreases r,
    {
        let d = (r % radix) as u8;
        let ghost pre = res@;
        let ghost rr = r as nat;
        res.push(d);
        proof {
            assert(res@ =~= pre.push(d));
            lemma_emit(pre, radix as nat, d, rr);
            lemma_fundamental_div_mod(rr as int, radix as int);
        }
        r = r / radix;
        proof {
            assert((r as nat) < rr) by (nonlinear_arith)
                requires
                    r as nat == rr / (radix as nat),
                    rr >= 1,
                    radix >= 2,
                    rr as int == (radix as int) * ((rr / (radix as nat)) as int)
                        + (rr % (radix as nat)),
                    (rr % (radix as nat)) >= 0,
            ;
            if r == 0 {
                // the digit just pushed was the whole of r, which was nonzero
                assert(rr < radix) by {
                    if rr >= radix {
                        assert(rr / (radix as nat) >= 1) by (nonlinear_arith)
                            requires rr >= radix, radix >= 2,
                                rr as int == (radix as int)
                                    * ((rr / (radix as nat)) as int)
                                    + (rr % (radix as nat)),
                                (rr % (radix as nat)) < radix as int,
                        ;
                    }
                }
                vstd::arithmetic::div_mod::lemma_small_mod(rr, radix as nat);
                assert(res@.last() == d);
            }
        }
    }
    proof {
        assert(pow(radix as int, res@.len()) * 0 == 0) by (nonlinear_arith);
    }
}

/// Extracts little-endian digits for a power-of-two radix whose bit width
/// evenly divides the digit width: each big digit yields a fixed number of
/// radix digits, no division needed.
pub fn to_bitwise_digits_le(u: &BigUint, bits: u8) -> (res: Vec<u8>)
    requires
        u.wf(),
        u@ > 0,
        1 <= bits <= 8,
        32 as nat % (bits as nat) == 0,
    ensures
        res@.len() >= 1,
        forall|i: int| 0 <= i < res@.len()
            ==> (#[trigger] res@[i] as nat) < pow2(bits as nat),
        res@.last() != 0,
        radix_val_le(res@, pow2(bits as nat)) == u@,
{
    let base = pow2_exec(bits);
    let dp = (32 / bits) as usize;
    let n = u.data.len();
    proof {
        crate::values::lemma_mag_val_zero(u.data@);
        assert(n >= 1);
        assert((bits as nat) * (dp as nat) == 32) by {
            lemma_fundamental_div_mod(32, bits as int);
        }
        lemma_pow_pow2(bits as nat, dp as nat);
        lemma2_to64();
        assert(u.data@.take(0) =~= Seq::<u32>::empty());
        lemma_pow2_bounds(bits);
    }
    let mut res: Vec<u8> = Vec::new();
    let mut i: usize = 0;
    while i < n - 1
        invariant
            u.wf(),
            1 <= bits <= 8,
            base == pow2(bits as nat),
            2 <= base <= 256,
            (bits as nat) * (dp as nat) == 32,
            n == u.data@.len(),
            n >= 1,
            pow(base as int, dp as nat) == pow2(32),
            pow2(32) == 0x1_0000_0000,
            0 <= i <= n - 1,
            res@.len() == i * dp,
            forall|k: int| 0 <= k < res@.len()
                ==> (#[trigger] res@[k] as nat) < base,
            radix_val_le(res@, base as nat) == mag_val(u.data@.take(i as int)),
        decreases n - 1 - i,
    {
        let x = u.data[i];
        let ghost pre = res@;
        emit_le_digits(&mut res, x, dp, base);
        proof {
            assert(u.data@.take(i as int + 1) =~= u.data@.take(i as int).push(x));
            crate::values::lemma_mag_val_snoc(u.data@.take(i as int), x);
            // the weight of position i*dp in the radix stream equals the
            // weight of digit i
            lemma_pow_pow2(bits as nat, (i * dp) as nat);
            lemma_pow_pow2(32, i as nat);
            vstd::arithmetic::power2::lemma_pow2(32 * (i as nat));
            assert((bits as nat) * ((i * dp) as nat) == 32 * (i as nat))
                by (nonlinear_arith)
                requires (bits as nat) * (dp as nat) == 32;
            assert(pow(base as int, pre.len()) == digit_weight(i as nat));
            assert(((i + 1) as int) * (dp as int) == i * dp + dp)
                by (nonlinear_arith);
        }
        i = i + 1;
    }
    let top = u.data[n - 1];
    let ghost pre = res@;
    emit_le_all(&mut res, top, base);
    proof {
        assert(u.data@.take(n - 1).push(top) =~= u.data@);
        crate::values::lemma_mag_val_snoc(u.data@.take(n - 1), top);
        let m = pre.len();
        assert((bits as nat) * m == 32 * ((n - 1) as nat)) by (nonlinear_arith)
            requires
                (bits as nat) * (dp as nat) == 32,
                m == ((n - 1) as int) * (dp as int),
        ;
        lemma_pow_pow2(bits as nat, m);
        assert(pow(base as int, m) == digit_weight((n - 1) as nat));
        assert(top != 0);
    }
    res
}

/// Extracts little-endian digits for a power-of-two radix whose bit width
/// does not divide the digit width: each big digit feeds a bit buffer, and a
/// radix digit is taken off the bottom whenever enough bits have gathered.
pub fn to_inexact_bitwise_digits_le(u: &BigUint, bits: u8) -> (res: Vec<u8>)
    requires
        u.wf(),
        u@ > 0,
        1 <= bits <= 8,
        32 as nat % (bits as nat) != 0,
    ensures
        res@.len() >= 1,
        forall|i: int| 0 <= i < res@.len()
            ==> (#[trigger] res@[i] as nat) < pow2(bits as nat),
        res@.last() != 0,
        radix_val_le(res@, pow2(bits as nat)) == u@,
{
    let base = pow2_exec(bits);
    let n = u.data.len();
    let mut res: Vec<u8> = Vec::new();
    let mut r: u64 = 0;
    let mut rbits: u8 = 0;
    let mut i: usize = 0;
    proof {
        lemma_pow2_bounds(bits);
        lemma2_to64();
        lemma_pow0(base as int);
        assert(u.data@.skip(0) =~= u.data@);
        assert(pow(base as int, 0) * ((r + pow2(rbits as nat) * mag_val(u.data@)) as int)
            == u@ as int) by (nonlinear_arith)
            requires
                pow(base as int, 0) == 1,
                r == 0,
                pow2(rbits as nat) == 1,
                mag_val(u.data@) == u@,
        ;
    }
    while i < n
        invariant
            1 <= bits <= 8,
            base == pow2(bits as nat),
            2 <= base <= 256,
            pow2(32) == 0x1_0000_0000,
            n == u.data@.len(),
            0 <= i <= n,
            rbits < bits,
            (r as nat) < pow2(rbits as nat),
            forall|m: int| 0 <= m < res@.len()
                ==> (#[trigger] res@[m] as nat) < base,
            radix_val_le(res@, base as nat)
                + pow(base as int, res@.len())
                    * ((r + pow2(rbits as nat) * mag_val(u.data@.skip(i as int))) as int)
                == u@ as int,
        decreases n - i,
    {
        let c = u.data[i];
        let pd = pow2_exec(rbits);
        let ghost r0 = r as nat;
        let ghost rb0 = rbits as nat;
        let ghost hi = mag_val(u.data@.skip(i as int + 1));
        proof {
            // feeding one digit moves 32 bits into the buffer
            assert(u.data@.skip(i as int)[0] == u.data@[i as int]);
            assert(u.data@.skip(i as int).drop_first() =~= u.data@.skip(i as int + 1));
            lemma_pow2_adds(rb0, 32);
            assert(pow2(rb0) * (c as nat + 0x1_0000_0000 * hi)
                == pow2(rb0) * (c as nat) + pow2((rb0 + 32) as nat) * hi)
                by (nonlinear_arith)
                requires pow2((rb0 + 32) as nat) == pow2(rb0) * 0x1_0000_0000;
            assert((c as nat) * pow2(rb0) < pow2((rb0 + 32) as nat))
                by (nonlinear_arith)
                requires
                    (c as nat) < 0x1_0000_0000,
                    pow2((rb0 + 32) as nat) == pow2(rb0) * 0x1_0000_0000,
                    pow2(rb0) >= 1,
            ;
            assert(pow2((rb0 + 32) as nat) <= pow2(40)) by {
                if rb0 + 32 < 40 {
                    lemma_pow2_strictly_increases((rb0 + 32) as nat, 40);
                }
            }
            vstd::arithmetic::power2::lemma2_to64_rest();
        }
        r = r + (c as u64) * (pd as u64);
        rbits = rbits + 32;
        proof {
            assert((r as nat) < pow2(rbits as nat)) by (nonlinear_arith)
                requires
                    r as nat == r0 + (c as nat) * pow2(rb0),
                    r0 < pow2(rb0),
                    (c as nat) < 0x1_0000_0000,
                    pow2(rbits as nat) == pow2(rb0) * 0x1_0000_0000,
                    pow2(rb0) >= 1,
            ;
            assert(pow2(rb0) * (c as nat) == (c as nat) * pow2(rb0))
                by (nonlinear_arith);
        }
        // take finished radix digits off the bottom of the buffer
        while rbits >= bits
            invariant
                1 <= bits <= 8,
                base == pow2(bits as nat),
                2 <= base <= 256,
                rbits <= 40,
                (r as nat) < pow2(rbits as nat),
                forall|m: int| 0 <= m < res@.len()
                    ==> (#[trigger] res@[m] as nat) < base,
                radix_val_le(res@, base as nat)
                    + pow(base as int, res@.len())
                        * ((r + pow2(rbits as nat) * hi) as int) == u@ as int,
                pow2(rbits as nat) <= pow2(40),
            decreases rbits,
        {
            let d = (r % base as u64) as u8;
            let ghost pre = res@;
            let ghost rr = r as nat;
            let ghost rb1 = rbits as nat;
            res.push(d);
            r = r / base as u64;
            rbits = rbits - bits;
            proof {
                assert(res@ =~= pre.push(d));
                lemma_emit(pre, base as nat, d, rr);
                lemma_fundamental_div_mod(rr as int, base as int);
                lemma_pow2_adds(rbits as nat, bits as nat);
                // the buffer shrinks with its bound
                assert((r as nat) < pow2(rbits as nat)) by (nonlinear_arith)
                    requires
                        r as nat == rr / (base as nat),
                        rr < pow2(rb1),
                        pow2(rb1) == pow2(rbits as nat) * (base as nat),
                        rr as int == (base as int) * ((rr / (base as nat)) as int)
                            + (rr % (base as nat)),
                        (rr % (base as nat)) >= 0,
                        base >= 2,
                        pow2(rbits as nat) >= 1,
                ;
                // regroup the high part around the emitted digit
                let p = pow(base as int, pre.len());
                lemma_pow_adds(base as int, pre.len(), 1);
                lemma_pow1(base as int);
                lemma_pow_positive(base as int, pre.len());
                assert(p * ((rr + pow2(rb1) * hi) as int)
                    == p * (rr as int)
                        + (p * (base as int)) * ((pow2(rbits as nat) * hi) as int))
                    by (nonlinear_arith)
                    requires pow2(rb1) == pow2(rbits as nat) * (base as nat);
                assert((p * (base as int))
                        * (((r as nat) + pow2(rbits as nat) * hi) as int)
                    == (p * (base as int)) * ((r as nat) as int)
                        + (p * (base as int)) * ((pow2(rbits as nat) * hi) as int))
                    by (nonlinear_arith);
            }
            proof {
                lemma_pow2_pos(rbits as nat);
                assert(pow2(rbits as nat) <= pow2(40)) by {
                    if (rbits as nat) < 40 {
                        lemma_pow2_strictly_increases(rbits as nat, 40);
                    }
                }
            }
        }
        i = i + 1;
        proof {
            assert(rbits < bits);
        }
    }
    // flush the remaining bits, then strip the zeros they may have padded
    proof {
        assert(u.data@.skip(n as int) =~= Seq::<u32>::empty());
        assert(pow(base as int, res@.len())
            * ((r + pow2(rbits as nat) * mag_val(u.data@.skip(n as int))) as int)
            == pow(base as int, res@.len()) * (r as int)) by (nonlinear_arith)
            requires mag_val(u.data@.skip(n as int)) == 0;
    }
    if rbits != 0 {
        let ghost pre = res@;
        let ghost rr = r as nat;
        proof {
            assert((r as nat) < base) by {
                assert(pow2(rbits as nat) <= pow2((bits - 1) as nat)) by {
                    if (rbits as nat) < (bits - 1) as nat {
                        lemma_pow2_strictly_increases(rbits as nat, (bits - 1) as nat);
                    }
                }
                lemma_pow2_strictly_increases((bits - 1) as nat, bits as nat);
            }
            vstd::arithmetic::div_mod::lemma_small_mod(rr, base as nat);
        }
        let d = (r % base as u64) as u8;
        res.push(d);
        proof {
            assert(res@ =~= pre.push(d));
            crate::values::lemma_radix_le_snoc(pre, base as nat, d);
            assert(d as nat == rr);
            assert((d as nat) * pow(base as int, pre.len())
                == pow(base as int, pre.len()) * (rr as int)) by (nonlinear_arith)
                requires d as nat == rr;
        }
    } else {
        proof {
            assert(pow2(0) == 1) by {
                lemma2_to64();
            }
            assert(r == 0);
            assert(pow(base as int, res@.len()) * (r as int) == 0) by (nonlinear_arith)
                requires r == 0;
        }
    }
    // drop trailing zero digits; the magnitude is nonzero, so a nonzero
    // digit remains
    while res.len() > 0 && res[res.len() - 1] == 0
        invariant
            2 <= base <= 256,
            forall|m: int| 0 <= m < res@.len()
                ==> (#[trigger] res@[m] as nat) < base,
            radix_val_le(res@, base as nat) == u@ as int,
        decreases res@.len(),
    {
        let ghost pre = res@;
        proof {
            assert(pre =~= pre.drop_last().push(pre.last()));
            crate::values::lemma_radix_le_snoc(pre.drop_last(), base as nat,
                pre.last());
            lemma_pow_positive(base as int, pre.drop_last().len());
            assert((pre.last() as nat) * pow(base as int, pre.drop_last().len()) == 0)
                by (nonlinear_arith)
                requires pre.last() == 0;
        }
        res.pop();
        proof {
            assert(res@ =~= pre.drop_last());
        }
    }
    proof {
        if res@.len() == 0 {
            assert(u@ == 0);
            assert(false);
        }
    }
    res
}

/// Integer square root, rounded down.
fn isqrt(n: usize) -> (r: usize)
    ensures
        (r as nat) * (r as nat) <= n,
        r <= 0xFFFF_FFFF,
        n >= 1 ==> r >= 1,
        r == 0xFFFF_FFFF || ((r + 1) as nat) * ((r + 1) as nat) > n,
{
    let mut r: u64 = 0;
    loop
        invariant
            r <= 0xFFFF_FFFF,
            (r as nat) * (r as nat) <= n as nat,
        ensures
            r <= 0xFFFF_FFFF,
            (r as nat) * (r as nat) <= n as nat,
            r == 0xFFFF_FFFF || ((r + 1) as nat) * ((r + 1) as nat) > n as nat,
        decreases 0xFFFF_FFFFu64 - r,
    {
        if r >= 0xFFFF_FFFF {
            break;
        }
        let s = r + 1;
        proof {
            assert(s * s <= 0xFFFF_FFFF_FFFF_FFFF) by (nonlinear_arith)
                requires s <= 0xFFFF_FFFF;
        }
        if s * s > n as u64 {
            break;
        }
        r = s;
    }
    proof {
        if r == 0 {
            assert(((r + 1) as nat) * ((r + 1) as nat) == 1) by (nonlinear_arith)
                requires r == 0;
            assert((n as nat) < 1);
        }
    }
    r as usize
}

/// The two-level export pass for very large magnitudes: repeatedly divides
/// by the group base raised to a power whose digit-vector length is near the
/// square root of the magnitude's, and emits each remainder as a whole run
/// of digit groups. Returns what is left once the magnitude no longer
/// exceeds that power.
fn to_radix_digits_le_chunked(
    res: &mut Vec<u8>,
    digits: BigUint,
    radix: u32,
    base: u32,
    power: usize,
    Ghost(total): Ghost<nat>,
) -> (d: BigUint)
    requires
        3 <= radix,
        radix < 256,
        base == pow(radix as int, power as nat),
        base >= radix,
        (base as nat) * (radix as nat) > 0xFFFF_FFFF,
        power >= 1,
        digits.wf(),
        digits@ > 0,
        forall|k: int| 0 <= k < old(res)@.len()
            ==> (#[trigger] old(res)@[k] as nat) < radix,
        radix_val_le(old(res)@, radix as nat)
            + pow(radix as int, old(res)@.len()) * (digits@ as int) == total,
    ensures
        d.wf(),
        d@ > 0,
        forall|k: int| 0 <= k < final(res)@.len()
            ==> (#[trigger] final(res)@[k] as nat) < radix,
        radix_val_le(final(res)@, radix as nat)
            + pow(radix as int, final(res)@.len()) * (d@ as int) == total,
{
    let mut digits = digits;
    let ghost n0 = digits.data@.len();
    let target_len = isqrt(digits.data.len());
    let mut big_base = BigUint::from_u32(base);
    let mut big_power: usize = 1;
    proof {
        lemma_pow1(base as int);
        // the group base itself already spans most of one digit
        assert((base as nat) > 0x0100_0000) by (nonlinear_arith)
            requires (base as nat) * (radix as nat) > 0xFFFF_FFFF, radix <= 255,
                base >= 1;
        lemma2_to64();
        assert(pow2(1) <= big_base@);
    }
    while big_base.data.len() < target_len
        invariant
            2 <= base,
            (base as nat) > 0x0100_0000,
            big_base.wf(),
            big_base@ > 0x0100_0000,
            big_base@ == pow(base as int, big_power as nat),
            big_power >= 1,
            pow2(big_power as nat) <= big_base@,
            target_len <= 0xFFFF_FFFF,
            (target_len as nat) * (target_len as nat) <= n0,
            n0 <= usize::MAX,
        decreases 2 * target_len - big_base.data@.len(),
    {
        let ghost bv = big_base@;
        let ghost bl = big_base.data@.len();
        proof {
            // the product fits in a fresh digit vector
            assert(bl >= 1) by {
                crate::values::lemma_mag_val_zero(big_base.data@);
            }
            assert(2 <= target_len);
            assert(bl + bl <= usize::MAX) by (nonlinear_arith)
                requires
                    bl + 1 <= target_len,
                    2 <= target_len,
                    (target_len as nat) * (target_len as nat) <= n0,
                    n0 <= usize::MAX,
            ;
            crate::values::lemma_mag_val_normal_lower(big_base.data@);
            crate::values::lemma_mag_val_bound(big_base.data@);
        }
        let sq = big_base.mul(&big_base);
        big_base = sq;
        proof {
            lemma_pow_adds(base as int, big_power as nat, big_power as nat);
            assert(big_base@ == bv * bv);
            assert(bv * bv > 0x0100_0000) by (nonlinear_arith)
                requires bv > 0x0100_0000;
            lemma_pow2_adds(big_power as nat, big_power as nat);
            assert(pow2((big_power + big_power) as nat) <= bv * bv)
                by (nonlinear_arith)
                requires
                    pow2((big_power + big_power) as nat)
                        == pow2(big_power as nat) * pow2(big_power as nat),
                    pow2(big_power as nat) <= bv,
                    pow2(big_power as nat) >= 0,
            ;
            crate::values::lemma_mag_val_bound(big_base.data@);
            lemma_square_grows(bl, bv, big_base.data@.len(), big_base@);
            // the new length is at most doubled
            crate::values::lemma_mag_val_normal_lower(big_base.data@);
            lemma_pow2_adds(32 * bl, 32 * bl);
            assert(bv * bv < pow2(32 * bl) * pow2(32 * bl)) by (nonlinear_arith)
                requires bv < pow2(32 * bl), bv >= 1;
            let nl = big_base.data@.len();
            if nl > 2 * bl {
                assert(pow2(32 * bl + 32 * bl) <= pow2(32 * ((nl - 1) as nat))) by {
                    if 32 * bl + 32 * bl < 32 * ((nl - 1) as nat) {
                        lemma_pow2_strictly_increases(32 * bl + 32 * bl,
                            32 * ((nl - 1) as nat));
                    }
                }
                assert(false);
            }
            // the exponent stays far below the machine-word limit
            assert((big_power as nat) < 32 * bl) by {
                if big_power as nat >= 32 * bl {
                    if big_power as nat > 32 * bl {
                        lemma_pow2_strictly_increases(32 * bl, big_power as nat);
                    }
                    assert(pow2(big_power as nat) >= pow2(32 * bl));
                    assert(false);
                }
            }
            assert((big_power as int) + (big_power as int) <= usize::MAX)
                by (nonlinear_arith)
                requires
                    (big_power as nat) < 32 * bl,
                    bl + 1 <= target_len,
                    (target_len as nat) * (target_len as nat) <= n0,
                    n0 <= usize::MAX,
                    usize::MAX >= 0xFFFF_FFFF,
            ;
            assert(big_base.data@.len() >= bl + 1);
        }
        big_power = big_power * 2;
    }
    proof {
        vstd::arithmetic::power::lemma_pow_multiplies(radix as int, power as nat,
            big_power as nat);
    }
    loop
        invariant
            3 <= radix < 256,
            2 <= base,
            base == pow(radix as int, power as nat),
            power >= 1,
            digits.wf(),
            digits@ > 0,
            big_base.wf(),
            big_base@ >= 2,
            big_base@ == pow(base as int, big_power as nat),
            big_base@ == pow(radix as int, ((power as nat) * (big_power as nat)) as nat),
            big_power >= 1,
            forall|k: int| 0 <= k < res@.len()
                ==> (#[trigger] res@[k] as nat) < radix,
            radix_val_le(res@, radix as nat)
                + pow(radix as int, res@.len()) * (digits@ as int) == total,
        ensures
            digits.wf(),
            digits@ > 0,
            forall|k: int| 0 <= k < res@.len()
                ==> (#[trigger] res@[k] as nat) < radix,
            radix_val_le(res@, radix as nat)
                + pow(radix as int, res@.len()) * (digits@ as int) == total,
        decreases digits@,
    {
        let c = digits.cmp(&big_base);
        match c {
            core::cmp::Ordering::Greater => {}
            _ => {
                break;
            }
        }
        proof {
            assert(digits@ > big_base@);
        }
        let ghost dv = digits@;
        let (q, r_big) = digits.div_rem(&big_base);
        proof {
            assert(dv as int == (q@ as int) * (big_base@ as int) + r_big@ as int);
            assert(r_big@ < big_base@);
            assert(dv > big_base@);
            if q@ == 0 {
                assert((q@ as int) * (big_base@ as int) == 0) by (nonlinear_arith)
                    requires q@ == 0;
                assert(false);
            }
            assert(q@ < dv) by (nonlinear_arith)
                requires
                    dv as int == (q@ as int) * (big_base@ as int) + r_big@ as int,
                    r_big@ < big_base@,
                    dv >= 1,
                    big_base@ >= 2,
                    q@ >= 0,
            ;
            // rewrite the invariant with the quotient and remainder
            let p = pow(radix as int, res@.len());
            lemma_pow_positive(radix as int, res@.len());
            assert(p * (dv as int)
                == p * ((r_big@ as int)
                    + pow(radix as int, ((power as nat) * (big_power as nat)) as nat)
                        * (q@ as int))) by (nonlinear_arith)
                requires
                    dv as int == (q@ as int) * (big_base@ as int) + r_big@ as int,
                    big_base@ == pow(radix as int,
                        ((power as nat) * (big_power as nat)) as nat),
            ;
        }
        digits = q;
        let mut big_r = r_big;
        let mut j: usize = 0;
        while j < big_power
            invariant
                3 <= radix < 256,
                2 <= base,
                base == pow(radix as int, power as nat),
                power >= 1,
                big_power >= 1,
                0 <= j <= big_power,
                digits.wf(),
                big_r.wf(),
                big_r@ < pow(base as int, ((big_power - j) as nat)),
                forall|k: int| 0 <= k < res@.len()
                    ==> (#[trigger] res@[k] as nat) < radix,
                radix_val_le(res@, radix as nat)
                    + pow(radix as int, res@.len())
                        * ((big_r@ as int)
                            + pow(radix as int,
                                ((power as nat) * ((big_power - j) as nat)) as nat)
                                * (digits@ as int)) == total,
            decreases big_power - j,
        {
            let ghost rv = big_r@;
            let ghost pre = res@;
            proof {
                // the remainder of one digit-group division fits one group
                lemma_pow_adds(base as int, 1, ((big_power - j - 1) as nat));
                lemma_pow1(base as int);
                lemma_pow_positive(base as int, ((big_power - j - 1) as nat));
            }
            let (q2, r) = div_rem_digit(big_r, base);
            proof {
                lemma_fundamental_div_mod(rv as int, base as int);
                assert(q2@ < pow(base as int, ((big_power - j - 1) as nat)))
                    by (nonlinear_arith)
                    requires
                        rv as int == (base as int) * (q2@ as int) + (r as int),
                        r >= 0,
                        rv < (base as int) * pow(base as int,
                            ((big_power - j - 1) as nat)),
                        base >= 2,
                        pow(base as int, ((big_power - j - 1) as nat)) >= 1,
                ;
                assert(r < base);
            }
            emit_le_digits(res, r, power, radix);
            big_r = q2;
            proof {
                // regroup the weights after emitting one group
                let p = pow(radix as int, pre.len());
                let pb = pow(radix as int, (power as nat));
                let rest = ((power as nat) * ((big_power - j - 1) as nat)) as nat;
                lemma_pow_positive(radix as int, pre.len());
                lemma_pow_adds(radix as int, pre.len(), power as nat);
                lemma_pow_adds(radix as int, power as nat, rest);
                assert((power as nat) * ((big_power - j) as nat)
                    == (power as nat) + rest) by (nonlinear_arith)
                    requires
                        j < big_power,
                        rest == (power as nat) * ((big_power - j - 1) as nat),
                ;
                assert(p * (rv as int)
                    == p * (r as int) + (p * pb) * (q2@ as int)) by (nonlinear_arith)
                    requires
                        rv as int == (base as int) * (q2@ as int) + (r as int),
                        pb == base as int,
                ;
                assert(p * (pow(radix as int, ((power as nat) + rest) as nat)
                        * (digits@ as int))
                    == (p * pb) * (pow(radix as int, rest) * (digits@ as int)))
                    by (nonlinear_arith)
                    requires pow(radix as int, ((power as nat) + rest) as nat)
                        == pb * pow(radix as int, rest),
                ;
                assert((p * pb) * ((q2@ as int) + pow(radix as int, rest)
                        * (digits@ as int))
                    == (p * pb) * (q2@ as int)
                        + (p * pb) * (pow(radix as int, rest) * (digits@ as int)))
                    by (nonlinear_arith);
                let big = pow(radix as int,
                    ((power as nat) * ((big_power - j) as nat)) as nat);
                assert(p * ((rv as int) + big * (digits@ as int))
                    == p * (rv as int) + p * (big * (digits@ as int)))
                    by (nonlinear_arith);
            }
            j = j + 1;
        }
        proof {
            // the remainder is exhausted and the weight collapses to one
            lemma_pow0(base as int);
            assert(big_r@ == 0);
            assert((power as nat) * ((big_power - j) as nat) == 0)
                by (nonlinear_arith)
                requires j == big_power;
            lemma_pow0(radix as int);
            let p = pow(radix as int, res@.len());
            assert(p * ((big_r@ as int) + 1 * (digits@ as int))
                == p * (digits@ as int)) by (nonlinear_arith)
                requires big_r@ == 0;
        }
    }
    digits
}

/// Squaring a magnitude strictly lengthens its digit vector once it spans a
/// digit, so the group base reaches any target length.
proof fn lemma_square_grows(oldlen: nat, v: nat, newlen: nat, newv: nat)
    requires
        oldlen >= 1,
        v >= 0x0100_0000,
        pow2(32 * ((oldlen - 1) as nat)) <= v,
        newv == v * v,
        newv < pow2(32 * newlen),
    ensures
        newlen >= oldlen + 1,
{
    if oldlen == 1 {
        lemma_pow2_adds(24, 24);
        lemma2_to64();
        vstd::arithmetic::power2::lemma2_to64_rest();
        assert(newv >= pow2(48)) by (nonlinear_arith)
            requires newv == v * v, v >= 0x0100_0000, pow2(48) == 0x1000000 * 0x1000000;
        if newlen < 2 {
            if 32 * newlen < 48 {
                lemma_pow2_strictly_increases(32 * newlen, 48);
            }
            assert(false);
        }
    } else {
        let e = (32 * ((oldlen - 1) as nat)) as nat;
        lemma_pow2_adds(e, e);
        assert(newv >= pow2(e) * pow2(e)) by (nonlinear_arith)
            requires newv == v * v, v >= pow2(e), pow2(e) >= 0;
        assert(e + e >= 32 * oldlen);
        if newlen <= oldlen {
            if 32 * newlen < e + e {
                lemma_pow2_strictly_increases(32 * newlen, e + e);
            }
            assert(false);
        }
    }
}

/// Extracts little-endian digits for a general radix, one maximal digit
/// group at a time: each division by the precomputed group base yields a
/// whole group of radix digits. For very large magnitudes the loop first
/// divides by the group base raised to a power chosen near the square root
/// of the digit count, turning the quadratic repeated division into a
/// two-level scheme.
pub fn to_radix_digits_le(u: &BigUint, radix: u32) -> (res: Vec<u8>)
    requires
        u.wf(),
        u@ > 0,
        3 <= radix,
        radix < 256,
        !is_pow2(radix as int),
    ensures
        res@.len() >= 1,
        forall|i: int| 0 <= i < res@.len() ==> (#[trigger] res@[i] as nat) < radix,
        res@.last() != 0,
        radix_val_le(res@, radix as nat) == u@,
{
    // a hardware wide division divides by a full-digit base directly;
    // without one, a half-digit base keeps the per-digit division narrow
    let (base, power) = if crate::division::FAST_DIV_WIDE {
        get_radix_base(radix)
    } else {
        get_half_radix_base(radix)
    };
    let mut digits = u.clone();
    let mut res: Vec<u8> = Vec::new();
    proof {
        lemma_pow0(radix as int);
        assert(pow(radix as int, 0) * (u@ as int) == u@ as int) by (nonlinear_arith)
            requires pow(radix as int, 0) == 1;
        lemma_pow1(radix as int);
        vstd::arithmetic::power::lemma_pow_increases(radix as nat, 1,
            power as nat);
    }
    if crate::division::FAST_DIV_WIDE && digits.data.len() >= 64 {
        digits = to_radix_digits_le_chunked(&mut res, digits, radix, base, power,
            Ghost(u@));
    }
    while digits.data.len() > 1
        invariant
            3 <= radix < 256,
            base == pow(radix as int, power as nat),
            base >= radix,
            base <= 0xFFFF_FFFF,
            power >= 1,
            digits.wf(),
            digits@ > 0,
            forall|k: int| 0 <= k < res@.len()
                ==> (#[trigger] res@[k] as nat) < radix,
            radix_val_le(res@, radix as nat)
                + pow(radix as int, res@.len()) * (digits@ as int) == u@,
        decreases digits@,
    {
        let ghost dv = digits@;
        let ghost pre = res@;
        proof {
            // two or more digits put the value at or above one whole digit
            // weight, which exceeds the group base
            crate::values::lemma_mag_val_normal_lower(digits.data@);
            crate::biguint::lemma_weight_monotone(1, (digits.data@.len() - 1) as nat);
            crate::values::lemma_digit_weight_succ(0);
            lemma2_to64();
            assert(digit_weight(0) == 1);
            assert(digit_weight(1) == 0x1_0000_0000);
            assert(dv >= 0x1_0000_0000);
            assert(base < 0x1_0000_0000);
        }
        let (q, r) = div_rem_digit(digits, base);
        proof {
            // the quotient stays positive while two digits remain
            vstd::arithmetic::div_mod::lemma_fundamental_div_mod(dv as int,
                base as int);
            if q@ == 0 {
                assert((base as int) * (q@ as int) == 0) by (nonlinear_arith)
                    requires q@ == 0;
                assert(false);
            }
            assert(q@ < dv) by (nonlinear_arith)
                requires
                    dv as int == (base as int) * (q@ as int) + r as int,
                    r < base,
                    dv >= 1,
                    base >= 2,
                    q@ >= 0,
            ;
        }
        emit_le_digits(&mut res, r, power, radix);
        digits = q;
        proof {
            lemma_pow_adds(radix as int, pre.len(), power as nat);
            lemma_pow_positive(radix as int, pre.len());
            let p = pow(radix as int, pre.len());
            assert(p * (dv as int) == p * (base as int) * (q@ as int) + p * (r as int))
                by (nonlinear_arith)
                requires dv as int == (base as int) * (q@ as int) + r as int, p >= 1;
            assert(p * (base as int) == pow(radix as int, (pre.len() + power) as nat));
        }
    }
    // at most one digit is left, and it is nonzero
    let ghost pre = res@;
    proof {
        crate::values::lemma_mag_val_zero(digits.data@);
        assert(digits.data@.len() == 1);
        assert(digits.data@ =~= seq![digits.data@[0]]);
        crate::values::lemma_mag_val_single(digits.data@[0]);
    }
    let top = digits.data[0];
    emit_le_all(&mut res, top, radix);
    proof {
        assert(pow(radix as int, pre.len()) * (digits@ as int)
            == (top as nat) * pow(radix as int, pre.len())) by (nonlinear_arith)
            requires digits@ == top as nat;
    }
    res
}

/// The ASCII letter or digit for one radix digit: `0`-`9` then `a`-`z`.
pub open spec fn ascii_of_digit(d: nat) -> u8
    recommends
        d < 36,
{
    if d < 10 {
        (48 + d) as u8
    } else {
        (87 + d) as u8
    }
}

/// The radix-digit value of one ASCII byte; bytes that name no digit at all
/// map to 255, which no radix up to 36 accepts.
pub open spec fn digit_val_u8(b: u8) -> u8 {
    if 48 <= b && b < 58 {
        (b - 48) as u8
    } else if 97 <= b && b <= 122 {
        (b - 87) as u8
    } else if 65 <= b && b <= 90 {
        (b - 55) as u8
    } else {
        255
    }
}

/// Little-endian digits of the magnitude in the given radix; zero exports as
/// the single digit 0, never as an empty sequence.
pub fn to_radix_le(u: &BigUint, radix: u32) -> (res: Vec<u8>)
    requires
        u.wf(),
        2 <= radix <= 256,
    ensures
        res@.len() >= 1,
        forall|i: int| 0 <= i < res@.len() ==> (#[trigger] res@[i] as nat) < radix,
        radix_val_le(res@, radix as nat) == u@,
        u@ > 0 ==> res@.last() != 0,
        u@ == 0 ==> res@ =~= seq![0u8],
{
    if u.is_zero() {
        let mut res: Vec<u8> = Vec::new();
        res.push(0);
        proof {
            assert(res@ =~= seq![0u8]);
            assert(seq![0u8].drop_first() =~= Seq::<u8>::empty());
            assert((radix as nat) * radix_val_le(Seq::<u8>::empty(), radix as nat) == 0)
                by (nonlinear_arith)
                requires radix_val_le(Seq::<u8>::empty(), radix as nat) == 0;
        }
        res
    } else if is_power_of_two(radix) {
        // powers of two use masks and shifts instead of division
        let bits = ilog2(radix);
        proof {
            lemma_pow2_exact(radix, bits as nat);
            if bits > 8 {
                lemma_pow2_strictly_increases(8, bits as nat);
                lemma2_to64();
                assert(false);
            }
            if bits == 0 {
                lemma2_to64();
                assert(false);
            }
        }
        if 32 % (bits as u32) == 0 {
            to_bitwise_digits_le(u, bits)
        } else {
            to_inexact_bitwise_digits_le(u, bits)
        }
    } else if radix == 10 {
        // ten is common enough to give the optimizer a constant divisor
        to_radix_digits_le(u, 10)
    } else {
        proof {
            lemma2_to64();
            if radix == 256 {
                vstd::arithmetic::power2::lemma_pow2(8);
                assert(pow(2, 8) == 256);
                vstd::arithmetic::power2::is_pow2_equiv(256);
                assert(vstd::arithmetic::power2::is_pow2_exists(256));
                assert(false);
            }
            if radix == 2 {
                vstd::arithmetic::power2::lemma_pow2(1);
                assert(pow(2, 1) == 2);
                vstd::arithmetic::power2::is_pow2_equiv(2);
                assert(vstd::arithmetic::power2::is_pow2_exists(2));
                assert(false);
            }
        }
        to_radix_digits_le(u, radix)
    }
}

/// ASCII digits of the magnitude in the given radix, least significant
/// first (reversed from reading order); zero yields "0".
pub fn to_str_radix_reversed(u: &BigUint, radix: u32) -> (res: Vec<u8>)
    requires
        u.wf(),
        2 <= radix <= 36,
    ensures
        res@.len() >= 1,
        forall|i: int| 0 <= i < res@.len()
            ==> (#[trigger] digit_val_u8(res@[i]) as nat) < radix
                && res@[i] == ascii_of_digit(digit_val_u8(res@[i]) as nat),
        radix_val_le(res@.map_values(|b: u8| digit_val_u8(b)), radix as nat) == u@,
        u@ > 0 ==> digit_val_u8(res@.last()) != 0,
        u@ == 0 ==> res@ =~= seq![48u8],
{
    let mut res = to_radix_le(u, radix);
    let ghost orig = res@;
    let n = res.len();
    let mut i: usize = 0;
    while i < n
        invariant
            2 <= radix <= 36,
            n == res@.len(),
            orig.len() == n,
            0 <= i <= n,
            forall|k: int| 0 <= k < n ==> (#[trigger] orig[k] as nat) < radix,
            forall|k: int| i <= k < n ==> #[trigger] res@[k] == orig[k],
            forall|k: int| 0 <= k < i
                ==> #[trigger] res@[k] == ascii_of_digit(orig[k] as nat),
        decreases n - i,
    {
        let d = res[i];
        if d < 10 {
            res.set(i, d + 48);
        } else {
            res.set(i, d + 87);
        }
        i = i + 1;
    }
    proof {
        assert forall|k: int| 0 <= k < res@.len()
            implies (#[trigger] digit_val_u8(res@[k]) as nat) < radix
                && res@[k] == ascii_of_digit(digit_val_u8(res@[k]) as nat) by {
            assert(res@[k] == ascii_of_digit(orig[k] as nat));
            assert(digit_val_u8(res@[k]) == orig[k]);
        }
        assert(res@.map_values(|b: u8| digit_val_u8(b)) =~= orig);
        if u@ == 0 {
            assert(orig =~= seq![0u8]);
            assert(res@ =~= seq![48u8]);
        }
        if u@ > 0 {
            assert(res@.last() == res@[res@.len() - 1]);
            assert(digit_val_u8(res@.last()) == orig.last());
        }
    }
    res
}

/// Splitting a little-endian digit sequence: the tail is weighted by the
/// radix power of the head's length.
pub proof fn lemma_radix_le_append(s: Seq<u8>, t: Seq<u8>, base: nat)
    requires
        base >= 1,
    ensures
        radix_val_le(s + t, base)
            == radix_val_le(s, base) + pow(base as int, s.len()) * radix_val_le(t, base),
    decreases s.len(),
{
    lemma_pow_positive(base as int, s.len());
    if s.len() == 0 {
        assert(s + t =~= t);
        lemma_pow0(base as int);
        assert(1 * radix_val_le(t, base) == radix_val_le(t, base)) by (nonlinear_arith);
    } else {
        assert((s + t).drop_first() =~= s.drop_first() + t);
        lemma_radix_le_append(s.drop_first(), t, base);
        let p = pow(base as int, (s.len() - 1) as nat);
        lemma_pow_positive(base as int, (s.len() - 1) as nat);
        lemma_pow_adds(base as int, 1, (s.len() - 1) as nat);
        lemma_pow1(base as int);
        assert((s + t)[0] == s[0]);
        assert(base * (radix_val_le(s.drop_first(), base) + p * radix_val_le(t, base))
            == base * radix_val_le(s.drop_first(), base)
                + ((base as int) * p) * radix_val_le(t, base)) by (nonlinear_arith);
    }
}

/// Splitting a big-endian digit sequence: the head is weighted by the radix
/// power of the tail's length.
pub proof fn lemma_radix_be_append(s: Seq<u8>, t: Seq<u8>, base: nat)
    requires
        base >= 1,
    ensures
        radix_val_be(s + t, base)
            == radix_val_be(s, base) * pow(base as int, t.len()) + radix_val_be(t, base),
    decreases t.len(),
{
    lemma_pow_positive(base as int, t.len());
    if t.len() == 0 {
        assert(s + t =~= s);
        lemma_pow0(base as int);
        assert(radix_val_be(s, base) * 1 == radix_val_be(s, base)) by (nonlinear_arith);
    } else {
        assert((s + t).drop_last() =~= s + t.drop_last());
        lemma_radix_be_append(s, t.drop_last(), base);
        let p = pow(base as int, (t.len() - 1) as nat);
        lemma_pow_positive(base as int, (t.len() - 1) as nat);
        lemma_pow_adds(base as int, (t.len() - 1) as nat, 1);
        lemma_pow1(base as int);
        assert((s + t).last() == t.last());
        assert((radix_val_be(s, base) * p + radix_val_be(t.drop_last(), base))
            * (base as int)
            == radix_val_be(s, base) * (p * (base as int))
                + radix_val_be(t.drop_last(), base) * (base as int))
            by (nonlinear_arith);
    }
}

/// The big-endian value of a digit span, folded left to right.
fn radix_chunk_value(v: &Vec<u8>, start: usize, end: usize, radix: u32) -> (acc: u32)
    requires
        start <= end <= v@.len(),
        2 <= radix,
        forall|i: int| start <= i < end ==> (#[trigger] v@[i] as nat) < radix,
        pow(radix as int, (end - start) as nat) <= 0x1_0000_0000,
    ensures
        acc as nat == radix_val_be(v@.subrange(start as int, end as int), radix as nat),
        (acc as nat) < pow(radix as int, (end - start) as nat),
{
    let mut acc: u32 = 0;
    let mut j = start;
    proof {
        assert(v@.subrange(start as int, start as int) =~= Seq::<u8>::empty());
        lemma_pow_positive(radix as int, 0);
        lemma_pow0(radix as int);
    }
    while j < end
        invariant
            start <= j <= end <= v@.len(),
            2 <= radix,
            forall|i: int| start <= i < end ==> (#[trigger] v@[i] as nat) < radix,
            pow(radix as int, (end - start) as nat) <= 0x1_0000_0000,
            acc as nat == radix_val_be(v@.subrange(start as int, j as int), radix as nat),
            (acc as nat) < pow(radix as int, (j - start) as nat),
        decreases end - j,
    {
        let d = v[j];
        proof {
            lemma_pow_adds(radix as int, (j - start) as nat, 1);
            lemma_pow1(radix as int);
            lemma_pow_positive(radix as int, (j - start) as nat);
            vstd::arithmetic::power::lemma_pow_increases(radix as nat,
                (j + 1 - start) as nat, (end - start) as nat);
            assert((acc as nat) * (radix as nat) + (d as nat)
                < pow(radix as int, (j - start) as nat) * (radix as int))
                by (nonlinear_arith)
                requires
                    (acc as nat) < pow(radix as int, (j - start) as nat),
                    (d as nat) < radix,
                    radix >= 2,
                ;
            assert(v@.subrange(start as int, j as int + 1).drop_last()
                =~= v@.subrange(start as int, j as int));
            assert(v@.subrange(start as int, j as int + 1).last() == v@[j as int]);
        }
        let wide: u64 = acc as u64 * radix as u64 + d as u64;
        acc = wide as u32;
        j = j + 1;
    }
    acc
}

/// Imports little-endian digits of a power-of-two radix whose bit width
/// evenly divides the digit width: fixed-size digit groups pack directly
/// into big digits, no multiplication needed.
pub fn from_bitwise_digits_le(v: &Vec<u8>, bits: u8) -> (r: BigUint)
    requires
        1 <= bits <= 8,
        32 as nat % (bits as nat) == 0,
        forall|i: int| 0 <= i < v@.len() ==> (#[trigger] v@[i] as nat) < pow2(bits as nat),
    ensures
        r.wf(),
        r@ == radix_val_le(v@, pow2(bits as nat)),
{
    let base = pow2_exec(bits);
    let dp = (32 / bits) as usize;
    let n = v.len();
    proof {
        assert((bits as nat) * (dp as nat) == 32) by {
            lemma_fundamental_div_mod(32, bits as int);
        }
        lemma_pow_pow2(bits as nat, dp as nat);
        lemma2_to64();
        lemma_pow2_bounds(bits);
        assert(v@.take(0) =~= Seq::<u8>::empty());
    }
    let mut data: Vec<u32> = Vec::new();
    let mut i: usize = 0;
    proof {
        assert(data@.len() * (dp as int) == 0) by (nonlinear_arith)
            requires data@.len() == 0;
    }
    while i < n
        invariant
            1 <= bits <= 8,
            base == pow2(bits as nat),
            2 <= base <= 256,
            (bits as nat) * (dp as nat) == 32,
            1 <= dp <= 32,
            n == v@.len(),
            pow(base as int, dp as nat) == pow2(32),
            pow2(32) == 0x1_0000_0000,
            forall|k: int| 0 <= k < v@.len() ==> (#[trigger] v@[k] as nat) < base,
            0 <= i <= n,
            i == data@.len() * dp || i == n,
            mag_val(data@) == radix_val_le(v@.take(i as int), base as nat),
        decreases n - i,
    {
        let end = if n - i > dp { i + dp } else { n };
        // fold one chunk, least significant digit last
        let mut acc: u32 = 0;
        let mut k = end;
        proof {
            assert(v@.subrange(k as int, end as int) =~= Seq::<u8>::empty());
            lemma_pow0(base as int);
        }
        while k > i
            invariant
                i <= k <= end <= n,
                n == v@.len(),
                end - i <= dp,
                2 <= base <= 256,
                pow(base as int, dp as nat) == pow2(32),
                pow2(32) == 0x1_0000_0000,
                forall|m: int| 0 <= m < v@.len() ==> (#[trigger] v@[m] as nat) < base,
                acc as nat == radix_val_le(v@.subrange(k as int, end as int), base as nat),
                (acc as nat) < pow(base as int, (end - k) as nat),
            decreases k,
        {
            let d = v[k - 1];
            proof {
                lemma_pow_adds(base as int, 1, (end - k) as nat);
                lemma_pow1(base as int);
                lemma_pow_positive(base as int, (end - k) as nat);
                vstd::arithmetic::power::lemma_pow_increases(base as nat,
                    (end - k + 1) as nat, dp as nat);
                assert((acc as nat) * (base as nat) + (d as nat)
                    < (base as int) * pow(base as int, (end - k) as nat))
                    by (nonlinear_arith)
                    requires
                        (acc as nat) < pow(base as int, (end - k) as nat),
                        (d as nat) < base,
                        base >= 2,
                    ;
                assert(v@.subrange(k as int - 1, end as int).drop_first()
                    =~= v@.subrange(k as int, end as int));
                assert(v@.subrange(k as int - 1, end as int)[0] == v@[k as int - 1]);
                assert(radix_val_le(v@.subrange(k as int - 1, end as int), base as nat)
                    == (v@[k as int - 1] as nat)
                        + (base as nat) * radix_val_le(
                            v@.subrange(k as int, end as int), base as nat));
            }
            let wide: u64 = acc as u64 * base as u64 + d as u64;
            acc = wide as u32;
            k = k - 1;
        }
        let ghost pre = data@;
        data.push(acc);
        proof {
            crate::values::lemma_mag_val_snoc(pre, acc);
            assert(v@.take(end as int)
                =~= v@.take(i as int) + v@.subrange(i as int, end as int));
            lemma_radix_le_append(v@.take(i as int),
                v@.subrange(i as int, end as int), base as nat);
            // the weight of chunk position equals the weight of the digit slot
            assert((bits as nat) * (i as nat) == 32 * pre.len()) by (nonlinear_arith)
                requires
                    (bits as nat) * (dp as nat) == 32,
                    i as int == pre.len() * dp,
            ;
            lemma_pow_pow2(bits as nat, i as nat);
            assert(pow(base as int, i as nat) == digit_weight(pre.len()));
            assert((end as int) == (pre.len() + 1) * dp || end == n) by (nonlinear_arith)
                requires
                    i as int == pre.len() * dp,
                    end == if i + dp < n { i + dp } else { n as int },
                    dp >= 1,
            ;
            assert(mag_val(data@)
                == mag_val(pre) + (acc as nat) * digit_weight(pre.len()));
            assert(radix_val_le(v@.take(end as int), base as nat)
                == radix_val_le(v@.take(i as int), base as nat)
                    + pow(base as int, i as nat)
                        * radix_val_le(v@.subrange(i as int, end as int), base as nat));
            assert((acc as nat) * digit_weight(pre.len())
                == pow(base as int, i as nat)
                    * radix_val_le(v@.subrange(i as int, end as int), base as nat))
                by (nonlinear_arith)
                requires
                    acc as nat == radix_val_le(v@.subrange(i as int, end as int),
                        base as nat),
                    digit_weight(pre.len()) == pow(base as int, i as nat),
            ;
        }
        i = end;
    }
    proof {
        assert(v@.take(n as int) =~= v@);
    }
    crate::biguint::biguint_from_vec(data)
}

/// Imports little-endian digits of a power-of-two radix whose bit width
/// does not divide the digit width: bits accumulate in a buffer that may
/// span digit boundaries, and a big digit is emitted whenever it fills.
pub fn from_inexact_bitwise_digits_le(v: &Vec<u8>, bits: u8) -> (r: BigUint)
    requires
        1 <= bits <= 8,
        32 as nat % (bits as nat) != 0,
        forall|i: int| 0 <= i < v@.len() ==> (#[trigger] v@[i] as nat) < pow2(bits as nat),
    ensures
        r.wf(),
        r@ == radix_val_le(v@, pow2(bits as nat)),
{
    let base = pow2_exec(bits);
    proof {
        lemma_pow2_bounds(bits);
        lemma2_to64();
        assert(v@.take(0) =~= Seq::<u8>::empty());
        lemma_pow0(base as int);
    }
    let mut data: Vec<u32> = Vec::new();
    let mut d: u32 = 0;
    let mut dbits: u8 = 0;
    let mut k: usize = 0;
    while k < v.len()
        invariant
            1 <= bits <= 8,
            base == pow2(bits as nat),
            2 <= base <= 256,
            pow2(32) == 0x1_0000_0000,
            forall|i: int| 0 <= i < v@.len()
                ==> (#[trigger] v@[i] as nat) < pow2(bits as nat),
            0 <= k <= v@.len(),
            dbits < 32,
            (d as nat) < pow2(dbits as nat),
            (bits as nat) * (k as nat) == 32 * data@.len() + dbits,
            radix_val_le(v@.take(k as int), base as nat)
                == mag_val(data@) + digit_weight(data@.len()) * (d as nat),
        decreases v@.len() - k,
    {
        let c = v[k];
        let pd = pow2_exec(dbits);
        let ghost w = digit_weight(data@.len());
        let ghost d0 = d as nat;
        let ghost len0 = data@.len();
        proof {
            // the absorbed digit keeps the buffer below 2^(dbits + bits)
            lemma_pow2_adds(dbits as nat, bits as nat);
            assert((c as nat) * pow2(dbits as nat)
                <= (pow2(bits as nat) - 1) * pow2(dbits as nat)) by (nonlinear_arith)
                requires (c as nat) < pow2(bits as nat), pow2(dbits as nat) >= 1;
            assert((pow2(bits as nat) - 1) * pow2(dbits as nat)
                == pow2((dbits + bits) as nat) - pow2(dbits as nat)) by (nonlinear_arith)
                requires pow2((dbits + bits) as nat)
                    == pow2(dbits as nat) * pow2(bits as nat);
            assert(pow2((dbits + bits) as nat) <= pow2(40)) by {
                if ((dbits + bits) as nat) < 40 {
                    lemma_pow2_strictly_increases((dbits + bits) as nat, 40);
                }
            }
            vstd::arithmetic::power2::lemma2_to64_rest();
        }
        // absorb the digit's bits above the ones already buffered
        let t: u64 = d as u64 + (c as u64) * (pd as u64);
        proof {
            // the new buffer content accounts for the new radix digit
            assert(v@.take(k as int + 1) =~= v@.take(k as int).push(c));
            crate::values::lemma_radix_le_snoc(v@.take(k as int), base as nat, c);
            lemma_pow_pow2(bits as nat, k as nat);
            assert(pow(base as int, k as nat) == pow2(((bits as nat) * (k as nat)) as nat));
            lemma_pow2_adds(32 * len0, dbits as nat);
            assert((c as nat) * pow2(((bits as nat) * (k as nat)) as nat)
                == w * ((c as nat) * pow2(dbits as nat))) by (nonlinear_arith)
                requires pow2(((bits as nat) * (k as nat)) as nat)
                    == pow2(32 * len0) * pow2(dbits as nat),
                    w == pow2(32 * len0),
            ;
            assert(w * (t as nat) == w * d0 + w * ((c as nat) * pow2(dbits as nat)))
                by (nonlinear_arith)
                requires t as nat == d0 + (c as nat) * pow2(dbits as nat);
            assert((bits as nat) * ((k + 1) as nat) == (bits as nat) * (k as nat) + bits)
                by (nonlinear_arith);
        }
        dbits = dbits + bits;
        if dbits >= 32 {
            // the buffer holds a whole big digit: emit it and keep the rest
            let lo = (t % 0x1_0000_0000) as u32;
            let hi = (t / 0x1_0000_0000) as u32;
            let ghost pre = data@;
            data.push(lo);
            d = hi;
            dbits = dbits - 32;
            proof {
                crate::values::lemma_mag_val_snoc(pre, lo);
                crate::values::lemma_digit_weight_succ(len0);
                vstd::arithmetic::div_mod::lemma_fundamental_div_mod(t as int,
                    0x1_0000_0000);
                // the leftover bits fit the reduced buffer width
                lemma_pow2_adds(32, dbits as nat);
                assert((hi as nat) < pow2(dbits as nat)) by (nonlinear_arith)
                    requires
                        t as int == 0x1_0000_0000 * (hi as int) + (lo as int),
                        lo >= 0,
                        (t as nat) < pow2(dbits as nat) * 0x1_0000_0000,
                        hi >= 0,
                ;
                // regroup the weights around the emitted digit
                assert(w * (t as nat)
                    == w * (lo as nat) + (w * 0x1_0000_0000) * (hi as nat))
                    by (nonlinear_arith)
                    requires t as nat == 0x1_0000_0000 * (hi as nat) + (lo as nat);
            }
        } else {
            proof {
                lemma2_to64();
                assert(pow2(dbits as nat) <= pow2(31)) by {
                    if ((dbits as nat)) < 31 {
                        lemma_pow2_strictly_increases(dbits as nat, 31);
                    }
                }
            }
            d = t as u32;
        }
        k = k + 1;
    }
    // flush whatever is left in the buffer
    proof {
        assert(v@.take(k as int) =~= v@);
    }
    if dbits > 0 {
        let ghost pre = data@;
        data.push(d);
        proof {
            crate::values::lemma_mag_val_snoc(pre, d);
            assert(mag_val(data@) == mag_val(pre) + (d as nat) * digit_weight(pre.len()));
            assert(radix_val_le(v@, base as nat)
                == radix_val_le(v@.take(k as int), base as nat));
            assert(radix_val_le(v@.take(k as int), base as nat)
                == mag_val(pre) + digit_weight(pre.len()) * (d as nat));
            assert((d as nat) * digit_weight(pre.len())
                == digit_weight(pre.len()) * (d as nat)) by (nonlinear_arith);
            assert(mag_val(data@) == radix_val_le(v@, base as nat));
        }
    }
    proof {
        assert(v@.take(v@.len() as int) =~= v@);
        if dbits == 0 {
            assert(pow2(0) == 1) by {
                lemma2_to64();
            }
            assert(d == 0);
            assert(digit_weight(data@.len()) * (d as nat) == 0) by (nonlinear_arith)
                requires d == 0;
        }
    }
    crate::biguint::biguint_from_vec(data)
}

/// Imports big-endian digits of a general radix, one maximal digit group at
/// a time: the accumulator is multiplied by the group base and the group's
/// value added.
pub fn from_radix_digits_be(v: &Vec<u8>, radix: u32) -> (r: BigUint)
    requires
        v@.len() > 0,
        3 <= radix,
        radix < 256,
        !is_pow2(radix as int),
        forall|i: int| 0 <= i < v@.len() ==> (#[trigger] v@[i] as nat) < radix,
    ensures
        r.wf(),
        r@ == radix_val_be(v@, radix as nat),
{
    let (base, power) = get_radix_base(radix);
    let n = v.len();
    let rr = n % power;
    let i0 = if rr == 0 { power } else { rr };
    proof {
        lemma_fundamental_div_mod(n as int, power as int);
        if rr == 0 {
            assert(n >= power) by (nonlinear_arith)
                requires
                    n as int == (power as int) * ((n as int) / (power as int)),
                    n >= 1,
                    power >= 1,
            ;
        }
        // pow(radix, i0) fits in a digit since i0 <= power
        vstd::arithmetic::power::lemma_pow_increases(radix as nat, i0 as nat,
            power as nat);
        assert((base as nat) <= 0xFFFF_FFFF);
    }
    let first = radix_chunk_value(v, 0, i0, radix);
    let mut data: Vec<u32> = Vec::new();
    data.push(first);
    let mut i = i0;
    proof {
        assert(data@ =~= seq![first]);
        crate::values::lemma_mag_val_single(first);
        assert(v@.subrange(0, i0 as int) =~= v@.take(i0 as int));
        // the remaining length is a multiple of the group size
        if rr == 0 {
            assert(((n - i0) as int) % (power as int) == 0) by (nonlinear_arith)
                requires
                    n as int == (power as int) * ((n as int) / (power as int)),
                    i0 == power,
                    power >= 1,
                    n >= power,
            ;
        } else {
            assert(((n - i0) as int) % (power as int) == 0) by (nonlinear_arith)
                requires
                    n as int == (power as int) * ((n as int) / (power as int)) + rr,
                    i0 == rr,
                    power >= 1,
                    0 <= rr < power,
            ;
        }
    }
    while i < n
        invariant
            3 <= radix < 256,
            base == pow(radix as int, power as nat),
            (base as nat) <= 0xFFFF_FFFF,
            power >= 1,
            n == v@.len(),
            i0 <= i <= n,
            forall|k: int| 0 <= k < v@.len() ==> (#[trigger] v@[k] as nat) < radix,
            ((n - i) as int) % (power as int) == 0,
            mag_val(data@) == radix_val_be(v@.take(i as int), radix as nat),
        decreases n - i,
    {
        proof {
            lemma_fundamental_div_mod((n - i) as int, power as int);
            assert(n - i >= power) by (nonlinear_arith)
                requires
                    (n - i) as int == (power as int) * (((n - i) as int) / (power as int)),
                    n - i >= 1,
                    power >= 1,
            ;
        }
        let chunk = radix_chunk_value(v, i, i + power, radix);
        let ghost pre = data@;
        crate::multiplication::mul_add_digit(&mut data, base, chunk);
        proof {
            assert(v@.take((i + power) as int)
                =~= v@.take(i as int) + v@.subrange(i as int, (i + power) as int));
            lemma_radix_be_append(v@.take(i as int),
                v@.subrange(i as int, (i + power) as int), radix as nat);
            assert(((n - i - power) as int) % (power as int) == 0) by (nonlinear_arith)
                requires
                    (n - i) as int == (power as int) * (((n - i) as int) / (power as int)),
                    power >= 1,
                    n - i >= power,
            ;
        }
        i = i + power;
    }
    proof {
        assert(v@.take(n as int) =~= v@);
    }
    crate::biguint::biguint_from_vec(data)
}

/// A copy of the byte vector with its elements in reverse order.
fn reversed(buf: &Vec<u8>) -> (r: Vec<u8>)
    ensures
        r@ =~= buf@.reverse(),
{
    let n = buf.len();
    let mut r: Vec<u8> = Vec::new();
    let mut k: usize = 0;
    while k < n
        invariant
            n == buf@.len(),
            0 <= k <= n,
            r@.len() == k,
            forall|m: int| 0 <= m < k ==> #[trigger] r@[m] == buf@[n - 1 - m],
        decreases n - k,
    {
        r.push(buf[n - 1 - k]);
        k = k + 1;
    }
    proof {
        assert(r@ =~= buf@.reverse());
    }
    r
}

/// A value that is not a power of two and at least 3 stays within the range
/// the group-base table covers.
proof fn lemma_radix_range(radix: u32)
    requires
        2 <= radix <= 256,
        !is_pow2(radix as int),
    ensures
        3 <= radix < 256,
{
    lemma2_to64();
    if radix == 2 {
        vstd::arithmetic::power2::lemma_pow2(1);
        assert(pow(2, 1) == 2);
        vstd::arithmetic::power2::is_pow2_equiv(2);
        assert(vstd::arithmetic::power2::is_pow2_exists(2));
    }
    if radix == 256 {
        vstd::arithmetic::power2::lemma_pow2(8);
        assert(pow(2, 8) == 256);
        vstd::arithmetic::power2::is_pow2_equiv(256);
        assert(vstd::arithmetic::power2::is_pow2_exists(256));
    }
}

/// Imports a big-endian sequence of raw radix digits. `None` exactly when
/// some byte is no digit of the radix; an empty sequence is zero.
pub fn from_radix_be(buf: &Vec<u8>, radix: u32) -> (r: Option<BigUint>)
    requires
        2 <= radix <= 256,
    ensures
        r is Some <==> (forall|i: int| 0 <= i < buf@.len()
            ==> (#[trigger] buf@[i] as nat) < radix),
        r is Some ==> r->Some_0.wf()
            && r->Some_0@ == radix_val_be(buf@, radix as nat),
{
    if buf.len() == 0 {
        return Some(BigUint::zero());
    }
    if radix != 256 {
        let mut k: usize = 0;
        while k < buf.len()
            invariant
                0 <= k <= buf@.len(),
                radix < 256,
                forall|m: int| 0 <= m < k ==> (#[trigger] buf@[m] as nat) < radix,
            decreases buf@.len() - k,
        {
            if buf[k] >= radix as u8 {
                return None;
            }
            k = k + 1;
        }
    }
    let res = if is_power_of_two(radix) {
        // powers of two pack with masks and shifts instead of multiplication
        let bits = ilog2(radix);
        proof {
            lemma_pow2_exact(radix, bits as nat);
            lemma2_to64();
            if bits > 8 {
                lemma_pow2_strictly_increases(8, bits as nat);
                assert(false);
            }
            if bits == 0 {
                assert(false);
            }
        }
        let v = reversed(buf);
        proof {
            crate::values::lemma_radix_be_is_le_reverse(buf@, radix as nat);
            assert forall|i: int| 0 <= i < v@.len()
                implies (#[trigger] v@[i] as nat) < pow2(bits as nat) by {
                assert(v@[i] == buf@[buf@.len() - 1 - i]);
            }
        }
        if 32 % (bits as u32) == 0 {
            from_bitwise_digits_le(&v, bits)
        } else {
            from_inexact_bitwise_digits_le(&v, bits)
        }
    } else {
        proof {
            lemma_radix_range(radix);
        }
        from_radix_digits_be(buf, radix)
    };
    Some(res)
}

/// Imports a little-endian sequence of raw radix digits. `None` exactly when
/// some byte is no digit of the radix; an empty sequence is zero.
pub fn from_radix_le(buf: &Vec<u8>, radix: u32) -> (r: Option<BigUint>)
    requires
        2 <= radix <= 256,
    ensures
        r is Some <==> (forall|i: int| 0 <= i < buf@.len()
            ==> (#[trigger] buf@[i] as nat) < radix),
        r is Some ==> r->Some_0.wf()
            && r->Some_0@ == radix_val_le(buf@, radix as nat),
{
    if buf.len() == 0 {
        return Some(BigUint::zero());
    }
    if radix != 256 {
        let mut k: usize = 0;
        while k < buf.len()
            invariant
                0 <= k <= buf@.len(),
                radix < 256,
                forall|m: int| 0 <= m < k ==> (#[trigger] buf@[m] as nat) < radix,
            decreases buf@.len() - k,
        {
            if buf[k] >= radix as u8 {
                return None;
            }
            k = k + 1;
        }
    }
    let res = if is_power_of_two(radix) {
        // powers of two pack with masks and shifts instead of multiplication
        let bits = ilog2(radix);
        proof {
            lemma_pow2_exact(radix, bits as nat);
            lemma2_to64();
            if bits > 8 {
                lemma_pow2_strictly_increases(8, bits as nat);
                assert(false);
            }
            if bits == 0 {
                assert(false);
            }
        }
        if 32 % (bits as u32) == 0 {
            from_bitwise_digits_le(buf, bits)
        } else {
            from_inexact_bitwise_digits_le(buf, bits)
        }
    } else {
        proof {
            lemma_radix_range(radix);
        }
        let v = reversed(buf);
        proof {
            crate::values::lemma_radix_be_is_le_reverse(v@, radix as nat);
            assert(v@.reverse() =~= buf@);
            assert forall|i: int| 0 <= i < v@.len()
                implies (#[trigger] v@[i] as nat) < radix by {
                assert(v@[i] == buf@[buf@.len() - 1 - i]);
            }
        }
        from_radix_digits_be(&v, radix)
    };
    Some(res)
}

/// The input with one leading plus sign removed, unless a second plus
/// follows it; only that one sign is tolerated.
pub open spec fn strip_plus(s: Seq<u8>) -> Seq<u8> {
    if s.len() > 0 && s[0] == 43 && !(s.len() > 1 && s[1] == 43) {
        s.drop_first()
    } else {
        s
    }
}

/// The digit values of a textual number, with underscore separators
/// dropped and every other byte mapped through `digit_val_u8`.
pub open spec fn parse_digits(s: Seq<u8>) -> Seq<u8>
    decreases s.len(),
{
    if s.len() == 0 {
        Seq::empty()
    } else {
        let rest = parse_digits(s.drop_last());
        if s.last() == 95 {
            rest
        } else {
            rest.push(digit_val_u8(s.last()))
        }
    }
}

/// Every byte is an underscore separator or a digit of the radix.
pub open spec fn all_valid_digits(s: Seq<u8>, radix: nat) -> bool {
    forall|i: int| 0 <= i < s.len()
        ==> s[i] == 95 || (digit_val_u8(#[trigger] s[i]) as nat) < radix
}

impl BigUint {
    /// Parses a textual number in the given radix: an optional leading `+`,
    /// digits `0`-`9` and letters of either case, and `_` accepted between
    /// digits. An input without digits is rejected as empty; a byte that
    /// names no digit of the radix, or a leading `_`, is rejected as an
    /// invalid digit.
    pub fn from_str_radix(s: &Vec<u8>, radix: u32) -> (r: Result<BigUint, crate::ParseBigIntError>)
        requires
            2 <= radix <= 36,
        ensures
            r == Result::<BigUint, crate::ParseBigIntError>::Err(
                crate::ParseBigIntError::Empty) <==> strip_plus(s@).len() == 0,
            r == Result::<BigUint, crate::ParseBigIntError>::Err(
                crate::ParseBigIntError::InvalidDigit) <==> (strip_plus(s@).len() > 0
                    && (strip_plus(s@)[0] == 95
                        || !all_valid_digits(strip_plus(s@), radix as nat))),
            r is Ok <==> (strip_plus(s@).len() > 0 && strip_plus(s@)[0] != 95
                && all_valid_digits(strip_plus(s@), radix as nat)),
            r is Ok ==> r->Ok_0.wf()
                && r->Ok_0@ == radix_val_be(parse_digits(strip_plus(s@)), radix as nat),
    {
        let ghost t = strip_plus(s@);
        let n = s.len();
        let mut start: usize = 0;
        if n > 0 && s[0] == 43 && !(n > 1 && s[1] == 43) {
            start = 1;
            proof {
                assert(t =~= s@.skip(1));
            }
        } else {
            proof {
                assert(t =~= s@.skip(0));
            }
        }
        if n == start {
            proof {
                assert(t.len() == 0);
            }
            return Err(crate::ParseBigIntError::Empty);
        }
        if s[start] == 95 {
            proof {
                assert(t[0] == s@[start as int]);
            }
            return Err(crate::ParseBigIntError::InvalidDigit);
        }
        let mut v: Vec<u8> = Vec::new();
        let mut k = start;
        proof {
            assert(s@.subrange(start as int, start as int) =~= Seq::<u8>::empty());
        }
        while k < n
            invariant
                2 <= radix <= 36,
                n == s@.len(),
                start <= k <= n,
                t =~= s@.skip(start as int),
                t == strip_plus(s@),
                start <= 1,
                start < n,
                s@[start as int] != 95,
                forall|m: int| start <= m < k
                    ==> s@[m] == 95 || (digit_val_u8(#[trigger] s@[m]) as nat) < radix,
                v@ =~= parse_digits(s@.subrange(start as int, k as int)),
                forall|m: int| 0 <= m < v@.len()
                    ==> (#[trigger] v@[m] as nat) < radix,
                k > start ==> v@.len() >= 1,
            decreases n - k,
        {
            let b = s[k];
            let ghost prefix = s@.subrange(start as int, k as int);
            proof {
                assert(s@.subrange(start as int, k as int + 1).drop_last()
                    =~= prefix);
                assert(s@.subrange(start as int, k as int + 1).last() == s@[k as int]);
            }
            if b != 95 {
                let d: u8;
                if b >= 48 && b < 58 {
                    d = b - 48;
                } else if b >= 97 && b <= 122 {
                    d = b - 87;
                } else if b >= 65 && b <= 90 {
                    d = b - 55;
                } else {
                    d = 255;
                }
                assert(d == digit_val_u8(b));
                if (d as u32) < radix {
                    v.push(d);
                } else {
                    proof {
                        assert(s@[k as int] != 95
                            && (digit_val_u8(s@[k as int]) as nat) >= radix);
                        assert(t[k - start] == s@[k as int]);
                        assert(!all_valid_digits(t, radix as nat));
                    }
                    return Err(crate::ParseBigIntError::InvalidDigit);
                }
            }
            k = k + 1;
        }
        proof {
            assert(s@.subrange(start as int, n as int) =~= t);
            assert forall|i: int| 0 <= i < t.len()
                implies t[i] == 95
                    || (digit_val_u8(#[trigger] t[i]) as nat) < radix by {
                assert(t[i] == s@[start + i]);
            }
            assert(all_valid_digits(t, radix as nat));
        }
        let res = if is_power_of_two(radix) {
            // powers of two pack with masks and shifts instead of
            // multiplication
            let bits = ilog2(radix);
            proof {
                lemma_pow2_exact(radix, bits as nat);
                lemma2_to64();
                if bits > 8 {
                    lemma_pow2_strictly_increases(8, bits as nat);
                    assert(false);
                }
                if bits == 0 {
                    assert(false);
                }
            }
            let w = reversed(&v);
            proof {
                crate::values::lemma_radix_be_is_le_reverse(v@, radix as nat);
                assert(w@.reverse() =~= v@);
                crate::values::lemma_radix_be_is_le_reverse(w@, radix as nat);
                assert forall|i: int| 0 <= i < w@.len()
                    implies (#[trigger] w@[i] as nat) < pow2(bits as nat) by {
                    assert(w@[i] == v@[v@.len() - 1 - i]);
                }
            }
            if 32 % (bits as u32) == 0 {
                from_bitwise_digits_le(&w, bits)
            } else {
                from_inexact_bitwise_digits_le(&w, bits)
            }
        } else {
            proof {
                lemma_radix_range(radix);
            }
            from_radix_digits_be(&v, radix)
        };
        Ok(res)
    }

    /// Parses a decimal string.
    pub fn from_str(s: &Vec<u8>) -> (r: Result<BigUint, crate::ParseBigIntError>)
        ensures
            r == Result::<BigUint, crate::ParseBigIntError>::Err(
                crate::ParseBigIntError::Empty) <==> strip_plus(s@).len() == 0,
            r is Ok <==> (strip_plus(s@).len() > 0 && strip_plus(s@)[0] != 95
                && all_valid_digits(strip_plus(s@), 10)),
            r is Ok ==> r->Ok_0.wf()
                && r->Ok_0@ == radix_val_be(parse_digits(strip_plus(s@)), 10),
    {
        Self::from_str_radix(s, 10)
    }
}

/// Number of binary digits of a natural number; zero has none.
pub open spec fn bit_len(n: nat) -> nat
    decreases n,
{
    if n == 0 {
        0
    } else {
        1 + bit_len(n / 2)
    }
}

/// The bit length brackets its number between two powers of two.
pub proof fn lemma_bit_len_bounds(n: nat)
    requires
        n > 0,
    ensures
        bit_len(n) >= 1,
        pow2((bit_len(n) - 1) as nat) <= n,
        n < pow2(bit_len(n)),
    decreases n,
{
    let m = n / 2;
    assert(bit_len(n) == 1 + bit_len(m));
    lemma_fundamental_div_mod(n as int, 2);
    vstd::arithmetic::power2::lemma_pow2_unfold(bit_len(n));
    if m == 0 {
        assert(n == 1);
        assert(bit_len(0nat) == 0);
        assert(bit_len(n) == 1);
        lemma2_to64();
    } else {
        lemma_bit_len_bounds(m);
        // upper: n <= 2m + 1 < 2 * pow2(bit_len(m))
        assert(n < 2 * pow2(bit_len(m)));
        assert(pow2(bit_len(n)) == 2 * pow2(bit_len(m)));
        // lower: n >= 2m >= 2 * pow2(bit_len(m) - 1) == pow2(bit_len(m))
        vstd::arithmetic::power2::lemma_pow2_unfold(bit_len(m));
        assert(n >= 2 * pow2((bit_len(m) - 1) as nat));
        assert(pow2((bit_len(n) - 1) as nat) == pow2(bit_len(m)));
    }
}

/// Any bracketing exponent is the bit length.
pub proof fn lemma_bit_len_unique(n: nat, r: nat)
    requires
        r >= 1,
        pow2((r - 1) as nat) <= n,
        n < pow2(r),
    ensures
        bit_len(n) == r,
{
    lemma_pow2_pos((r - 1) as nat);
    lemma_bit_len_bounds(n);
    if bit_len(n) < r {
        assert(pow2(bit_len(n)) <= pow2((r - 1) as nat)) by {
            if bit_len(n) < (r - 1) as nat {
                lemma_pow2_strictly_increases(bit_len(n), (r - 1) as nat);
            }
        }
        assert(false);
    }
    if bit_len(n) > r {
        assert(pow2(r) <= pow2((bit_len(n) - 1) as nat)) by {
            if r < (bit_len(n) - 1) as nat {
                lemma_pow2_strictly_increases(r, (bit_len(n) - 1) as nat);
            }
        }
        assert(false);
    }
}

impl BigUint {
    /// Number of bits in the magnitude: zero for zero, else the position of
    /// the highest set bit plus one.
    pub fn bits(&self) -> (r: u64)
        requires
            self.wf(),
            self.data@.len() < 0x0400_0000_0000_0000,
        ensures
            r == bit_len(self@),
            self@ == 0 ==> r == 0,
            self@ > 0 ==> r >= 1 && pow2((r - 1) as nat) <= self@
                && self@ < pow2(r as nat),
    {
        let n = self.data.len();
        if n == 0 {
            return 0;
        }
        let top = self.data[n - 1];
        let f = fls(top);
        proof {
            crate::values::lemma_mag_val_split(self.data@, (n - 1) as nat);
            crate::values::lemma_mag_val_bound(self.data@.take(n as int - 1));
            assert(self.data@.skip(n as int - 1) =~= seq![top]);
            crate::values::lemma_mag_val_single(top);
            assert(top != 0);
            let w = digit_weight((n - 1) as nat);
            let lo = mag_val(self.data@.take(n as int - 1));
            // upper bound
            lemma_pow2_adds(32 * ((n - 1) as nat), f as nat);
            assert(self@ < w * (top as nat + 1)) by (nonlinear_arith)
                requires self@ == lo + w * (top as nat), lo < w;
            assert(w * (top as nat + 1) <= w * pow2(f as nat)) by (nonlinear_arith)
                requires (top as nat) < pow2(f as nat), w >= 1,
            ;
            crate::values::lemma_digit_weight_pos((n - 1) as nat);
            assert(w * pow2(f as nat) == pow2(32 * ((n - 1) as nat) + f as nat));
            // lower bound
            lemma_pow2_adds(32 * ((n - 1) as nat), (f - 1) as nat);
            assert(self@ >= w * (top as nat)) by (nonlinear_arith)
                requires self@ == lo + w * (top as nat);
            assert(w * (top as nat) >= w * pow2((f - 1) as nat)) by (nonlinear_arith)
                requires (top as nat) >= pow2((f - 1) as nat), w >= 1;
            assert(w * pow2((f - 1) as nat)
                == pow2(32 * ((n - 1) as nat) + (f - 1) as nat));
            assert(w * (top as nat) >= 1) by (nonlinear_arith)
                requires w >= 1, top as nat >= 1;
            assert(self@ > 0);
            lemma_bit_len_unique(self@, (32 * ((n - 1) as nat) + f as nat) as nat);
        }
        (n as u64 - 1) * 32 + f as u64
    }

    /// The magnitude as a 64-bit value, when it fits.
    pub fn to_u64(&self) -> (r: Option<u64>)
        requires
            self.wf(),
        ensures
            r is Some <==> self@ < 0x1_0000_0000_0000_0000,
            r is Some ==> r->Some_0 == self@,
    {
        let n = self.data.len();
        if n == 0 {
            Some(0)
        } else if n == 1 {
            proof {
                assert(self.data@ =~= seq![self.data@[0]]);
                crate::values::lemma_mag_val_single(self.data@[0]);
            }
            Some(self.data[0] as u64)
        } else if n == 2 {
            proof {
                assert(self.data@ =~= seq![self.data@[0], self.data@[1]]);
                crate::values::lemma_mag_val_pair(self.data@[0], self.data@[1]);
            }
            Some(self.data[0] as u64 + self.data[1] as u64 * 0x1_0000_0000)
        } else {
            proof {
                crate::values::lemma_mag_val_normal_lower(self.data@);
                crate::biguint::lemma_weight_monotone(2, (self.data@.len() - 1) as nat);
                crate::values::lemma_digit_weight_succ(1);
                crate::values::lemma_digit_weight_succ(0);
                lemma2_to64();
                assert(digit_weight(0) == 1);
            }
            None
        }
    }

    /// The magnitude as a 128-bit value, when it fits.
    pub fn to_u128(&self) -> (r: Option<u128>)
        requires
            self.wf(),
        ensures
            r is Some <==> self@ < 0x1_0000_0000_0000_0000_0000_0000_0000_0000,
            r is Some ==> r->Some_0 == self@,
    {
        let n = self.data.len();
        if n == 0 {
            return Some(0);
        }
        if n > 4 {
            proof {
                crate::values::lemma_mag_val_normal_lower(self.data@);
                crate::biguint::lemma_weight_monotone(4, (self.data@.len() - 1) as nat);
                crate::values::lemma_digit_weight_succ(3);
                crate::values::lemma_digit_weight_succ(2);
                crate::values::lemma_digit_weight_succ(1);
                crate::values::lemma_digit_weight_succ(0);
                lemma2_to64();
                assert(digit_weight(0) == 1);
            }
            return None;
        }
        let d0 = self.data[0];
        let d1 = if n > 1 { self.data[1] } else { 0 };
        let d2 = if n > 2 { self.data[2] } else { 0 };
        let d3 = if n > 3 { self.data[3] } else { 0 };
        proof {
            // padding with zero digits keeps the value
            let padded = seq![d0, d1, d2, d3];
            crate::values::lemma_mag_val_quad(d0, d1, d2, d3);
            if n == 1 {
                assert(padded =~= self.data@ + seq![d1, d2, d3]);
            }
            crate::values::lemma_mag_val_split(padded, n as nat);
            assert(padded.take(n as int) =~= self.data@);
            crate::values::lemma_mag_val_zero(padded.skip(n as int));
            assert(forall|i: int| 0 <= i < padded.skip(n as int).len()
                ==> padded.skip(n as int)[i] == 0);
            assert(digit_weight(n as nat) * mag_val(padded.skip(n as int)) == 0)
                by (nonlinear_arith)
                requires mag_val(padded.skip(n as int)) == 0;
        }
        Some(d0 as u128
            + d1 as u128 * 0x1_0000_0000
            + d2 as u128 * 0x1_0000_0000_0000_0000
            + d3 as u128 * 0x1_0000_0000_0000_0000_0000_0000)
    }

    /// The magnitude as a signed 64-bit value, when it fits.
    pub fn to_i64(&self) -> (r: Option<i64>)
        requires
            self.wf(),
        ensures
            r is Some <==> self@ <= 0x7FFF_FFFF_FFFF_FFFF,
            r is Some ==> r->Some_0 == self@,
    {
        match self.to_u64() {
            Some(v) => {
                if v <= 0x7FFF_FFFF_FFFF_FFFF {
                    Some(v as i64)
                } else {
                    None
                }
            }
            None => None,
        }
    }

    /// The magnitude as a signed 128-bit value, when it fits.
    pub fn to_i128(&self) -> (r: Option<i128>)
        requires
            self.wf(),
        ensures
            r is Some <==> self@ <= 0x7FFF_FFFF_FFFF_FFFF_FFFF_FFFF_FFFF_FFFF,
            r is Some ==> r->Some_0 == self@,
    {
        match self.to_u128() {
            Some(v) => {
                if v <= 0x7FFF_FFFF_FFFF_FFFF_FFFF_FFFF_FFFF_FFFF {
                    Some(v as i128)
                } else {
                    None
                }
            }
            None => None,
        }
    }

    /// A copy of the magnitude; the conversion from an unsigned value to an
    /// unsigned magnitude always succeeds.
    pub fn to_biguint(&self) -> (r: Option<BigUint>)
        requires
            self.wf(),
        ensures
            r is Some,
            r->Some_0.wf(),
            r->Some_0@ == self@,
    {
        Some(self.clone())
    }

    /// A magnitude from a signed 64-bit value; negative values have none.
    pub fn from_i64(n: i64) -> (r: Option<BigUint>)
        ensures
            r is Some <==> n >= 0,
            r is Some ==> r->Some_0.wf() && r->Some_0@ == n,
    {
        if n >= 0 {
            Some(Self::from_u64(n as u64))
        } else {
            None
        }
    }

    /// A magnitude from a signed 128-bit value; negative values have none.
    pub fn from_i128(n: i128) -> (r: Option<BigUint>)
        ensures
            r is Some <==> n >= 0,
            r is Some ==> r->Some_0.wf() && r->Some_0@ == n,
    {
        if n >= 0 {
            Some(Self::from_u128(n as u128))
        } else {
            None
        }
    }
}

/// The top 64 bits of a magnitude, rounded to odd: if any discarded low bit
/// is set and the kept part is even, the lowest kept bit is forced to one,
/// so that a later rounding to floating point stays correct. A magnitude of
/// at most 64 bits is returned whole.
pub fn high_bits_to_u64(v: &BigUint) -> (r: u64)
    requires
        v.wf(),
        v.data@.len() < 0x0400_0000_0000_0000,
    ensures
        bit_len(v@) <= 64 ==> r == v@,
        bit_len(v@) > 64 ==> ({
            let sh = (bit_len(v@) - 64) as nat;
            if v@ % pow2(sh) != 0 && (v@ / pow2(sh)) % 2 == 0 {
                r == v@ / pow2(sh) + 1
            } else {
                r == v@ / pow2(sh)
            }
        }),
{
    let b = v.bits();
    if b <= 64 {
        proof {
            if v@ > 0 {
                lemma2_to64();
                if (b as nat) < 64 {
                    lemma_pow2_strictly_increases(b as nat, 64);
                }
            }
        }
        return match v.to_u64() {
            Some(x) => x,
            None => {
                proof {
                    assert(false);
                }
                0
            }
        };
    }
    let n = v.data.len();
    let sh64 = b - 64;
    proof {
        // the shift stays well inside the digit vector
        crate::values::lemma_mag_val_bound(v.data@);
        assert(v@ < pow2(32 * (n as nat)));
        if b as nat > 32 * (n as nat) {
            assert(pow2(32 * (n as nat)) <= pow2((b - 1) as nat)) by {
                if 32 * (n as nat) < (b - 1) as nat {
                    lemma_pow2_strictly_increases(32 * (n as nat), (b - 1) as nat);
                }
            }
            assert(false);
        }
        lemma_fundamental_div_mod(sh64 as int, 32);
        assert((sh64 as nat) / 32 <= ((32 * (n as nat) - 64) as nat) / 32) by {
            vstd::arithmetic::div_mod::lemma_div_is_ordered(sh64 as int,
                32 * (n as int) - 64, 32);
        }
        assert(((32 * (n as int) - 64)) / 32 == n - 2) by (nonlinear_arith)
            requires n >= 2;
    }
    let k = (sh64 / 32) as usize;
    let j = (sh64 % 32) as u8;
    // the digits above position k, as their own magnitude
    let mut tail: Vec<u32> = Vec::new();
    let mut m = k;
    while m < n
        invariant
            k <= m <= n,
            n == v.data@.len(),
            tail@ =~= v.data@.subrange(k as int, m as int),
        decreases n - m,
    {
        tail.push(v.data[m]);
        m = m + 1;
    }
    proof {
        assert(tail@ =~= v.data@.skip(k as int));
        assert(tail@.len() > 0);
        assert(tail@.last() == v.data@.last());
    }
    let tmp = BigUint { data: tail };
    let ghost tv = tmp@;
    proof {
        crate::values::lemma_mag_val_split(v.data@, k as nat);
    }
    let pw = pow2_exec(j);
    let (q, r2) = div_rem_digit(tmp, pw);
    let ghost sh = (b - 64) as nat;
    proof {
        // v splits as low + 2^sh * q with low below 2^sh
        let wk = digit_weight(k as nat);
        let lo = mag_val(v.data@.take(k as int));
        lemma_pow2_adds(32 * (k as nat), j as nat);
        assert(32 * (k as nat) + (j as nat) == sh);
        crate::values::lemma_mag_val_bound(v.data@.take(k as int));
        lemma_fundamental_div_mod(tv as int, pw as int);
        assert(tv as int == pow2(j as nat) * (q@ as int) + r2 as int);
        assert(v@ == lo + wk * ((pow2(j as nat) * (q@ as int)) + r2 as int))
            by (nonlinear_arith)
            requires
                v@ == lo + wk * (tv as int),
                tv as int == pow2(j as nat) * (q@ as int) + r2 as int,
        ;
        assert(v@ == (lo + wk * (r2 as nat)) + (wk * pow2(j as nat)) * (q@ as int))
            by (nonlinear_arith)
            requires v@ == lo + wk * ((pow2(j as nat) * (q@ as int)) + r2 as int);
        let low = lo + wk * (r2 as nat);
        assert(low < pow2(sh)) by (nonlinear_arith)
            requires
                low == lo + wk * (r2 as nat),
                lo < wk,
                (r2 as nat) < pow2(j as nat),
                wk >= 1,
                pow2(sh) == wk * pow2(j as nat),
            ;
        lemma_pow2_pos(sh);
        assert(v@ as int == (q@ as int) * (pow2(sh) as int) + low)
            by (nonlinear_arith)
            requires v@ == low + (wk * pow2(j as nat)) * (q@ as int),
                pow2(sh) == wk * pow2(j as nat),
        ;
        lemma_fundamental_div_mod_converse_div(v@ as int, pow2(sh) as int,
            q@ as int, low as int);
        lemma_fundamental_div_mod_converse_mod(v@ as int, pow2(sh) as int,
            q@ as int, low as int);
        // the quotient fits in 64 bits
        lemma_pow2_adds(sh, 64);
        lemma2_to64();
        if q@ >= 0x1_0000_0000_0000_0000 {
            assert(pow2(sh) * (q@ as int) >= pow2(sh) * pow2(64))
                by (nonlinear_arith)
                requires q@ >= pow2(64), pow2(sh) >= 1;
            assert(false);
        }
        // the low part vanishes exactly when its digits and remainder do
        crate::values::lemma_mag_val_zero(v.data@.take(k as int));
        if r2 > 0 {
            assert(wk * (r2 as nat) >= 1) by (nonlinear_arith)
                requires wk >= 1, r2 >= 1;
        }
        assert(wk * 0 == 0) by (nonlinear_arith);
    }
    let q64 = match q.to_u64() {
        Some(x) => x,
        None => {
            proof {
                assert(false);
            }
            0
        }
    };
    // any nonzero digit below the cut keeps the sticky bit alive
    let mut any_low = r2 != 0;
    let mut t: usize = 0;
    while t < k
        invariant
            0 <= t <= k <= v.data@.len(),
            any_low == (r2 != 0
                || exists|i: int| 0 <= i < t && v.data@[i] != 0),
        decreases k - t,
    {
        if v.data[t] != 0 {
            any_low = true;
        }
        t = t + 1;
    }
    proof {
        crate::values::lemma_mag_val_zero(v.data@.take(k as int));
        if any_low {
            if r2 == 0 {
                let i = choose|i: int| 0 <= i < k && v.data@[i] != 0;
                assert(v.data@.take(k as int)[i] != 0);
            }
        } else {
            assert(forall|i: int| 0 <= i < k ==> v.data@[i] == 0);
            assert(forall|i: int| 0 <= i < k
                ==> #[trigger] v.data@.take(k as int)[i] == 0);
        }
    }
    if any_low && q64 % 2 == 0 {
        q64 + 1
    } else {
        q64
    }
}

/// Without separator bytes, parsing the digits is mapping each byte to its
/// value.
proof fn lemma_parse_digits_plain(s: Seq<u8>)
    requires
        forall|i: int| 0 <= i < s.len() ==> s[i] != 95,
    ensures
        parse_digits(s) =~= s.map_values(|b: u8| digit_val_u8(b)),
    decreases s.len(),
{
    if s.len() > 0 {
        lemma_parse_digits_plain(s.drop_last());
        assert(s.map_values(|b: u8| digit_val_u8(b))
            =~= s.drop_last().map_values(|b: u8| digit_val_u8(b)).push(
                digit_val_u8(s.last())));
    }
}

/// Formatting round-trips through parsing: reading a magnitude's ASCII
/// digits back in the same radix accepts the text and returns the same
/// value. `t` is the reversed digit text as the formatter hands it out; its
/// reversal is the parser's input.
pub proof fn lemma_format_parse_round_trip(x: nat, radix: nat, t: Seq<u8>)
    requires
        2 <= radix <= 36,
        t.len() >= 1,
        forall|i: int| 0 <= i < t.len()
            ==> (digit_val_u8(#[trigger] t[i]) as nat) < radix
                && t[i] == ascii_of_digit(digit_val_u8(t[i]) as nat),
        radix_val_le(t.map_values(|b: u8| digit_val_u8(b)), radix) == x,
    ensures
        strip_plus(t.reverse()) == t.reverse(),
        t.reverse().len() > 0,
        t.reverse()[0] != 95,
        all_valid_digits(t.reverse(), radix),
        radix_val_be(parse_digits(t.reverse()), radix) == x,
{
    let r = t.reverse();
    let n = t.len();
    // every byte is a canonical digit character, so none is '+' or '_'
    assert forall|i: int| 0 <= i < r.len() implies r[i] != 95 && r[i] != 43
            && (digit_val_u8(#[trigger] r[i]) as nat) < radix by {
        assert(r[i] == t[n - 1 - i]);
        assert(t[n - 1 - i] == ascii_of_digit(digit_val_u8(t[n - 1 - i]) as nat));
    }
    assert(strip_plus(r) == r);
    lemma_parse_digits_plain(r);
    let m = r.map_values(|b: u8| digit_val_u8(b));
    crate::values::lemma_radix_be_is_le_reverse(m, radix);
    assert(m.reverse() =~= t.map_values(|b: u8| digit_val_u8(b)));
}

/// Raw radix digits round-trip: the digit sequence the exporter produces for
/// a magnitude meets the importer's acceptance condition, and any magnitude
/// the importer builds from it is the original, digit for digit.
pub proof fn lemma_radix_bytes_round_trip(x: BigUint, y: BigUint, radix: u32, t: Seq<u8>)
    requires
        x.wf(),
        y.wf(),
        2 <= radix <= 256,
        forall|i: int| 0 <= i < t.len() ==> (#[trigger] t[i] as nat) < radix,
        radix_val_le(t, radix as nat) == x@,
        y@ == radix_val_le(t, radix as nat),
    ensures
        y@ == x@,
        y.data@ =~= x.data@,
{
    crate::values::lemma_normal_unique(y.data@, x.data@);
}

} // verus!
