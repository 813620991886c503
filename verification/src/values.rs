//! Mathematical meaning of digit sequences: the value of a little-endian
//! vector of base-2^32 digits, the value of a radix-digit sequence in either
//! digit order, and the lemmas the arithmetic kernel is proved against.

use vstd::prelude::*;
use vstd::arithmetic::power::pow;
use vstd::arithmetic::power2::pow2;
use vstd::arithmetic::power2::lemma_pow2_adds;
use vstd::arithmetic::power2::lemma_pow2_pos;
use vstd::arithmetic::mul::lemma_mul_inequality;

verus! {


/// Value of a little-endian sequence of base-2^32 digits.
pub open spec fn mag_val(s: Seq<u32>) -> nat
    decreases s.len(),
{
    if s.len() == 0 {
        0
    } else {
        s[0] as nat + 0x1_0000_0000 * mag_val(s.drop_first())
    }
}

/// `pow2(32 * k)`: the weight of digit position `k`.
pub open spec fn digit_weight(k: nat) -> nat {
    pow2(32 * k)
}

/// A digit vector is normalized when it carries no trailing (most
/// significant) zero digit; zero is the empty vector.
pub open spec fn is_normal(s: Seq<u32>) -> bool {
    s.len() == 0 || s.last() != 0
}

pub broadcast proof fn lemma_digit_weight_pos(k: nat)
    ensures
        #[trigger] digit_weight(k) >= 1,
{
    lemma_pow2_pos(32 * k);
}

pub proof fn lemma_digit_weight_succ(k: nat)
    ensures
        digit_weight(k + 1) == 0x1_0000_0000 * digit_weight(k),
{
    lemma_pow2_adds(32, 32 * k);
    assert(pow2(32) == 0x1_0000_0000) by {
        vstd::arithmetic::power2::lemma2_to64();
    }
    assert(32 * (k + 1) == 32 + 32 * k) by (nonlinear_arith);
}

/// The value of a one-digit vector is that digit.
pub proof fn lemma_mag_val_single(d: u32)
    ensures
        mag_val(seq![d]) == d,
{
    assert(seq![d].drop_first() =~= Seq::<u32>::empty());
    assert(mag_val(Seq::<u32>::empty()) == 0);
}

/// The value of a two-digit vector, written out.
pub proof fn lemma_mag_val_pair(lo: u32, hi: u32)
    ensures
        mag_val(seq![lo, hi]) == lo as nat + 0x1_0000_0000 * (hi as nat),
{
    assert(seq![lo, hi].drop_first() =~= seq![hi]);
    lemma_mag_val_single(hi);
}

/// The value of a four-digit vector, written out.
pub proof fn lemma_mag_val_quad(d0: u32, d1: u32, d2: u32, d3: u32)
    ensures
        mag_val(seq![d0, d1, d2, d3])
            == d0 as nat + 0x1_0000_0000 * (d1 as nat
                + 0x1_0000_0000 * (d2 as nat + 0x1_0000_0000 * (d3 as nat))),
{
    assert(seq![d0, d1, d2, d3].drop_first() =~= seq![d1, d2, d3]);
    assert(seq![d1, d2, d3].drop_first() =~= seq![d2, d3]);
    lemma_mag_val_pair(d2, d3);
    assert(mag_val(seq![d1, d2, d3])
        == d1 as nat + 0x1_0000_0000 * mag_val(seq![d2, d3]));
    assert(mag_val(seq![d0, d1, d2, d3])
        == d0 as nat + 0x1_0000_0000 * mag_val(seq![d1, d2, d3]));
}

/// Appending a digit at the most significant end adds its weighted value.
pub proof fn lemma_mag_val_snoc(s: Seq<u32>, d: u32)
    ensures
        mag_val(s.push(d)) == mag_val(s) + d * digit_weight(s.len()),
    decreases s.len(),
{
    if s.len() == 0 {
        assert(s.push(d) =~= seq![d]);
        assert(mag_val(seq![d].drop_first()) == 0);
        assert(digit_weight(0) == 1) by {
            vstd::arithmetic::power2::lemma2_to64();
        }
    } else {
        assert(s.push(d).drop_first() =~= s.drop_first().push(d));
        lemma_mag_val_snoc(s.drop_first(), d);
        let n = (s.len() - 1) as nat;
        lemma_digit_weight_succ(n);
        assert(0x1_0000_0000 * (mag_val(s.drop_first()) + d * digit_weight(n))
            == 0x1_0000_0000 * mag_val(s.drop_first()) + 0x1_0000_0000 * (d * digit_weight(n)))
            by (nonlinear_arith);
        assert(0x1_0000_0000 * (d * digit_weight(n)) == d * (0x1_0000_0000 * digit_weight(n)))
            by (nonlinear_arith);
    }
}

/// Every `len`-digit value lies below the weight of position `len`.
pub proof fn lemma_mag_val_bound(s: Seq<u32>)
    ensures
        mag_val(s) < digit_weight(s.len()),
    decreases s.len(),
{
    if s.len() == 0 {
        assert(digit_weight(0) == 1) by {
            vstd::arithmetic::power2::lemma2_to64();
        }
    } else {
        lemma_mag_val_bound(s.drop_first());
        let n = (s.len() - 1) as nat;
        lemma_digit_weight_succ(n);
        assert(s[0] as nat + 0x1_0000_0000 * mag_val(s.drop_first())
            < 0x1_0000_0000 * (mag_val(s.drop_first()) + 1)) by (nonlinear_arith);
        assert(0x1_0000_0000 * (mag_val(s.drop_first()) + 1)
            <= 0x1_0000_0000 * digit_weight(n)) by (nonlinear_arith)
            requires mag_val(s.drop_first()) + 1 <= digit_weight(n);
    }
}

/// A digit vector splits at any position into its low part plus its
/// weighted high part.
pub proof fn lemma_mag_val_split(s: Seq<u32>, k: nat)
    requires
        k <= s.len(),
    ensures
        mag_val(s) == mag_val(s.take(k as int))
            + digit_weight(k) * mag_val(s.skip(k as int)),
    decreases k,
{
    if k == 0 {
        assert(s.take(0) =~= Seq::<u32>::empty());
        assert(s.skip(0) =~= s);
        assert(digit_weight(0) == 1) by {
            vstd::arithmetic::power2::lemma2_to64();
        }
    } else {
        lemma_mag_val_split(s, (k - 1) as nat);
        let j = (k - 1) as nat;
        assert(s.take(k as int) =~= s.take(j as int).push(s[j as int]));
        lemma_mag_val_snoc(s.take(j as int), s[j as int]);
        assert(s.skip(j as int).len() == s.len() - j);
        if s.skip(j as int).len() > 0 {
            assert(s.skip(j as int)[0] == s[j as int]);
            assert(s.skip(j as int).drop_first() =~= s.skip(k as int));
        }
        // mag_val(s.skip(j)) == s[j] + B * mag_val(s.skip(k))
        lemma_digit_weight_succ(j);
        let hi = mag_val(s.skip(k as int));
        let d = s[j as int] as nat;
        let w = digit_weight(j);
        // s = take(j) + w*(d + B*hi) ; want take(j) + d*w + (B*w)*hi
        assert(w * (d + 0x1_0000_0000 * hi) == w * d + (0x1_0000_0000 * w) * hi)
            by (nonlinear_arith);
        assert(w * d == d * w) by (nonlinear_arith);
    }
}

/// The value is zero exactly when every digit is zero.
pub proof fn lemma_mag_val_zero(s: Seq<u32>)
    ensures
        mag_val(s) == 0 <==> (forall|i: int| 0 <= i < s.len() ==> s[i] == 0),
    decreases s.len(),
{
    if s.len() > 0 {
        lemma_mag_val_zero(s.drop_first());
        assert(0x1_0000_0000 * mag_val(s.drop_first()) >= 0);
        if mag_val(s.drop_first()) > 0 {
            assert(0x1_0000_0000 * mag_val(s.drop_first()) >= 0x1_0000_0000)
                by (nonlinear_arith)
                requires mag_val(s.drop_first()) > 0;
        }
        if mag_val(s) == 0 {
            assert(forall|i: int| 0 <= i < s.drop_first().len()
                ==> s.drop_first()[i] == 0);
            assert forall|i: int| 0 <= i < s.len() implies s[i] == 0 by {
                if i > 0 {
                    assert(s.drop_first()[i - 1] == s[i]);
                }
            }
        }
        if forall|i: int| 0 <= i < s.len() ==> s[i] == 0 {
            assert forall|i: int| 0 <= i < s.drop_first().len()
                implies s.drop_first()[i] == 0 by {
                assert(s.drop_first()[i] == s[i + 1]);
            }
        }
    }
}

/// A normalized nonempty vector reaches at least the weight of its top digit.
pub proof fn lemma_mag_val_normal_lower(s: Seq<u32>)
    requires
        s.len() > 0,
        s.last() != 0,
    ensures
        mag_val(s) >= digit_weight((s.len() - 1) as nat),
{
    let n = (s.len() - 1) as nat;
    lemma_mag_val_split(s, n);
    assert(s.skip(n as int) =~= seq![s.last()]);
    assert(mag_val(seq![s.last()]) == s.last() as nat + 0x1_0000_0000 * mag_val(
        seq![s.last()].drop_first()));
    assert(seq![s.last()].drop_first() =~= Seq::<u32>::empty());
    lemma_digit_weight_pos(n);
    assert(digit_weight(n) * mag_val(s.skip(n as int)) >= digit_weight(n))
        by (nonlinear_arith)
        requires mag_val(s.skip(n as int)) >= 1, digit_weight(n) >= 1;
}

/// Among vectors of equal length, the one whose top differing digit is
/// smaller has the smaller value.
pub proof fn lemma_mag_val_cmp(s: Seq<u32>, t: Seq<u32>, k: int)
    requires
        s.len() == t.len(),
        0 <= k < s.len(),
        s.skip(k + 1) =~= t.skip(k + 1),
        s[k] < t[k],
    ensures
        mag_val(s) < mag_val(t),
{
    lemma_mag_val_split(s, (k + 1) as nat);
    lemma_mag_val_split(t, (k + 1) as nat);
    let w = digit_weight((k + 1) as nat);
    let hi = mag_val(s.skip(k + 1));
    // low parts: take(k+1) = take(k).push(s[k])
    assert(s.take(k + 1) =~= s.take(k).push(s[k]));
    assert(t.take(k + 1) =~= t.take(k).push(t[k]));
    lemma_mag_val_snoc(s.take(k), s[k]);
    lemma_mag_val_snoc(t.take(k), t[k]);
    lemma_mag_val_bound(s.take(k));
    let wk = digit_weight(k as nat);
    assert(mag_val(s.take(k)) < wk);
    assert(mag_val(s.take(k + 1)) < wk + s[k] * wk);
    assert(wk + s[k] * wk == (s[k] + 1) * wk) by (nonlinear_arith);
    assert((s[k] + 1) * wk <= t[k] * wk) by {
        lemma_mul_inequality(s[k] + 1, t[k] as int, wk as int);
    }
    assert(mag_val(t.take(k + 1)) >= t[k] * wk);
    assert(mag_val(s.take(k + 1)) < mag_val(t.take(k + 1)));
}

/// A digit-with-carry decomposition, weighted at position `i`: if
/// `d + 2^32 * c == s`, the pair `(d, c)` contributes `s` times the weight
/// of position `i`, with `c` weighted one position higher.
pub proof fn lemma_weighted_carry(i: nat, d: nat, c: nat, s: nat)
    requires
        d + 0x1_0000_0000 * c == s,
    ensures
        d * digit_weight(i) + c * digit_weight(i + 1) == s * digit_weight(i),
{
    lemma_digit_weight_succ(i);
    let w = digit_weight(i);
    assert(d * w + c * (0x1_0000_0000 * w) == (d + 0x1_0000_0000 * c) * w)
        by (nonlinear_arith);
}

/// Writing one digit of a running result: relates the prefix values before
/// and after the update, and leaves the tail beyond it untouched.
pub proof fn lemma_prefix_update(pre: Seq<u32>, orig: Seq<u32>, cur: Seq<u32>, i: nat, t: u32)
    requires
        pre.len() == orig.len(),
        i < pre.len(),
        cur =~= pre.update(i as int, t),
        pre.skip(i as int) =~= orig.skip(i as int),
    ensures
        cur.len() == pre.len(),
        cur.skip(i as int + 1) =~= orig.skip(i as int + 1),
        pre[i as int] == orig[i as int],
        mag_val(cur.take(i as int + 1))
            == mag_val(pre.take(i as int)) + t * digit_weight(i),
        mag_val(orig.take(i as int + 1))
            == mag_val(orig.take(i as int)) + orig[i as int] * digit_weight(i),
{
    assert(pre.skip(i as int)[0] == pre[i as int]);
    assert(cur.take(i as int + 1) =~= pre.take(i as int).push(t));
    assert(orig.take(i as int + 1) =~= orig.take(i as int).push(orig[i as int]));
    lemma_mag_val_snoc(pre.take(i as int), t);
    lemma_mag_val_snoc(orig.take(i as int), orig[i as int]);
    assert forall|m: int| 0 <= m < cur.skip(i as int + 1).len()
        implies #[trigger] cur.skip(i as int + 1)[m] == orig.skip(i as int + 1)[m] by {
        assert(cur.skip(i as int + 1)[m] == cur[i + 1 + m]);
        assert(pre.skip(i as int)[m + 1] == orig.skip(i as int)[m + 1]);
    }
}

/// Multiplying out a sum of three addends by a common weight.
pub proof fn lemma_distribute3(x: nat, y: nat, z: nat, w: nat)
    ensures
        (x + y + z) * w == x * w + y * w + z * w,
{
    assert((x + y + z) * w == x * w + y * w + z * w) by (nonlinear_arith);
}

/// Normalized digit vectors are canonical: equal values mean equal vectors.
pub proof fn lemma_normal_unique(a: Seq<u32>, b: Seq<u32>)
    requires
        is_normal(a),
        is_normal(b),
        mag_val(a) == mag_val(b),
    ensures
        a =~= b,
    decreases a.len(),
{
    if a.len() == 0 {
        lemma_mag_val_zero(a);
        lemma_mag_val_zero(b);
        if b.len() > 0 {
            assert(b.last() == b[b.len() - 1]);
            assert(false);
        }
    } else if b.len() == 0 {
        lemma_mag_val_zero(a);
        lemma_mag_val_zero(b);
        assert(a.last() == a[a.len() - 1]);
        assert(false);
    } else {
        // the low digit of each is the value's remainder modulo the base
        let v = mag_val(a);
        vstd::arithmetic::div_mod::lemma_fundamental_div_mod_converse_div(
            v as int, 0x1_0000_0000, mag_val(a.drop_first()) as int, a[0] as int);
        vstd::arithmetic::div_mod::lemma_fundamental_div_mod_converse_mod(
            v as int, 0x1_0000_0000, mag_val(a.drop_first()) as int, a[0] as int);
        vstd::arithmetic::div_mod::lemma_fundamental_div_mod_converse_div(
            v as int, 0x1_0000_0000, mag_val(b.drop_first()) as int, b[0] as int);
        vstd::arithmetic::div_mod::lemma_fundamental_div_mod_converse_mod(
            v as int, 0x1_0000_0000, mag_val(b.drop_first()) as int, b[0] as int);
        assert(a[0] == b[0]);
        assert(mag_val(a.drop_first()) == mag_val(b.drop_first()));
        if a.len() > 1 {
            assert(a.drop_first().last() == a.last());
        }
        if b.len() > 1 {
            assert(b.drop_first().last() == b.last());
        }
        lemma_normal_unique(a.drop_first(), b.drop_first());
        assert forall|i: int| 0 <= i < a.len() implies a[i] == b[i] by {
            if i > 0 {
                assert(a.drop_first()[i - 1] == b.drop_first()[i - 1]);
            }
        }
    }
}

/// Value of a little-endian sequence of radix digits.
pub open spec fn radix_val_le(s: Seq<u8>, base: nat) -> nat
    decreases s.len(),
{
    if s.len() == 0 {
        0
    } else {
        s[0] as nat + base * radix_val_le(s.drop_first(), base)
    }
}

/// Value of a big-endian sequence of radix digits.
pub open spec fn radix_val_be(s: Seq<u8>, base: nat) -> nat
    decreases s.len(),
{
    if s.len() == 0 {
        0
    } else {
        radix_val_be(s.drop_last(), base) * base + s.last() as nat
    }
}

/// Appending a most significant radix digit adds its weighted value.
pub proof fn lemma_radix_le_snoc(s: Seq<u8>, base: nat, d: u8)
    requires
        base >= 1,
    ensures
        radix_val_le(s.push(d), base)
            == radix_val_le(s, base) + d * pow(base as int, s.len()),
    decreases s.len(),
{
    vstd::arithmetic::power::lemma_pow_positive(base as int, s.len());
    if s.len() == 0 {
        assert(s.push(d) =~= seq![d]);
        assert(seq![d].drop_first() =~= Seq::<u8>::empty());
        assert(pow(base as int, 0) == 1) by {
            vstd::arithmetic::power::lemma_pow0(base as int);
        }
        assert(d * 1 == d) by (nonlinear_arith);
        assert(radix_val_le(Seq::<u8>::empty(), base) == 0);
        assert(radix_val_le(seq![d], base) == d as nat + base * 0);
        assert(radix_val_le(s, base) == 0);
    } else {
        assert(s.push(d).drop_first() =~= s.drop_first().push(d));
        lemma_radix_le_snoc(s.drop_first(), base, d);
        let n = (s.len() - 1) as nat;
        let p = pow(base as int, n);
        assert(p >= 1) by {
            vstd::arithmetic::power::lemma_pow_positive(base as int, n);
        }
        assert(pow(base as int, n + 1) == base * p) by {
            vstd::arithmetic::power::lemma_pow_adds(base as int, 1, n);
            vstd::arithmetic::power::lemma_pow1(base as int);
        }
        assert(s.push(d)[0] == s[0]);
        assert(radix_val_le(s.push(d), base)
            == s[0] as nat + base * radix_val_le(s.drop_first().push(d), base));
        assert(radix_val_le(s.drop_first().push(d), base)
            == radix_val_le(s.drop_first(), base) + d * p);
        assert(base * (radix_val_le(s.drop_first(), base) + d * p)
            == base * radix_val_le(s.drop_first(), base) + d * (base * p))
            by (nonlinear_arith)
            requires p >= 1;
        assert(radix_val_le(s.push(d), base)
            == s[0] as nat + base * radix_val_le(s.drop_first(), base) + d * (base * p));
        assert(radix_val_le(s, base)
            == s[0] as nat + base * radix_val_le(s.drop_first(), base));
        assert(radix_val_le(s.push(d), base)
            == radix_val_le(s, base) + d * pow(base as int, s.len()));
    }
}

/// A big-endian digit sequence and its reversal name the same number.
pub proof fn lemma_radix_be_is_le_reverse(s: Seq<u8>, base: nat)
    ensures
        radix_val_be(s, base) == radix_val_le(s.reverse(), base),
    decreases s.len(),
{
    if s.len() == 0 {
    } else {
        lemma_radix_be_is_le_reverse(s.drop_last(), base);
        assert(s.reverse()[0] == s.last());
        assert(s.reverse().drop_first() =~= s.drop_last().reverse());
        assert(radix_val_be(s.drop_last(), base) * base
            == base * radix_val_le(s.drop_last().reverse(), base)) by (nonlinear_arith)
            requires radix_val_be(s.drop_last(), base)
                == radix_val_le(s.drop_last().reverse(), base);
    }
}

} // verus!
