//! An arbitrary-precision decimal value for monetary/percentage fields,
//! together with an exact conversion from the bit pattern of a 64-bit binary
//! floating-point number.  The conversion rejects non-finite inputs and never
//! rounds: every finite double is `m * 2^e` for integers `m` and `e`, and its
//! decimal expansion `m * 5^k / 10^k` (for `e == -k < 0`) or `m * 2^e`
//! (for `e >= 0`) is computed digit by digit.

use vstd::prelude::*;

verus! {

/// `b` to the power `e`.
pub open spec fn pow_of(b: int, e: nat) -> int
    decreases e,
{
    if e == 0 {
        1
    } else {
        b * pow_of(b, (e - 1) as nat)
    }
}

/// The integer written by a little-endian sequence of base-10 digits.
pub open spec fn digits_val(s: Seq<u8>) -> int
    decreases s.len(),
{
    if s.len() == 0 {
        0
    } else {
        digits_val(s.drop_last()) + s.last() * pow_of(10, (s.len() - 1) as nat)
    }
}

/// A positive base to any power stays positive.
pub proof fn lemma_pow_of_positive(b: int, e: nat)
    requires
        b > 0,
    ensures
        pow_of(b, e) > 0,
    decreases e,
{
    if e > 0 {
        lemma_pow_of_positive(b, (e - 1) as nat);
        assert(b * pow_of(b, (e - 1) as nat) > 0) by (nonlinear_arith)
            requires
                b > 0,
                pow_of(b, (e - 1) as nat) > 0,
        ;
    }
}

/// Every digit sequence denotes a non-negative integer.
pub proof fn lemma_digits_val_nonneg(s: Seq<u8>)
    ensures
        digits_val(s) >= 0,
    decreases s.len(),
{
    if s.len() > 0 {
        lemma_digits_val_nonneg(s.drop_last());
        lemma_pow_of_positive(10, (s.len() - 1) as nat);
        assert(s.last() * pow_of(10, (s.len() - 1) as nat) >= 0) by (nonlinear_arith)
            requires
                s.last() >= 0,
                pow_of(10, (s.len() - 1) as nat) > 0,
        ;
    }
}

/// A sequence of `n` base-10 digits denotes a value below `10^n`.
pub proof fn lemma_digits_val_upper(s: Seq<u8>)
    requires
        forall|i: int| 0 <= i < s.len() ==> s[i] < 10,
    ensures
        digits_val(s) < pow_of(10, s.len()),
    decreases s.len(),
{
    if s.len() == 0 {
    } else {
        lemma_digits_val_upper(s.drop_last());
        lemma_pow_of_positive(10, (s.len() - 1) as nat);
        let p = pow_of(10, (s.len() - 1) as nat);
        assert(s.last() * p <= 9 * p) by (nonlinear_arith)
            requires
                s.last() <= 9,
                p > 0,
        ;
        assert(pow_of(10, s.len()) == 10 * p);
    }
}

/// A digit sequence whose top digit is `t` denotes at least `t * 10^(n-1)`.
pub proof fn lemma_digits_val_lower(s: Seq<u8>)
    requires
        s.len() > 0,
    ensures
        digits_val(s) >= s.last() * pow_of(10, (s.len() - 1) as nat),
{
    lemma_digits_val_nonneg(s.drop_last());
}

/// A sequence of well-formed digits: each below 10, no zero in the top place.
pub open spec fn digits_wf(s: Seq<u8>) -> bool {
    &&& forall|i: int| 0 <= i < s.len() ==> s[i] < 10
    &&& s.len() > 0 ==> s.last() != 0
}

/// An exact decimal number: `(-1)^negative * <digits> / 10^scale`, with the
/// base-10 digits stored lowest first.  Zero is the empty digit string with
/// scale 0 and a positive sign.
#[derive(Clone, Debug, PartialEq, Eq)]
pub struct Decimal {
    pub negative: bool,
    pub digits: Vec<u8>,
    pub scale: usize,
}

impl Decimal {
    pub open spec fn wf(self) -> bool {
        &&& digits_wf(self.digits@)
        &&& self.digits@.len() == 0 ==> !self.negative && self.scale == 0
    }
}

/// The error a conversion reports when the input has no exact decimal
/// expansion, i.e. it is a NaN or an infinity.
#[derive(PartialEq, Eq, Structural, Debug, Clone, Copy)]
pub enum DecimalError {
    NotRepresentable,
}

/// The exponent field of an IEEE 754 binary64 bit pattern.
pub open spec fn exp_field(bits: u64) -> u64 {
    (bits >> 52) & 0x7ff
}

/// The fraction field of an IEEE 754 binary64 bit pattern.
pub open spec fn frac_field(bits: u64) -> u64 {
    bits & 0xf_ffff_ffff_ffff
}

/// The sign bit of an IEEE 754 binary64 bit pattern.
pub open spec fn sign_field(bits: u64) -> u64 {
    bits >> 63
}

/// Whether the bit pattern denotes a finite number (neither NaN nor infinite).
pub open spec fn is_finite_bits(bits: u64) -> bool {
    exp_field(bits) != 0x7ff
}

/// The integer significand of a finite binary64 number: the fraction field,
/// with the implicit leading bit added for normal numbers.
pub open spec fn mantissa_of(bits: u64) -> u64 {
    if exp_field(bits) == 0 {
        frac_field(bits)
    } else {
        (frac_field(bits) + 0x10_0000_0000_0000) as u64
    }
}

/// The power-of-two exponent of a finite binary64 number: the number it
/// denotes is `(-1)^sign * mantissa_of * 2^exp2_of`.
pub open spec fn exp2_of(bits: u64) -> int {
    if exp_field(bits) == 0 {
        -1074
    } else {
        exp_field(bits) - 1075
    }
}

/// `d` is the exact decimal expansion of `m * 2^e`: for a non-negative
/// exponent the digits spell `m * 2^e` itself with scale 0, and for
/// `e == -k < 0` they spell `m * 5^k` with scale `k`, since
/// `m / 2^k == m * 5^k / 10^k`.
pub open spec fn represents(d: Decimal, m: u64, e: int) -> bool {
    if m == 0 {
        d.digits@.len() == 0 && d.scale == 0
    } else if e >= 0 {
        d.scale == 0 && digits_val(d.digits@) == m * pow_of(2, e as nat)
    } else {
        d.scale == -e && digits_val(d.digits@) == m * pow_of(5, (-e) as nat)
    }
}

/// The little-endian base-10 digits of `m`, lowest first, without a zero in
/// the top place.
fn digits_of_u64(m: u64) -> (v: Vec<u8>)
    ensures
        digits_wf(v@),
        digits_val(v@) == m,
        v@.len() > 0 <==> m > 0,
{
    let mut v: Vec<u8> = Vec::new();
    let mut x: u64 = m;
    while x > 0
        invariant
            digits_val(v@) + x * pow_of(10, v@.len()) == m,
            forall|i: int| 0 <= i < v@.len() ==> v@[i] < 10,
            x > 0 || v@.len() == 0 || v@.last() != 0,
        decreases x,
    {
        let ghost prev = v@;
        let ghost xprev = x;
        let d: u8 = (x % 10) as u8;
        v.push(d);
        x = x / 10;
        proof {
            assert(v@ == prev.push(d));
            assert(v@.drop_last() =~= prev);
            assert(digits_val(v@) == digits_val(prev) + d * pow_of(10, prev.len()));
            assert(xprev == 10 * x + d);
            assert(pow_of(10, v@.len()) == 10 * pow_of(10, prev.len()));
            let p = pow_of(10, prev.len());
            assert((10 * x + d) * p == d * p + x * (10 * p)) by (nonlinear_arith);
        }
    }
    proof {
        if v@.len() > 0 {
            lemma_digits_val_lower(v@);
            let p = pow_of(10, (v@.len() - 1) as nat);
            lemma_pow_of_positive(10, (v@.len() - 1) as nat);
            assert(v@.last() * p >= 1 * p) by (nonlinear_arith)
                requires
                    v@.last() >= 1,
                    p > 0,
            ;
        }
    }
    v
}

/// Powers of a base of at least one never decrease in the exponent.
pub proof fn lemma_pow_of_increases(b: int, e1: nat, e2: nat)
    requires
        b >= 1,
        e1 <= e2,
    ensures
        pow_of(b, e1) <= pow_of(b, e2),
    decreases e2,
{
    if e1 < e2 {
        lemma_pow_of_increases(b, e1, (e2 - 1) as nat);
        lemma_pow_of_positive(b, (e2 - 1) as nat);
        assert(b * pow_of(b, (e2 - 1) as nat) >= pow_of(b, (e2 - 1) as nat)) by (nonlinear_arith)
            requires
                b >= 1,
                pow_of(b, (e2 - 1) as nat) > 0,
        ;
    }
}

/// Digit sequences of one length that write the same value are equal.
proof fn lemma_digits_val_inj_same_len(s1: Seq<u8>, s2: Seq<u8>)
    requires
        s1.len() == s2.len(),
        forall|i: int| 0 <= i < s1.len() ==> s1[i] < 10,
        forall|i: int| 0 <= i < s2.len() ==> s2[i] < 10,
        digits_val(s1) == digits_val(s2),
    ensures
        s1 == s2,
    decreases s1.len(),
{
    if s1.len() == 0 {
        assert(s1 =~= s2);
    } else {
        let p = pow_of(10, (s1.len() - 1) as nat);
        lemma_pow_of_positive(10, (s1.len() - 1) as nat);
        lemma_digits_val_nonneg(s1.drop_last());
        lemma_digits_val_nonneg(s2.drop_last());
        lemma_digits_val_upper(s1.drop_last());
        lemma_digits_val_upper(s2.drop_last());
        let r1 = digits_val(s1.drop_last());
        let r2 = digits_val(s2.drop_last());
        assert(r1 + s1.last() * p == r2 + s2.last() * p);
        assert(s1.last() == s2.last()) by (nonlinear_arith)
            requires
                r1 + s1.last() * p == r2 + s2.last() * p,
                0 <= r1 < p,
                0 <= r2 < p,
                p > 0,
        ;
        lemma_digits_val_inj_same_len(s1.drop_last(), s2.drop_last());
        assert forall|i: int| 0 <= i < s1.len() implies s1[i] == s2[i] by {
            if i < s1.len() - 1 {
                assert(s1[i] == s1.drop_last()[i]);
                assert(s2[i] == s2.drop_last()[i]);
            }
        }
        assert(s1 =~= s2);
    }
}

/// Well-formed digit sequences — no zero in the top place — that write the
/// same value are equal: the decimal expansion is canonical.
pub proof fn lemma_digits_val_injective(s1: Seq<u8>, s2: Seq<u8>)
    requires
        digits_wf(s1),
        digits_wf(s2),
        digits_val(s1) == digits_val(s2),
    ensures
        s1 == s2,
{
    if s1.len() == s2.len() {
        lemma_digits_val_inj_same_len(s1, s2);
    } else {
        let (a, b) = if s1.len() < s2.len() {
            (s1, s2)
        } else {
            (s2, s1)
        };
        lemma_digits_val_upper(a);
        lemma_digits_val_lower(b);
        lemma_pow_of_increases(10, a.len(), (b.len() - 1) as nat);
        lemma_pow_of_positive(10, (b.len() - 1) as nat);
        assert(b.last() * pow_of(10, (b.len() - 1) as nat) >= 1 * pow_of(
            10,
            (b.len() - 1) as nat,
        )) by (nonlinear_arith)
            requires
                b.last() >= 1,
                pow_of(10, (b.len() - 1) as nat) > 0,
        ;
        assert(false);
    }
}

/// What a later fetch reads back is determined by the number alone: two
/// well-formed decimals that are the exact expansion of the same
/// `(-1)^sign * m * 2^e`, at the scale that expansion fixes, hold the same
/// digits and the same scale.
pub proof fn lemma_representation_unique(d1: Decimal, d2: Decimal, m: u64, e: int)
    requires
        d1.wf(),
        d2.wf(),
        represents(d1, m, e),
        represents(d2, m, e),
        d1.negative == d2.negative,
    ensures
        d1.digits@ == d2.digits@,
        d1.scale == d2.scale,
{
    if m == 0 {
        assert(d1.digits@ =~= d2.digits@);
    } else {
        lemma_digits_val_injective(d1.digits@, d2.digits@);
    }
}

/// Converts the bit pattern of a 64-bit binary floating-point number into
/// its exact decimal expansion.  NaNs and infinities are rejected; every
/// finite input, normal or subnormal, converts without rounding: the result
/// denotes exactly `(-1)^sign * mantissa * 2^exponent`.
pub fn from_bits(bits: u64) -> (r: Result<Decimal, DecimalError>)
    ensures
        r is Ok <==> is_finite_bits(bits),
        r matches Ok(d) ==> {
            &&& d.wf()
            &&& represents(d, mantissa_of(bits), exp2_of(bits))
            &&& d.negative == (sign_field(bits) == 1 && mantissa_of(bits) != 0)
        },
{
    let ef: u64 = (bits >> 52) & 0x7ff;
    if ef == 0x7ff {
        return Err(DecimalError::NotRepresentable);
    }
    let frac: u64 = bits & 0xf_ffff_ffff_ffff;
    proof {
        assert(bits & 0xf_ffff_ffff_ffff < 0x10_0000_0000_0000) by (bit_vector);
    }
    let m: u64 = if ef == 0 {
        frac
    } else {
        frac + 0x10_0000_0000_0000
    };
    if m == 0 {
        return Ok(Decimal { negative: false, digits: Vec::new(), scale: 0 });
    }
    let negative: bool = (bits >> 63) == 1;
    let mut digits = digits_of_u64(m);
    if ef >= 1075 {
        // e == ef - 1075 >= 0: multiply the significand up by 2^e.
        let mut j: u64 = 1075;
        while j < ef
            invariant
                1075 <= j <= ef,
                digits_wf(digits@),
                digits@.len() > 0,
                digits_val(digits@) == m * pow_of(2, (j - 1075) as nat),
            decreases ef - j,
        {
            mul_in_place(&mut digits, 2);
            j = j + 1;
            proof {
                let jj = (j - 1075 - 1) as nat;
                assert(pow_of(2, (j - 1075) as nat) == 2 * pow_of(2, jj));
                assert(2 * (m * pow_of(2, jj)) == m * (2 * pow_of(2, jj))) by (nonlinear_arith);
            }
        }
        Ok(Decimal { negative, digits, scale: 0 })
    } else {
        // e == -k < 0: the digits of m * 5^k over the scale k spell m / 2^k.
        let k: u64 = if ef == 0 {
            1074
        } else {
            1075 - ef
        };
        let mut j: u64 = 0;
        while j < k
            invariant
                j <= k <= 1074,
                digits_wf(digits@),
                digits@.len() > 0,
                digits_val(digits@) == m * pow_of(5, j as nat),
            decreases k - j,
        {
            mul_in_place(&mut digits, 5);
            j = j + 1;
            proof {
                let jj = (j - 1) as nat;
                assert(pow_of(5, j as nat) == 5 * pow_of(5, jj));
                assert(5 * (m * pow_of(5, jj)) == m * (5 * pow_of(5, jj))) by (nonlinear_arith);
            }
        }
        Ok(Decimal { negative, digits, scale: k as usize })
    }
}

/// Multiplies the number written by `v` by a single digit `k`, in place,
/// carrying into one further place if needed.
fn mul_in_place(v: &mut Vec<u8>, k: u8)
    requires
        1 <= k <= 9,
        digits_wf(old(v)@),
    ensures
        digits_wf(final(v)@),
        digits_val(final(v)@) == k * digits_val(old(v)@),
        final(v)@.len() >= old(v)@.len(),
{
    let ghost orig = v@;
    let mut carry: u8 = 0;
    let mut i: usize = 0;
    while i < v.len()
        invariant
            1 <= k <= 9,
            i <= v@.len(),
            v@.len() == orig.len(),
            carry < 10,
            digits_wf(orig),
            forall|j: int| 0 <= j < i ==> v@[j] < 10,
            forall|j: int| i <= j < v@.len() ==> v@[j] == orig[j],
            digits_val(v@.subrange(0, i as int)) + carry * pow_of(10, i as nat) == k
                * digits_val(orig.subrange(0, i as int)),
        decreases v@.len() - i,
    {
        let ghost prev = v@;
        let ghost cprev = carry;
        proof {
            assert(v@[i as int] == orig[i as int]);
            assert(orig[i as int] < 10);
            assert(v@[i as int] * k + carry < 100) by (nonlinear_arith)
                requires
                    v@[i as int] < 10,
                    k <= 9,
                    carry < 10,
            ;
        }
        let t: u16 = v[i] as u16 * k as u16 + carry as u16;
        let d: u8 = (t % 10) as u8;
        v.set(i, d);
        carry = (t / 10) as u8;
        i = i + 1;
        proof {
            let ii = i - 1;
            assert(orig[ii] * k <= 81) by (nonlinear_arith)
                requires
                    orig[ii] < 10,
                    k <= 9,
            ;
            assert(v@.subrange(0, ii) =~= prev.subrange(0, ii));
            assert(v@.subrange(0, i as int).drop_last() =~= v@.subrange(0, ii));
            assert(orig.subrange(0, i as int).drop_last() =~= orig.subrange(0, ii));
            assert(digits_val(v@.subrange(0, i as int)) == digits_val(v@.subrange(0, ii)) + d
                * pow_of(10, ii as nat));
            assert(digits_val(orig.subrange(0, i as int)) == digits_val(orig.subrange(0, ii))
                + orig[ii] * pow_of(10, ii as nat));
            let p = pow_of(10, ii as nat);
            assert(pow_of(10, i as nat) == 10 * p);
            assert(t == orig[ii] * k + cprev);
            assert(t == 10 * (t / 10) + d);
            assert((orig[ii] * k) * p == k * (orig[ii] * p) && (10 * (t / 10) + d) * p == d * p
                + (t / 10) * (10 * p) && (orig[ii] * k + cprev) * p == (orig[ii] * k) * p + cprev
                * p) by (nonlinear_arith);
            assert(k * (digits_val(orig.subrange(0, ii)) + orig[ii] * p) == k * digits_val(
                orig.subrange(0, ii),
            ) + k * (orig[ii] * p)) by (nonlinear_arith);
        }
    }
    proof {
        assert(v@.subrange(0, v@.len() as int) =~= v@);
        assert(orig.subrange(0, orig.len() as int) =~= orig);
    }
    if carry > 0 {
        let ghost before = v@;
        v.push(carry);
        proof {
            assert(v@.drop_last() =~= before);
        }
    } else {
        proof {
            if v@.len() > 0 && v@.last() == 0 {
                lemma_digits_val_upper(v@.drop_last());
                lemma_digits_val_lower(orig);
                lemma_pow_of_positive(10, (orig.len() - 1) as nat);
                let p = pow_of(10, (orig.len() - 1) as nat);
                assert(digits_val(v@) == digits_val(v@.drop_last()));
                assert(digits_val(orig) >= 1 * p) by (nonlinear_arith)
                    requires
                        digits_val(orig) >= orig.last() * p,
                        orig.last() >= 1,
                        p > 0,
                ;
                assert(k * digits_val(orig) >= digits_val(orig)) by (nonlinear_arith)
                    requires
                        k >= 1,
                        digits_val(orig) >= 0,
                ;
                assert(false);
            }
        }
    }
}

} // verus!
