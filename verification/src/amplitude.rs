//! Complex amplitudes.
//!
//! Verus has no theory of IEEE-754 arithmetic, so an amplitude carries its
//! runtime value (a `num` complex number, opaque to the verifier) together
//! with the bit patterns of its two components. The bit patterns are the
//! verified model: every operation below states, over uninterpreted names
//! for the floating-point operations, which bit patterns come out. The
//! invariant that `re_bits`/`im_bits` are exactly `to_bits` of the parts of
//! `cx` is maintained by every constructor in this module and relied on by
//! the contracts of the operations.

use vstd::prelude::*;

verus! {

/// Bit pattern of the result of adding two `f64` values with the given bit
/// patterns.
pub uninterp spec fn add_bits(a: u64, b: u64) -> u64;

/// Bit pattern of the result of subtracting two `f64` values.
pub uninterp spec fn sub_bits(a: u64, b: u64) -> u64;

/// Bit pattern of the result of multiplying two `f64` values.
pub uninterp spec fn mul_bits(a: u64, b: u64) -> u64;

/// Bit pattern of the negation of an `f64` value.
pub uninterp spec fn neg_bits(a: u64) -> u64;

/// Result of the `<` comparison of two `f64` values with the given bit
/// patterns.
pub uninterp spec fn lt_bits(a: u64, b: u64) -> bool;

/// Bit pattern of the `f64` quotient `n / d` after converting the two
/// integers to `f64`.
pub uninterp spec fn ratio_bits(n: u64, d: u64) -> u64;

/// The IEEE-754 bit pattern of `1.0f64`.
pub const ONE_BITS: u64 = 0x3FF0_0000_0000_0000;

/// The IEEE-754 bit pattern of `-0.0f64` (sign bit alone).
pub const NEG_ZERO_BITS: u64 = 0x8000_0000_0000_0000;

#[verifier::external_type_specification]
#[verifier::external_body]
#[verifier::reject_recursive_types(T)]
pub struct ExComplex<T>(num::complex::Complex<T>);

/// The verified view of an amplitude: the bit patterns of its components.
pub ghost struct AmpView {
    pub re: u64,
    pub im: u64,
}

/// A complex amplitude: a runtime complex number and the bit patterns of
/// its real and imaginary parts.
pub struct Amplitude {
    cx: num::complex::Complex64,
    re_bits: u64,
    im_bits: u64,
}

impl View for Amplitude {
    type V = AmpView;

    closed spec fn view(&self) -> AmpView {
        AmpView { re: self.re_bits, im: self.im_bits }
    }
}

impl Amplitude {
    /// Bit pattern of the real part.
    pub fn re_bits(&self) -> (r: u64)
        ensures
            r == self@.re,
    {
        self.re_bits
    }

    /// Bit pattern of the imaginary part.
    pub fn im_bits(&self) -> (r: u64)
        ensures
            r == self@.im,
    {
        self.im_bits
    }

    /// The runtime complex value, for consumers that draw or print
    /// amplitudes. Nothing is stated of it: the verified model is the pair
    /// of bit patterns.
    #[verifier::external_body]
    pub fn as_complex(&self) -> num::complex::Complex64 {
        self.cx
    }

    /// Wraps a runtime complex number, for callers that build a state from
    /// deserialized or user-chosen values. Nothing is stated of the view.
    /// Relies on `f64::to_bits` to record the component bit patterns.
    #[verifier::external_body]
    pub fn from_complex(c: num::complex::Complex64) -> Amplitude {
        Amplitude { cx: c, re_bits: c.re.to_bits(), im_bits: c.im.to_bits() }
    }

    /// The amplitude 0+0i.
    /// Relies on num's `Complex::zero` (both components `+0.0`) and on the
    /// IEEE-754 bit pattern of `+0.0` being all zeros.
    #[verifier::external_body]
    pub fn zero() -> (r: Amplitude)
        ensures
            r@ == (AmpView { re: 0, im: 0 }),
    {
        let c = <num::complex::Complex64 as num::Zero>::zero();
        Amplitude { cx: c, re_bits: c.re.to_bits(), im_bits: c.im.to_bits() }
    }

    /// The amplitude 1+0i.
    /// Relies on num's `Complex::one` (components `1.0` and `0.0`) and on
    /// the IEEE-754 bit patterns of `1.0` and `+0.0`.
    #[verifier::external_body]
    pub fn one() -> (r: Amplitude)
        ensures
            r@ == (AmpView { re: ONE_BITS, im: 0 }),
    {
        let c = <num::complex::Complex64 as num::One>::one();
        Amplitude { cx: c, re_bits: c.re.to_bits(), im_bits: c.im.to_bits() }
    }

    /// The real amplitude `n / d + 0i`.
    /// Relies on num's `FromPrimitive::from_u64` for `Complex64` (the
    /// integer-to-`f64` conversion of each operand, a complex number with
    /// imaginary part `+0.0`) and on the `f64` division of the two
    /// converted values: the result depends on `n` and `d` alone.
    #[verifier::external_body]
    pub fn from_ratio(n: u64, d: u64) -> (r: Amplitude)
        ensures
            r@ == (AmpView { re: ratio_bits(n, d), im: 0 }),
    {
        let a = <num::complex::Complex64 as num::FromPrimitive>::from_u64(n).unwrap();
        let b = <num::complex::Complex64 as num::FromPrimitive>::from_u64(d).unwrap();
        let q = a.re / b.re;
        let c = num::complex::Complex::new(q, a.im);
        Amplitude { cx: c, re_bits: c.re.to_bits(), im_bits: c.im.to_bits() }
    }

    /// The amplitude `n / d + (n / d)i`: the same quotient in both
    /// components, used for componentwise thresholds.
    /// Relies on the same conversions and `f64` division as `from_ratio`.
    #[verifier::external_body]
    pub fn from_ratio_pair(n: u64, d: u64) -> (r: Amplitude)
        ensures
            r@ == (AmpView { re: ratio_bits(n, d), im: ratio_bits(n, d) }),
    {
        let a = <num::complex::Complex64 as num::FromPrimitive>::from_u64(n).unwrap();
        let b = <num::complex::Complex64 as num::FromPrimitive>::from_u64(d).unwrap();
        let q = a.re / b.re;
        let c = num::complex::Complex::new(q, q);
        Amplitude { cx: c, re_bits: c.re.to_bits(), im_bits: c.im.to_bits() }
    }
}

/// Componentwise complex addition, as num implements it.
pub open spec fn cadd(a: AmpView, b: AmpView) -> AmpView {
    AmpView { re: add_bits(a.re, b.re), im: add_bits(a.im, b.im) }
}

/// Componentwise complex subtraction, as num implements it.
pub open spec fn csub(a: AmpView, b: AmpView) -> AmpView {
    AmpView { re: sub_bits(a.re, b.re), im: sub_bits(a.im, b.im) }
}

/// Complex multiplication, operand for operand as num implements it:
/// `(a.re*b.re - a.im*b.im) + (a.re*b.im + a.im*b.re)i`.
pub open spec fn cmul(a: AmpView, b: AmpView) -> AmpView {
    AmpView {
        re: sub_bits(mul_bits(a.re, b.re), mul_bits(a.im, b.im)),
        im: add_bits(mul_bits(a.re, b.im), mul_bits(a.im, b.re)),
    }
}

/// Componentwise complex negation, as num implements it.
pub open spec fn cneg(a: AmpView) -> AmpView {
    AmpView { re: neg_bits(a.re), im: neg_bits(a.im) }
}

/// The squared magnitude `re*re + im*im`, as num's `norm_sqr` computes it,
/// carried as a real amplitude.
pub open spec fn cnorm(a: AmpView) -> AmpView {
    AmpView { re: add_bits(mul_bits(a.re, a.re), mul_bits(a.im, a.im)), im: 0 }
}

/// True exactly of the bit patterns that compare equal to `0.0` as `f64`
/// values: `+0.0` and `-0.0`. Every other pattern (subnormals and NaN
/// included) compares unequal to zero.
pub open spec fn zero_pattern(b: u64) -> bool {
    b == 0 || b == NEG_ZERO_BITS
}

/// True iff both components of the amplitude compare equal to `0.0`.
pub open spec fn is_zero_view(a: AmpView) -> bool {
    zero_pattern(a.re) && zero_pattern(a.im)
}

impl Amplitude {
    /// Whether both components are bitwise `+0.0` or `-0.0`, which holds
    /// exactly when the runtime components compare equal to `0.0`.
    pub fn is_zero(&self) -> (r: bool)
        ensures
            r == is_zero_view(self@),
    {
        let re = self.re_bits();
        let im = self.im_bits();
        (re == 0 || re == NEG_ZERO_BITS) && (im == 0 || im == NEG_ZERO_BITS)
    }

    /// Complex addition.
    /// Relies on num's `Complex` addition: componentwise `f64` addition.
    #[verifier::external_body]
    pub fn add(&self, other: &Amplitude) -> (r: Amplitude)
        ensures
            r@ == (AmpView { re: add_bits(self@.re, other@.re), im: add_bits(self@.im, other@.im) }),
            r@ == cadd(self@, other@),
    {
        let c = self.cx + other.cx;
        Amplitude { cx: c, re_bits: c.re.to_bits(), im_bits: c.im.to_bits() }
    }

    /// Complex subtraction.
    /// Relies on num's `Complex` subtraction: componentwise `f64`
    /// subtraction.
    #[verifier::external_body]
    pub fn sub(&self, other: &Amplitude) -> (r: Amplitude)
        ensures
            r@ == (AmpView { re: sub_bits(self@.re, other@.re), im: sub_bits(self@.im, other@.im) }),
            r@ == csub(self@, other@),
    {
        let c = self.cx - other.cx;
        Amplitude { cx: c, re_bits: c.re.to_bits(), im_bits: c.im.to_bits() }
    }

    /// Complex multiplication.
    /// Relies on num's `Complex` multiplication:
    /// `(a.re*b.re - a.im*b.im) + (a.re*b.im + a.im*b.re)i`.
    #[verifier::external_body]
    pub fn mul(&self, other: &Amplitude) -> (r: Amplitude)
        ensures
            r@ == (AmpView {
                re: sub_bits(mul_bits(self@.re, other@.re), mul_bits(self@.im, other@.im)),
                im: add_bits(mul_bits(self@.re, other@.im), mul_bits(self@.im, other@.re)),
            }),
            r@ == cmul(self@, other@),
    {
        let c = self.cx * other.cx;
        Amplitude { cx: c, re_bits: c.re.to_bits(), im_bits: c.im.to_bits() }
    }

    /// Complex negation.
    /// Relies on num's `Complex` negation: componentwise `f64` negation.
    #[verifier::external_body]
    pub fn neg(&self) -> (r: Amplitude)
        ensures
            r@ == (AmpView { re: neg_bits(self@.re), im: neg_bits(self@.im) }),
            r@ == cneg(self@),
    {
        let c = -self.cx;
        Amplitude { cx: c, re_bits: c.re.to_bits(), im_bits: c.im.to_bits() }
    }

    /// The squared magnitude as a real amplitude.
    /// Relies on num's `Complex::norm_sqr`: `re*re + im*im`, and on the
    /// bit pattern of `+0.0` for the imaginary part of the result.
    #[verifier::external_body]
    pub fn norm_sqr_amp(&self) -> (r: Amplitude)
        ensures
            r@ == (AmpView { re: add_bits(mul_bits(self@.re, self@.re), mul_bits(self@.im, self@.im)), im: 0 }),
            r@ == cnorm(self@),
    {
        let n = self.cx.norm_sqr();
        let z = <num::complex::Complex64 as num::Zero>::zero();
        let c = num::complex::Complex::new(n, z.re);
        Amplitude { cx: c, re_bits: c.re.to_bits(), im_bits: c.im.to_bits() }
    }

    /// Whether the real part of `self` is `<` the real part of `other`.
    /// Relies on the IEEE-754 `<` comparison of `f64` values.
    #[verifier::external_body]
    pub fn re_lt(&self, other: &Amplitude) -> (r: bool)
        ensures
            r == lt_bits(self@.re, other@.re),
    {
        self.cx.re < other.cx.re
    }

    /// Whether the imaginary part of `self` is `<` the imaginary part of
    /// `other`. Relies on the IEEE-754 `<` comparison of `f64` values.
    #[verifier::external_body]
    pub fn im_lt(&self, other: &Amplitude) -> (r: bool)
        ensures
            r == lt_bits(self@.im, other@.im),
    {
        self.cx.im < other.cx.im
    }

    /// An identical amplitude: same runtime value, same bit patterns.
    /// Relies on num's `Complex` being `Copy`.
    #[verifier::external_body]
    pub fn duplicate(&self) -> (r: Amplitude)
        ensures
            r@ == self@,
    {
        Amplitude { cx: self.cx, re_bits: self.re_bits, im_bits: self.im_bits }
    }
}

} // verus!
