//! Exact scalar values.
//!
//! An [`ExactValue`] is the scalar the calculator computes with: a
//! rational number, optionally carrying a complex imaginary component,
//! tagged with an approximation flag and a preferred display base.  The
//! approximation flag is monotonic: once set by any operand or
//! operation it propagates to the result and never clears itself
//! (except through explicit construction of a new value).

use vstd::prelude::*;

use crate::error::CalcError;
use crate::error::IntErr;
use crate::interrupt::Interrupt;
use crate::rational::all_digits_below;
use crate::rational::base_digits_spec;
use crate::rational::digits_val;
use crate::rational::pow_nat;
use crate::rational::rat_add;
use crate::rational::is_perfect_power;
use crate::rational::rat_bounded;
use crate::rational::rat_fits;
use crate::rational::rat_div;
use crate::rational::rat_eq;
use crate::rational::rat_is_zero;
use crate::rational::rat_lt;
use crate::rational::rat_mul;
use crate::rational::rat_neg;
use crate::rational::rat_pow;
use crate::rational::rat_of_int;
use crate::rational::rat_sub;
use crate::rational::rat_wf;
use crate::rational::safe_bound;
use crate::rational::Rat;
use crate::rational::Rational;

verus! {

/// Mathematical model of a numeral base: the radix, and whether the
/// base was selected by an explicit prefix of the literal.
pub ghost struct BaseV {
    pub radix: int,
    pub prefixed: bool,
}

/// A numeral base between 2 and 36, used both to read digits and as the
/// preferred display base of a value.
#[derive(Clone, Copy, Debug)]
pub struct Base {
    radix: u8,
    prefixed: bool,
}

impl View for Base {
    type V = BaseV;

    closed spec fn view(&self) -> BaseV {
        BaseV { radix: self.radix as int, prefixed: self.prefixed }
    }
}

impl Base {
    /// The representation invariant: the radix lies between 2 and 36.
    pub open spec fn wf(&self) -> bool {
        2 <= self@.radix <= 36
    }

    /// The base selected by the character after a leading zero:
    /// `0x`, `0d`, `0o` and `0b` literals.
    pub fn from_zero_based_prefix_char(ch: char) -> (r: Result<Self, CalcError>)
        ensures
            match r {
                Ok(b) => b.wf() && b@.prefixed && (ch == 'x' ==> b@.radix == 16) && (ch == 'd'
                    ==> b@.radix == 10) && (ch == 'o' ==> b@.radix == 8) && (ch == 'b'
                    ==> b@.radix == 2),
                Err(e) => e == CalcError::InvalidBasePrefix && ch != 'x' && ch != 'd' && ch != 'o'
                    && ch != 'b',
            },
            (ch == 'x' || ch == 'd' || ch == 'o' || ch == 'b') ==> r is Ok,
    {
        match ch {
            'x' => Ok(Base { radix: 16, prefixed: true }),
            'd' => Ok(Base { radix: 10, prefixed: true }),
            'o' => Ok(Base { radix: 8, prefixed: true }),
            'b' => Ok(Base { radix: 2, prefixed: true }),
            _ => Err(CalcError::InvalidBasePrefix),
        }
    }

    /// The base written as `radix#digits`, for any radix from 2 to 36.
    pub fn from_custom_base(radix: u8) -> (r: Result<Self, CalcError>)
        ensures
            match r {
                Ok(b) => b.wf() && b@ == (BaseV { radix: radix as int, prefixed: true }),
                Err(e) => e == CalcError::BaseOutOfRange,
            },
            r is Ok <==> 2 <= radix <= 36,
    {
        if radix < 2 || radix > 36 {
            Err(CalcError::BaseOutOfRange)
        } else {
            Ok(Base { radix, prefixed: true })
        }
    }

    /// The radix as a machine integer.
    pub fn base_as_u8(&self) -> (r: u8)
        ensures
            r as int == self@.radix,
    {
        self.radix
    }

    /// Whether literals in this base may begin with a zero digit:
    /// they may exactly when the base was selected by a prefix.
    pub fn allow_leading_zeroes(&self) -> (r: bool)
        ensures
            r == self@.prefixed,
    {
        self.prefixed
    }
}

impl Default for Base {
    /// Plain decimal, with no prefix.
    fn default() -> (r: Self)
        ensures
            r.wf(),
            r@ == (BaseV { radix: 10, prefixed: false }),
    {
        Base { radix: 10, prefixed: false }
    }
}

/// Mathematical model of an exact scalar: real and imaginary rational
/// components, the approximation flag, the preferred display base, and
/// the count of fraction digits already accumulated into the value.
pub ghost struct ExactV {
    pub re: Rat,
    pub im: Rat,
    pub approx: bool,
    pub base: BaseV,
    pub frac_places: nat,
}

/// A complex number as a pair of model rationals.
pub ghost struct CxV {
    pub re: Rat,
    pub im: Rat,
}

/// The complex number of an exact-scalar model.
pub open spec fn cx_of(e: ExactV) -> CxV {
    CxV { re: e.re, im: e.im }
}

/// The complex number one.
pub open spec fn cx_one() -> CxV {
    CxV { re: rat_of_int(1), im: rat_of_int(0) }
}

/// Exact complex sum.
pub open spec fn cx_add(a: CxV, b: CxV) -> CxV {
    CxV { re: rat_add(a.re, b.re), im: rat_add(a.im, b.im) }
}

/// Exact complex difference.
pub open spec fn cx_sub(a: CxV, b: CxV) -> CxV {
    CxV { re: rat_sub(a.re, b.re), im: rat_sub(a.im, b.im) }
}

/// Exact complex product.
pub open spec fn cx_mul(a: CxV, b: CxV) -> CxV {
    CxV {
        re: rat_sub(rat_mul(a.re, b.re), rat_mul(a.im, b.im)),
        im: rat_add(rat_mul(a.re, b.im), rat_mul(a.im, b.re)),
    }
}

/// The squared magnitude of a complex number.
pub open spec fn cx_norm(b: CxV) -> Rat {
    rat_add(rat_mul(b.re, b.re), rat_mul(b.im, b.im))
}

/// Exact complex quotient, by the conjugate of the divisor over its
/// squared magnitude.
pub open spec fn cx_div(a: CxV, b: CxV) -> CxV {
    CxV {
        re: rat_div(rat_add(rat_mul(a.re, b.re), rat_mul(a.im, b.im)), cx_norm(b)),
        im: rat_div(rat_sub(rat_mul(a.im, b.re), rat_mul(a.re, b.im)), cx_norm(b)),
    }
}

/// Whether a complex number is zero.
pub open spec fn cx_is_zero(a: CxV) -> bool {
    rat_is_zero(a.re) && rat_is_zero(a.im)
}

/// Whether the exact complex sum of two values is representable: both
/// component sums fit the machine words.
pub open spec fn cx_add_fits(a: CxV, b: CxV) -> bool {
    rat_fits(rat_add(a.re, b.re)) && rat_fits(rat_add(a.im, b.im))
}

/// Whether the exact complex difference is representable.
pub open spec fn cx_sub_fits(a: CxV, b: CxV) -> bool {
    rat_fits(rat_sub(a.re, b.re)) && rat_fits(rat_sub(a.im, b.im))
}

/// Whether the exact complex product is representable: the four
/// component products and the two combining steps all fit.
pub open spec fn cx_mul_fits(a: CxV, b: CxV) -> bool {
    &&& rat_fits(rat_mul(a.re, b.re))
    &&& rat_fits(rat_mul(a.im, b.im))
    &&& rat_fits(rat_mul(a.re, b.im))
    &&& rat_fits(rat_mul(a.im, b.re))
    &&& rat_fits(cx_mul(a, b).re)
    &&& rat_fits(cx_mul(a, b).im)
}

/// Whether the exact complex quotient is representable: every
/// intermediate of the conjugate method fits.
pub open spec fn cx_div_fits(a: CxV, b: CxV) -> bool {
    &&& rat_fits(rat_mul(b.re, b.re))
    &&& rat_fits(rat_mul(b.im, b.im))
    &&& rat_fits(cx_norm(b))
    &&& rat_fits(rat_mul(a.re, b.re))
    &&& rat_fits(rat_mul(a.im, b.im))
    &&& rat_fits(rat_mul(a.im, b.re))
    &&& rat_fits(rat_mul(a.re, b.im))
    &&& rat_fits(rat_add(rat_mul(a.re, b.re), rat_mul(a.im, b.im)))
    &&& rat_fits(rat_sub(rat_mul(a.im, b.re), rat_mul(a.re, b.im)))
    &&& rat_fits(cx_div(a, b).re)
    &&& rat_fits(cx_div(a, b).im)
}

/// Whether a root request is within the exactness model: both operands
/// real, and the index a positive integer that is odd whenever the
/// radicand is negative.
pub open spec fn root_supported(a: ExactV, e: ExactV) -> bool {
    &&& rat_is_zero(a.im)
    &&& rat_is_zero(e.im)
    &&& exists|k: int|
        (#[trigger] (k * e.re.d)) == e.re.n && k > 0 && !(rat_lt(a.re, rat_of_int(0)) && k % 2
            == 0)
}

/// Exact complex integer power, with a negative exponent going through
/// the reciprocal.
pub open spec fn cx_pow(a: CxV, k: int) -> CxV
    decreases
            (if k >= 0 {
                k
            } else {
                1 - k
            }),
{
    if k == 0 {
        cx_one()
    } else if k > 0 {
        cx_mul(cx_pow(a, k - 1), a)
    } else {
        cx_pow(cx_div(cx_one(), a), -k)
    }
}

/// An exact scalar value: a rational, optionally complex, tagged with
/// an approximation flag and a preferred display base.
///
/// Values are immutable snapshots; every operation returns a new value
/// or a typed failure, and the display base of a two-operand operation
/// is the left operand's.
#[derive(Clone, Copy, Debug)]
pub struct ExactValue {
    real: Rational,
    imag: Rational,
    approx: bool,
    base: Base,
    frac_places: u32,
}

impl View for ExactValue {
    type V = ExactV;

    closed spec fn view(&self) -> ExactV {
        ExactV {
            re: self.real@,
            im: self.imag@,
            approx: self.approx,
            base: self.base@,
            frac_places: self.frac_places as nat,
        }
    }
}

/// Both components of the model lie strictly within `bound`.
pub open spec fn exact_bounded(e: ExactV, bound: int) -> bool {
    rat_bounded(e.re, bound) && rat_bounded(e.im, bound)
}

/// Well-formedness of an exact-scalar model: well-formed components
/// and a radix between 2 and 36.
pub open spec fn exact_value_wf(e: ExactV) -> bool {
    rat_wf(e.re) && rat_wf(e.im) && 2 <= e.base.radix <= 36
}

impl ExactValue {
    /// The representation invariant: well-formed components and base.
    pub open spec fn wf(&self) -> bool {
        exact_value_wf(self@)
    }

    /// The model of the value denoting the integer `i`, in plain
    /// decimal.
    pub open spec fn spec_from_i64(i: int) -> ExactV {
        ExactV {
            re: rat_of_int(i),
            im: rat_of_int(0),
            approx: false,
            base: BaseV { radix: 10, prefixed: false },
            frac_places: 0,
        }
    }

    /// The value denoting the integer `i`, in plain decimal.
    pub fn from_i64(i: i64) -> (r: Self)
        ensures
            r.wf(),
            r@ == (ExactV {
                re: rat_of_int(i as int),
                im: rat_of_int(0),
                approx: false,
                base: BaseV { radix: 10, prefixed: false },
                frac_places: 0,
            }),
    {
        ExactValue {
            real: Rational::from_i64(i),
            imag: Rational::from_i64(0),
            approx: false,
            base: Base::default(),
            frac_places: 0,
        }
    }

    /// The additive identity, tagged with the given preferred base: the
    /// seed of digit accumulation.
    pub fn zero_with_base(base: Base) -> (r: Self)
        requires
            base.wf(),
        ensures
            r.wf(),
            r@ == (ExactV {
                re: rat_of_int(0),
                im: rat_of_int(0),
                approx: false,
                base: base@,
                frac_places: 0,
            }),
    {
        ExactValue {
            real: Rational::from_i64(0),
            imag: Rational::from_i64(0),
            approx: false,
            base,
            frac_places: 0,
        }
    }

    /// A fixed rational approximation of pi, marked approximate.
    pub fn approx_pi() -> (r: Self)
        ensures
            r.wf(),
            r@.approx,
            r@.im == rat_of_int(0),
            r@.re == (Rat { n: 314159265358979, d: 100000000000000 }),
            r@.base == (BaseV { radix: 10, prefixed: false }),
    {
        ExactValue {
            real: Rational::from_ratio(314159265358979, 100000000000000),
            imag: Rational::from_i64(0),
            approx: true,
            base: Base::default(),
            frac_places: 0,
        }
    }

    /// The imaginary unit.
    pub fn i() -> (r: Self)
        ensures
            r.wf(),
            r@.re == rat_of_int(0),
            r@.im == rat_of_int(1),
            !r@.approx,
            r@.base == (BaseV { radix: 10, prefixed: false }),
    {
        ExactValue {
            real: Rational::from_i64(0),
            imag: Rational::from_i64(1),
            approx: false,
            base: Base::default(),
            frac_places: 0,
        }
    }

    /// The exact rational `n / d`, in plain decimal.
    pub fn from_ratio(n: i64, d: i64) -> (r: Self)
        requires
            d > 0,
        ensures
            r.wf(),
            r@ == (ExactV {
                re: Rat { n: n as int, d: d as int },
                im: rat_of_int(0),
                approx: false,
                base: BaseV { radix: 10, prefixed: false },
                frac_places: 0,
            }),
    {
        ExactValue {
            real: Rational::from_ratio(n, d),
            imag: Rational::from_i64(0),
            approx: false,
            base: Base::default(),
            frac_places: 0,
        }
    }

    /// The real component as a rational.
    pub(crate) fn real_rational(&self) -> (r: Rational)
        ensures
            r@ == self@.re,
    {
        self.real
    }

    /// A real exact value over a given rational, in plain decimal.
    pub(crate) fn from_rational(r: Rational) -> (v: Self)
        requires
            r.wf(),
        ensures
            v.wf(),
            v@ == (ExactV {
                re: r@,
                im: rat_of_int(0),
                approx: false,
                base: BaseV { radix: 10, prefixed: false },
                frac_places: 0,
            }),
    {
        ExactValue {
            real: r,
            imag: Rational::from_i64(0),
            approx: false,
            base: Base::default(),
            frac_places: 0,
        }
    }

    /// Marks the value approximate without changing its magnitude;
    /// marking twice is the same as marking once.
    pub fn make_approximate(self) -> (r: Self)
        ensures
            r@ == (ExactV {
                re: self@.re,
                im: self@.im,
                approx: true,
                base: self@.base,
                frac_places: self@.frac_places,
            }),
    {
        ExactValue {
            real: self.real,
            imag: self.imag,
            approx: true,
            base: self.base,
            frac_places: self.frac_places,
        }
    }

    /// Whether the value is zero.
    pub fn is_zero(&self) -> (r: bool)
        ensures
            r == cx_is_zero(cx_of(self@)),
    {
        self.real.is_zero() && self.imag.is_zero()
    }

    /// Whether the value is a real number below zero.
    pub fn is_negative(&self) -> (r: bool)
        requires
            self.wf(),
        ensures
            r == (rat_is_zero(self@.im) && rat_lt(self@.re, rat_of_int(0))),
    {
        self.imag.is_zero() && self.real.is_negative()
    }

    /// Whether the two values denote the same number, compared as exact
    /// rationals, never approximately.
    pub fn eq_value(&self, other: &Self) -> (r: bool)
        requires
            self.wf(),
            other.wf(),
        ensures
            r == (rat_eq(self@.re, other@.re) && rat_eq(self@.im, other@.im)),
    {
        self.real.eq_rat(&other.real) && self.imag.eq_rat(&other.imag)
    }

    /// Whether `self` denotes a strictly smaller real number than
    /// `other`; ordering is only defined between real values.
    pub fn lt(&self, other: &Self) -> (r: bool)
        requires
            self.wf(),
            other.wf(),
            rat_is_zero(self@.im),
            rat_is_zero(other@.im),
        ensures
            r == rat_lt(self@.re, other@.re),
    {
        self.real.lt(&other.real)
    }

    /// Exact sum: componentwise, with the approximation flag of either
    /// operand propagating and the left operand's base kept.
    pub fn add(self, rhs: Self) -> (r: Result<Self, CalcError>)
        requires
            self.wf(),
            rhs.wf(),
        ensures
            match r {
                Ok(v) => v.wf() && v@ == (ExactV {
                    re: rat_add(self@.re, rhs@.re),
                    im: rat_add(self@.im, rhs@.im),
                    approx: self@.approx || rhs@.approx,
                    base: self@.base,
                    frac_places: 0,
                }),
                Err(e) => e == CalcError::NumericLimitExceeded,
            },
            r is Ok <==> cx_add_fits(cx_of(self@), cx_of(rhs@)),
            exact_bounded(self@, safe_bound()) && exact_bounded(rhs@, safe_bound()) ==> r is Ok,
    {
        let re = match self.real.add(&rhs.real) {
            Some(v) => v,
            None => {
                return Err(CalcError::NumericLimitExceeded);
            },
        };
        let im = match self.imag.add(&rhs.imag) {
            Some(v) => v,
            None => {
                return Err(CalcError::NumericLimitExceeded);
            },
        };
        Ok(ExactValue {
            real: re,
            imag: im,
            approx: self.approx || rhs.approx,
            base: self.base,
            frac_places: 0,
        })
    }

    /// Exact difference: componentwise, with the approximation flag of
    /// either operand propagating and the left operand's base kept.
    pub fn sub(self, rhs: Self) -> (r: Result<Self, CalcError>)
        requires
            self.wf(),
            rhs.wf(),
        ensures
            match r {
                Ok(v) => v.wf() && v@ == (ExactV {
                    re: rat_sub(self@.re, rhs@.re),
                    im: rat_sub(self@.im, rhs@.im),
                    approx: self@.approx || rhs@.approx,
                    base: self@.base,
                    frac_places: 0,
                }),
                Err(e) => e == CalcError::NumericLimitExceeded,
            },
            r is Ok <==> cx_sub_fits(cx_of(self@), cx_of(rhs@)),
            exact_bounded(self@, safe_bound()) && exact_bounded(rhs@, safe_bound()) ==> r is Ok,
    {
        let re = match self.real.sub(&rhs.real) {
            Some(v) => v,
            None => {
                return Err(CalcError::NumericLimitExceeded);
            },
        };
        let im = match self.imag.sub(&rhs.imag) {
            Some(v) => v,
            None => {
                return Err(CalcError::NumericLimitExceeded);
            },
        };
        Ok(ExactValue {
            real: re,
            imag: im,
            approx: self.approx || rhs.approx,
            base: self.base,
            frac_places: 0,
        })
    }

    /// Exact negation.
    pub fn neg(self) -> (r: Result<Self, CalcError>)
        requires
            self.wf(),
        ensures
            match r {
                Ok(v) => v.wf() && v@ == (ExactV {
                    re: rat_neg(self@.re),
                    im: rat_neg(self@.im),
                    approx: self@.approx,
                    base: self@.base,
                    frac_places: 0,
                }),
                Err(e) => e == CalcError::NumericLimitExceeded,
            },
            r is Ok <==> (rat_fits(rat_neg(self@.re)) && rat_fits(rat_neg(self@.im))),
            exact_bounded(self@, safe_bound()) ==> r is Ok,
    {
        let re = match self.real.neg() {
            Some(v) => v,
            None => {
                return Err(CalcError::NumericLimitExceeded);
            },
        };
        let im = match self.imag.neg() {
            Some(v) => v,
            None => {
                return Err(CalcError::NumericLimitExceeded);
            },
        };
        Ok(ExactValue {
            real: re,
            imag: im,
            approx: self.approx,
            base: self.base,
            frac_places: 0,
        })
    }

    /// Exact complex product, with the approximation flag of either
    /// operand propagating and the left operand's base kept.
    pub fn mul(self, rhs: Self) -> (r: Result<Self, CalcError>)
        requires
            self.wf(),
            rhs.wf(),
        ensures
            match r {
                Ok(v) => v.wf() && cx_of(v@) == cx_mul(cx_of(self@), cx_of(rhs@)) && v@.approx
                    == (self@.approx || rhs@.approx) && v@.base == self@.base && v@.frac_places
                    == 0,
                Err(e) => e == CalcError::NumericLimitExceeded,
            },
            r is Ok <==> cx_mul_fits(cx_of(self@), cx_of(rhs@)),
            exact_bounded(self@, 0x8000) && exact_bounded(rhs@, 0x8000) ==> r is Ok,
    {
        proof {
            if exact_bounded(self@, 0x8000) && exact_bounded(rhs@, 0x8000) {
                lemma_mul_stays_bounded(self@.re, rhs@.re);
                lemma_mul_stays_bounded(self@.im, rhs@.im);
                lemma_mul_stays_bounded(self@.re, rhs@.im);
                lemma_mul_stays_bounded(self@.im, rhs@.re);
            }
        }
        let p1 = match self.real.mul(&rhs.real) {
            Some(v) => v,
            None => {
                return Err(CalcError::NumericLimitExceeded);
            },
        };
        let p2 = match self.imag.mul(&rhs.imag) {
            Some(v) => v,
            None => {
                return Err(CalcError::NumericLimitExceeded);
            },
        };
        let p3 = match self.real.mul(&rhs.imag) {
            Some(v) => v,
            None => {
                return Err(CalcError::NumericLimitExceeded);
            },
        };
        let p4 = match self.imag.mul(&rhs.real) {
            Some(v) => v,
            None => {
                return Err(CalcError::NumericLimitExceeded);
            },
        };
        let re = match p1.sub(&p2) {
            Some(v) => v,
            None => {
                return Err(CalcError::NumericLimitExceeded);
            },
        };
        let im = match p3.add(&p4) {
            Some(v) => v,
            None => {
                return Err(CalcError::NumericLimitExceeded);
            },
        };
        Ok(ExactValue {
            real: re,
            imag: im,
            approx: self.approx || rhs.approx,
            base: self.base,
            frac_places: 0,
        })
    }

    /// Exact complex quotient.  It fails with the division-by-zero
    /// error exactly when the right operand is the zero value; the
    /// approximation flag of either operand propagates and the left
    /// operand's base is kept.
    ///
    /// The scalar model is a rational number, and rationals are closed
    /// under division: every divisor divides evenly, so the quotient of
    /// two exact operands is itself exact and is never marked
    /// approximate here.  A quotient whose positional expansion does
    /// not terminate — one third in decimal — is instead marked at
    /// rendering time, where the formatter prints an `approx.` marker
    /// rather than claiming exactness, which is what keeps the
    /// format-and-reparse round trip exact on terminating expansions.
    pub fn div(self, rhs: Self) -> (r: Result<Self, CalcError>)
        requires
            self.wf(),
            rhs.wf(),
        ensures
            match r {
                Ok(v) => v.wf() && !cx_is_zero(cx_of(rhs@)) && cx_of(v@) == cx_div(
                    cx_of(self@),
                    cx_of(rhs@),
                ) && v@.approx == (self@.approx || rhs@.approx) && v@.base == self@.base
                    && v@.frac_places == 0,
                Err(CalcError::DivisionByZero) => cx_is_zero(cx_of(rhs@)),
                Err(CalcError::NumericLimitExceeded) => !cx_is_zero(cx_of(rhs@)),
                Err(_) => false,
            },
            (r is Err && r->Err_0 == CalcError::DivisionByZero) <==> cx_is_zero(cx_of(rhs@)),
            r is Ok <==> (!cx_is_zero(cx_of(rhs@)) && cx_div_fits(cx_of(self@), cx_of(rhs@))),
    {
        if rhs.real.is_zero() && rhs.imag.is_zero() {
            return Err(CalcError::DivisionByZero);
        }
        let n1 = match rhs.real.mul(&rhs.real) {
            Some(v) => v,
            None => {
                return Err(CalcError::NumericLimitExceeded);
            },
        };
        let n2 = match rhs.imag.mul(&rhs.imag) {
            Some(v) => v,
            None => {
                return Err(CalcError::NumericLimitExceeded);
            },
        };
        let norm = match n1.add(&n2) {
            Some(v) => v,
            None => {
                return Err(CalcError::NumericLimitExceeded);
            },
        };
        proof {
            lemma_norm_nonzero(rhs@.re, rhs@.im);
        }
        let p1 = match self.real.mul(&rhs.real) {
            Some(v) => v,
            None => {
                return Err(CalcError::NumericLimitExceeded);
            },
        };
        let p2 = match self.imag.mul(&rhs.imag) {
            Some(v) => v,
            None => {
                return Err(CalcError::NumericLimitExceeded);
            },
        };
        let p3 = match self.imag.mul(&rhs.real) {
            Some(v) => v,
            None => {
                return Err(CalcError::NumericLimitExceeded);
            },
        };
        let p4 = match self.real.mul(&rhs.imag) {
            Some(v) => v,
            None => {
                return Err(CalcError::NumericLimitExceeded);
            },
        };
        let re_num = match p1.add(&p2) {
            Some(v) => v,
            None => {
                return Err(CalcError::NumericLimitExceeded);
            },
        };
        let im_num = match p3.sub(&p4) {
            Some(v) => v,
            None => {
                return Err(CalcError::NumericLimitExceeded);
            },
        };
        let re = match re_num.div(&norm) {
            Some(v) => v,
            None => {
                return Err(CalcError::NumericLimitExceeded);
            },
        };
        let im = match im_num.div(&norm) {
            Some(v) => v,
            None => {
                return Err(CalcError::NumericLimitExceeded);
            },
        };
        Ok(ExactValue {
            real: re,
            imag: im,
            approx: self.approx || rhs.approx,
            base: self.base,
            frac_places: 0,
        })
    }

    /// Multiplies the value by the base and adds the digit: one step of
    /// building an integer left to right, most significant digit first.
    /// A digit at or above the radix is rejected.
    pub fn add_digit_in_base(&mut self, digit: u64, base: Base) -> (r: Result<(), CalcError>)
        requires
            old(self).wf(),
            base.wf(),
        ensures
            match r {
                Ok(()) => (*final(self)).wf() && (*final(self))@ == (ExactV {
                    re: rat_add(
                        rat_mul(old(self)@.re, rat_of_int(base@.radix)),
                        rat_of_int(digit as int),
                    ),
                    im: old(self)@.im,
                    approx: old(self)@.approx,
                    base: old(self)@.base,
                    frac_places: old(self)@.frac_places,
                }),
                Err(CalcError::ParseDigit) => digit >= base@.radix && *final(self) == *old(self),
                Err(CalcError::NumericLimitExceeded) => digit < base@.radix && *final(self)
                    == *old(self),
                Err(_) => false,
            },
            digit >= base@.radix ==> r == Err::<(), CalcError>(CalcError::ParseDigit),
            r is Ok <==> (digit < base@.radix && rat_fits(
                rat_mul(old(self)@.re, rat_of_int(base@.radix)),
            ) && rat_fits(
                rat_add(rat_mul(old(self)@.re, rat_of_int(base@.radix)), rat_of_int(digit as int)),
            )),
            digit < base@.radix && rat_bounded(old(self)@.re, 0x10_0000) ==> r is Ok,
    {
        let radix: u8 = base.base_as_u8();
        if digit >= radix as u64 {
            return Err(CalcError::ParseDigit);
        }
        proof {
            if rat_bounded(self@.re, 0x10_0000) {
                lemma_digit_step_bounded(self@.re, base@.radix);
            }
        }
        let scaled = match self.real.mul(&Rational::from_i64(radix as i64)) {
            Some(v) => v,
            None => {
                return Err(CalcError::NumericLimitExceeded);
            },
        };
        let bumped = match scaled.add(&Rational::from_i64(digit as i64)) {
            Some(v) => v,
            None => {
                return Err(CalcError::NumericLimitExceeded);
            },
        };
        self.real = bumped;
        Ok(())
    }

    /// Adds a digit after the decimal point: the value gains
    /// `digit / radix^(places + 1)`, where `places` counts the fraction
    /// digits accumulated so far, and the count advances by one.
    pub fn add_fraction_digit_in_base(&mut self, digit: u64, base: Base) -> (r: Result<
        (),
        CalcError,
    >)
        requires
            old(self).wf(),
            base.wf(),
        ensures
            match r {
                Ok(()) => (*final(self)).wf() && (*final(self))@ == (ExactV {
                    re: rat_add(
                        old(self)@.re,
                        Rat {
                            n: digit as int,
                            d: pow_nat(base@.radix, (old(self)@.frac_places + 1) as nat),
                        },
                    ),
                    im: old(self)@.im,
                    approx: old(self)@.approx,
                    base: old(self)@.base,
                    frac_places: old(self)@.frac_places + 1,
                }),
                Err(CalcError::ParseDigit) => digit >= base@.radix && *final(self) == *old(self),
                Err(CalcError::NumericLimitExceeded) => digit < base@.radix && *final(self)
                    == *old(self),
                Err(_) => false,
            },
            digit >= base@.radix ==> r == Err::<(), CalcError>(CalcError::ParseDigit),
            r is Ok <==> (digit < base@.radix && old(self)@.frac_places + 1 < 0x1_0000_0000
                && pow_nat(base@.radix, (old(self)@.frac_places + 1) as nat)
                <= 0x7fff_ffff_ffff_ffff && rat_fits(
                rat_add(
                    old(self)@.re,
                    Rat {
                        n: digit as int,
                        d: pow_nat(base@.radix, (old(self)@.frac_places + 1) as nat),
                    },
                ),
            )),
    {
        let radix: u8 = base.base_as_u8();
        if digit >= radix as u64 {
            return Err(CalcError::ParseDigit);
        }
        if self.frac_places == 0xffff_ffffu32 {
            return Err(CalcError::NumericLimitExceeded);
        }
        let places: u64 = self.frac_places as u64;
        let denom: u64 = match crate::rational::pow_u64_checked(radix as u64, places + 1) {
            Some(p) => p,
            None => {
                return Err(CalcError::NumericLimitExceeded);
            },
        };
        if denom > 0x7fff_ffff_ffff_ffffu64 {
            return Err(CalcError::NumericLimitExceeded);
        }
        proof {
            crate::rational::lemma_pow_nat_pos(base@.radix, (places + 1) as nat);
        }
        let term = Rational::from_ratio(digit as i64, denom as i64);
        let bumped = match self.real.add(&term) {
            Some(v) => v,
            None => {
                return Err(CalcError::NumericLimitExceeded);
            },
        };
        self.real = bumped;
        self.frac_places = self.frac_places + 1;
        Ok(())
    }
}

impl ExactValue {
    /// Exact integer power.  The exponent must denote an integer (it may
    /// be negative, going through the reciprocal); any other exponent is
    /// outside the exactness model and rejected.  The loop that expands
    /// the exponent polls the cancellation object once per step.
    pub fn pow<I: Interrupt>(self, rhs: Self, intr: &I) -> (r: Result<Self, IntErr>)
        requires
            self.wf(),
            rhs.wf(),
        ensures
            match r {
                Ok(v) => v.wf() && v@.approx == (self@.approx || rhs@.approx) && v@.base
                    == self@.base && v@.frac_places == 0 && forall|k: int|
                    (#[trigger] (k * rhs@.re.d)) == rhs@.re.n ==> cx_of(v@) == cx_pow(
                        cx_of(self@),
                        k,
                    ),
                Err(IntErr::Error(CalcError::UnsupportedOperation)) => !(rat_is_zero(rhs@.im)
                    && exists|k: int| (#[trigger] (k * rhs@.re.d)) == rhs@.re.n),
                Err(IntErr::Error(CalcError::DivisionByZero)) => cx_is_zero(cx_of(self@))
                    && rat_lt(rhs@.re, rat_of_int(0)),
                Err(IntErr::Error(CalcError::NumericLimitExceeded)) => true,
                Err(IntErr::Interrupted) => intr.requested(),
                Err(_) => false,
            },
            (r is Err && r->Err_0 == IntErr::Error(CalcError::UnsupportedOperation)) <==> !(
            rat_is_zero(rhs@.im) && exists|k: int| (#[trigger] (k * rhs@.re.d)) == rhs@.re.n),
            (!intr.requested() && self@.im == rat_of_int(0) && rat_bounded(self@.re, 0x400)
                && rat_is_zero(rhs@.im) && (rhs@.re.n == 0 || rhs@.re.n == rhs@.re.d)) ==> r
                is Ok,
            (intr.requested() && rat_is_zero(rhs@.im) && exists|k2: int|
                (#[trigger] (k2 * rhs@.re.d)) == rhs@.re.n && k2 > 0) ==> r == Err::<
                Self,
                IntErr,
            >(IntErr::Interrupted),
    {
        let ghost suff = !intr.requested() && self@.im == rat_of_int(0) && rat_bounded(
            self@.re,
            0x400,
        ) && rat_is_zero(rhs@.im) && (rhs@.re.n == 0 || rhs@.re.n == rhs@.re.d);
        let ghost want_intr = intr.requested() && rat_is_zero(rhs@.im) && exists|k2: int|
            (#[trigger] (k2 * rhs@.re.d)) == rhs@.re.n && k2 > 0;
        if !rhs.imag.is_zero() {
            return Err(IntErr::Error(CalcError::UnsupportedOperation));
        }
        let k: i64 = match rhs.real.as_integer() {
            Some(k) => k,
            None => {
                proof {
                    assert(0 * rhs@.re.d == 0) by (nonlinear_arith);
                    assert(1 * rhs@.re.d == rhs@.re.d) by (nonlinear_arith);
                }
                return Err(IntErr::Error(CalcError::UnsupportedOperation));
            },
        };
        proof {
            assert((k as int) * rhs@.re.d == rhs@.re.n);
            assert forall|k2: int| (#[trigger] (k2 * rhs@.re.d)) == rhs@.re.n implies k2
                == k as int by {
                assert(k2 == k as int) by (nonlinear_arith)
                    requires
                        k2 * rhs@.re.d == rhs@.re.n,
                        (k as int) * rhs@.re.d == rhs@.re.n,
                        rhs@.re.d > 0,
                ;
            }
            if suff {
                assert(0 <= k <= 1) by (nonlinear_arith)
                    requires
                        (k as int) * rhs@.re.d == rhs@.re.n,
                        rhs@.re.d > 0,
                        rhs@.re.n == 0 || rhs@.re.n == rhs@.re.d,
                ;
            }
            if want_intr {
                let k2 = choose|k2: int| (#[trigger] (k2 * rhs@.re.d)) == rhs@.re.n && k2 > 0;
                assert(k2 == k as int);
                assert(k as int > 0);
            }
        }
        let base_val: Self;
        let steps: u64;
        if k < 0 {
            if self.real.is_zero() && self.imag.is_zero() {
                proof {
                    assert(rat_lt(rhs@.re, rat_of_int(0))) by (nonlinear_arith)
                        requires
                            (k as int) * rhs@.re.d == rhs@.re.n,
                            k < 0,
                            rhs@.re.d > 0,
                    ;
                }
                return Err(IntErr::Error(CalcError::DivisionByZero));
            }
            let one = ExactValue {
                real: Rational::from_i64(1),
                imag: Rational::from_i64(0),
                approx: self.approx || rhs.approx,
                base: self.base,
                frac_places: 0,
            };
            base_val = match one.div(self) {
                Ok(v) => v,
                Err(_) => {
                    return Err(IntErr::Error(CalcError::NumericLimitExceeded));
                },
            };
            steps = (-(k as i128)) as u64;
        } else {
            base_val = self;
            steps = k as u64;
        }
        let mut acc = ExactValue {
            real: Rational::from_i64(1),
            imag: Rational::from_i64(0),
            approx: self.approx || rhs.approx,
            base: self.base,
            frac_places: 0,
        };
        let ghost base_cx: CxV = if k < 0 {
            cx_div(cx_one(), cx_of(self@))
        } else {
            cx_of(self@)
        };
        let mut i: u64 = 0;
        while i < steps
            invariant
                i <= steps,
                acc.wf(),
                base_val.wf(),
                cx_of(acc@) == cx_pow(base_cx, i as int),
                cx_of(base_val@) == base_cx,
                acc@.approx == (self@.approx || rhs@.approx),
                base_val@.approx ==> self@.approx || rhs@.approx,
                acc@.base == self@.base,
                base_val@.base == self@.base,
                acc@.frac_places == 0,
                rat_is_zero(rhs@.im),
                (k as int) * rhs@.re.d == rhs@.re.n,
                suff == (!intr.requested() && self@.im == rat_of_int(0) && rat_bounded(
                    self@.re,
                    0x400,
                ) && rat_is_zero(rhs@.im) && (rhs@.re.n == 0 || rhs@.re.n == rhs@.re.d)),
                want_intr == (intr.requested() && rat_is_zero(rhs@.im) && exists|k2: int|
                    (#[trigger] (k2 * rhs@.re.d)) == rhs@.re.n && k2 > 0),
                suff ==> steps <= 1 && base_val@.im == rat_of_int(0) && rat_bounded(
                    base_val@.re,
                    0x400,
                ),
                suff && i == 0 ==> acc@.re == rat_of_int(1) && acc@.im == rat_of_int(0),
                want_intr ==> i == 0 && steps >= 1,
            decreases steps - i,
        {
            if intr.test() {
                return Err(IntErr::Interrupted);
            }
            proof {
                if suff {
                    lemma_one_step_power_fits(acc@, base_val@);
                }
            }
            acc = match acc.mul(base_val) {
                Ok(v) => v,
                Err(_) => {
                    return Err(IntErr::Error(CalcError::NumericLimitExceeded));
                },
            };
            i = i + 1;
        }
        proof {
            assert(cx_of(acc@) == cx_pow(base_cx, steps as int));
            if k >= 0 {
                assert(steps as int == k as int);
                assert(cx_pow(base_cx, steps as int) == cx_pow(cx_of(self@), k as int));
            } else {
                assert(steps as int == -(k as int));
                assert(cx_pow(cx_of(self@), k as int) == cx_pow(
                    cx_div(cx_one(), cx_of(self@)),
                    -(k as int),
                ));
            }
            assert(cx_of(acc@) == cx_pow(cx_of(self@), k as int));
            assert forall|k2: int| (#[trigger] (k2 * rhs@.re.d)) == rhs@.re.n implies cx_of(acc@)
                == cx_pow(cx_of(self@), k2) by {
                assert(k2 == k as int) by (nonlinear_arith)
                    requires
                        k2 * rhs@.re.d == rhs@.re.n,
                        (k as int) * rhs@.re.d == rhs@.re.n,
                        rhs@.re.d > 0,
                ;
            }
        }
        Ok(acc)
    }

    /// The `n`-th root, for a positive integer `n`.  Roots are only
    /// defined here for real operands; a negative radicand is admitted
    /// for odd `n` only.  A perfect root of an exact operand stays
    /// exact — the contract says that a result not marked approximate
    /// raised back to the `n`-th power is the radicand — and any other
    /// root is a bounded approximation marked approximate.
    pub fn root_n(self, rhs: &Self) -> (r: Result<Self, CalcError>)
        requires
            self.wf(),
            rhs.wf(),
        ensures
            match r {
                Ok(v) => v.wf() && v@.base == self@.base && v@.frac_places == 0 && rat_is_zero(
                    v@.im,
                ) && (self@.approx ==> v@.approx) && (!v@.approx ==> forall|k: int|
                    ((#[trigger] (k * rhs@.re.d)) == rhs@.re.n && k > 0) ==> rat_pow(
                        v@.re,
                        k as nat,
                    ) == self@.re) && (forall|k: int|
                    ((#[trigger] (k * rhs@.re.d)) == rhs@.re.n && k > 0 && is_perfect_power(
                        if self@.re.n < 0 {
                            -self@.re.n
                        } else {
                            self@.re.n
                        },
                        k as nat,
                    ) && is_perfect_power(self@.re.d, k as nat) && !self@.approx)
                        ==> !v@.approx),
                Err(CalcError::UnsupportedOperation) => true,
                Err(_) => false,
            },
            r is Ok <==> root_supported(self@, rhs@),
    {
        if !self.imag.is_zero() || !rhs.imag.is_zero() {
            return Err(CalcError::UnsupportedOperation);
        }
        let k: i64 = match rhs.real.as_integer() {
            Some(k) => k,
            None => {
                return Err(CalcError::UnsupportedOperation);
            },
        };
        if k <= 0 {
            proof {
                assert forall|k2: int| !((#[trigger] (k2 * rhs@.re.d)) == rhs@.re.n && k2
                    > 0) by {
                    if k2 * rhs@.re.d == rhs@.re.n && k2 > 0 {
                        assert(k2 == k as int) by (nonlinear_arith)
                            requires
                                k2 * rhs@.re.d == rhs@.re.n,
                                (k as int) * rhs@.re.d == rhs@.re.n,
                                rhs@.re.d > 0,
                        ;
                    }
                }
            }
            return Err(CalcError::UnsupportedOperation);
        }
        let n: u64 = k as u64;
        if self.real.is_negative() && n % 2 == 0 {
            proof {
                assert forall|k2: int| !((#[trigger] (k2 * rhs@.re.d)) == rhs@.re.n && k2 > 0
                    && !(rat_lt(self@.re, rat_of_int(0)) && k2 % 2 == 0)) by {
                    if k2 * rhs@.re.d == rhs@.re.n && k2 > 0 {
                        assert(k2 == k as int) by (nonlinear_arith)
                            requires
                                k2 * rhs@.re.d == rhs@.re.n,
                                (k as int) * rhs@.re.d == rhs@.re.n,
                                rhs@.re.d > 0,
                        ;
                    }
                }
            }
            return Err(CalcError::UnsupportedOperation);
        }
        proof {
            assert(rat_lt(self@.re, rat_of_int(0)) == (self@.re.n < 0)) by (nonlinear_arith)
                requires
                    self@.re.d > 0,
            ;
        }
        let (root, exact) = self.real.nth_root(n);
        let v = ExactValue {
            real: root,
            imag: Rational::from_i64(0),
            approx: self.approx || !exact,
            base: self.base,
            frac_places: 0,
        };
        proof {
            if !v@.approx {
                assert forall|k2: int| ((#[trigger] (k2 * rhs@.re.d)) == rhs@.re.n && k2
                    > 0) implies rat_pow(v@.re, k2 as nat) == self@.re by {
                    assert(k2 == k as int) by (nonlinear_arith)
                        requires
                            k2 * rhs@.re.d == rhs@.re.n,
                            (k as int) * rhs@.re.d == rhs@.re.n,
                            rhs@.re.d > 0,
                    ;
                }
            }
            assert forall|k2: int| ((#[trigger] (k2 * rhs@.re.d)) == rhs@.re.n && k2 > 0
                && is_perfect_power(
                if self@.re.n < 0 {
                    -self@.re.n
                } else {
                    self@.re.n
                },
                k2 as nat,
            ) && is_perfect_power(self@.re.d, k2 as nat) && !self@.approx) implies !v@.approx by {
                assert(k2 == k as int) by (nonlinear_arith)
                    requires
                        k2 * rhs@.re.d == rhs@.re.n,
                        (k as int) * rhs@.re.d == rhs@.re.n,
                        rhs@.re.d > 0,
                ;
            }
        }
        Ok(v)
    }
}

/// Relies on std's `String::push`: it appends the given character to
/// the end of the string.
pub assume_specification[ String::push ](s: &mut String, c: char)
    ensures
        final (s)@ == old(s)@.push(c),
;

/// The character of one digit: `0` to `9`, then `a` to `z`.
pub open spec fn digit_char(d: int) -> char {
    if d < 10 {
        ((48 + d) as u8) as char
    } else {
        ((87 + d) as u8) as char
    }
}

/// The characters of a digit sequence.
pub open spec fn digit_chars(ds: Seq<u64>) -> Seq<char> {
    ds.map_values(|d: u64| digit_char(d as int))
}

/// The rendering of a real number from its sign and digits, preceded by
/// an `approx.` marker when the rendering does not claim exactness.
pub open spec fn assemble_real(sign: bool, ints: Seq<u64>, fracs: Seq<u64>, marked: bool) -> Seq<
    char,
> {
    (if marked {
        seq!['a', 'p', 'p', 'r', 'o', 'x', '.', ' ']
    } else {
        Seq::<char>::empty()
    }) + (if sign {
        seq!['-']
    } else {
        Seq::<char>::empty()
    }) + digit_chars(ints) + (if fracs.len() > 0 {
        seq!['.'] + digit_chars(fracs)
    } else {
        Seq::<char>::empty()
    })
}

/// The number of fraction digits a rendering may carry before it is cut
/// off as an approximation.
pub const MAX_FRACTION_DIGITS: usize = 10;

/// The character of one digit value.
fn digit_to_char(d: u64) -> (c: char)
    requires
        d < 36,
    ensures
        c == digit_char(d as int),
{
    if d < 10 {
        (48 + d as u8) as char
    } else {
        (87 + d as u8) as char
    }
}

/// Appends the characters of a digit sequence to the string.
fn push_digits(out: &mut String, ds: &Vec<u64>)
    requires
        all_digits_below(ds@, 36),
    ensures
        final (out)@ == old(out)@ + digit_chars(ds@),
{
    let ghost start = out@;
    let mut i: usize = 0;
    while i < ds.len()
        invariant
            i <= ds@.len(),
            all_digits_below(ds@, 36),
            out@ == start + digit_chars(ds@.subrange(0, i as int)),
        decreases ds@.len() - i,
    {
        let d: u64 = ds[i];
        out.push(digit_to_char(d));
        i = i + 1;
        proof {
            assert(digit_chars(ds@.subrange(0, i as int)) =~= digit_chars(
                ds@.subrange(0, i - 1),
            ).push(digit_char(ds@[i - 1] as int)));
            assert(out@ =~= start + digit_chars(ds@.subrange(0, i as int)));
        }
    }
    proof {
        assert(ds@.subrange(0, ds@.len() as int) =~= ds@);
    }
}

/// Appends the `approx.` marker.
fn push_approx_marker(out: &mut String)
    ensures
        final (out)@ == old(out)@ + seq!['a', 'p', 'p', 'r', 'o', 'x', '.', ' '],
{
    out.push('a');
    out.push('p');
    out.push('p');
    out.push('r');
    out.push('o');
    out.push('x');
    out.push('.');
    out.push(' ');
    proof {
        assert(out@ =~= old(out)@ + seq!['a', 'p', 'p', 'r', 'o', 'x', '.', ' ']);
    }
}

impl ExactValue {
    /// Renders the sign and digits of a real rational into `out`.
    fn push_real(out: &mut String, digits: &crate::rational::BaseDigits)
        requires
            all_digits_below(digits.int_digits@, 36),
            all_digits_below(digits.frac_digits@, 36),
        ensures
            final (out)@ == old(out)@ + (if digits.sign {
                seq!['-']
            } else {
                Seq::<char>::empty()
            }) + digit_chars(digits.int_digits@) + (if digits.frac_digits@.len() > 0 {
                seq!['.'] + digit_chars(digits.frac_digits@)
            } else {
                Seq::<char>::empty()
            }),
    {
        if digits.sign {
            out.push('-');
        }
        push_digits(out, &digits.int_digits);
        if digits.frac_digits.len() > 0 {
            out.push('.');
            push_digits(out, &digits.frac_digits);
        }
        proof {
            assert(final (out)@ =~= old(out)@ + (if digits.sign {
                seq!['-']
            } else {
                Seq::<char>::empty()
            }) + digit_chars(digits.int_digits@) + (if digits.frac_digits@.len() > 0 {
                seq!['.'] + digit_chars(digits.frac_digits@)
            } else {
                Seq::<char>::empty()
            }));
        }
    }

    /// Renders the value as text in its preferred base, with at most
    /// [`MAX_FRACTION_DIGITS`] fraction digits per component.  A real
    /// value whose expansion terminates within that bound and that is
    /// not marked approximate is rendered exactly; any other rendering
    /// opens with an `approx.` marker instead of claiming exactness.
    pub fn format(&self) -> (r: String)
        requires
            self.wf(),
        ensures
            rat_is_zero(self@.im) ==> exists|sign: bool, ints: Seq<u64>, fracs: Seq<u64>, exact:
                bool|
                {
                    &&& #[trigger] base_digits_spec(
                        self@.re,
                        self@.base.radix,
                        MAX_FRACTION_DIGITS as int,
                        sign,
                        ints,
                        fracs,
                        exact,
                    )
                    &&& r@ == assemble_real(sign, ints, fracs, self@.approx || !exact)
                },
    {
        let radix: u64 = self.base.base_as_u8() as u64;
        let mut out = String::new();
        if self.imag.is_zero() {
            let digits = self.real.to_base_digits(radix, MAX_FRACTION_DIGITS);
            if self.approx || !digits.exact {
                push_approx_marker(&mut out);
            }
            Self::push_real(&mut out, &digits);
            proof {
                assert(out@ =~= assemble_real(
                    digits.sign,
                    digits.int_digits@,
                    digits.frac_digits@,
                    self@.approx || !digits.exact,
                ));
            }
            out
        } else {
            // A complex value: the imaginary component follows the real
            // one, or stands alone when the real component is zero.
            let im_digits = self.imag.to_base_digits(radix, MAX_FRACTION_DIGITS);
            let re_digits = self.real.to_base_digits(radix, MAX_FRACTION_DIGITS);
            if self.approx || !im_digits.exact || (!self.real.is_zero() && !re_digits.exact) {
                push_approx_marker(&mut out);
            }
            let one = Rational::from_i64(1);
            let neg_one = Rational::from_i64(-1);
            if self.real.is_zero() {
                if self.imag.eq_rat(&one) {
                    out.push('i');
                } else if self.imag.eq_rat(&neg_one) {
                    out.push('-');
                    out.push('i');
                } else {
                    Self::push_real(&mut out, &im_digits);
                    out.push('i');
                }
            } else {
                Self::push_real(&mut out, &re_digits);
                out.push(' ');
                if im_digits.sign {
                    out.push('-');
                } else {
                    out.push('+');
                }
                out.push(' ');
                if self.imag.eq_rat(&one) || self.imag.eq_rat(&neg_one) {
                    out.push('i');
                } else {
                    let mut tail = String::new();
                    push_digits(&mut tail, &im_digits.int_digits);
                    if im_digits.frac_digits.len() > 0 {
                        tail.push('.');
                        push_digits(&mut tail, &im_digits.frac_digits);
                    }
                    tail.push('i');
                    out.append(tail.as_str());
                }
            }
            out
        }
    }
}

/// Products of values within `0x8000` stay within [`safe_bound`], so
/// the following sum or difference cannot fail.
proof fn lemma_mul_stays_bounded(a: Rat, b: Rat)
    requires
        rat_bounded(a, 0x8000),
        rat_bounded(b, 0x8000),
    ensures
        rat_bounded(rat_mul(a, b), safe_bound()),
{
    assert(-0x4000_0000 < a.n * b.n < 0x4000_0000 && 0 < a.d * b.d < 0x4000_0000)
        by (nonlinear_arith)
        requires
            -0x8000 < a.n < 0x8000,
            0 < a.d < 0x8000,
            -0x8000 < b.n < 0x8000,
            0 < b.d < 0x8000,
    ;
}

/// A digit-accumulation step on a value within `0x10_0000` stays within
/// [`safe_bound`] at every intermediate point.
proof fn lemma_digit_step_bounded(a: Rat, radix: int)
    requires
        rat_bounded(a, 0x10_0000),
        2 <= radix <= 36,
    ensures
        rat_bounded(rat_mul(a, rat_of_int(radix)), safe_bound()),
{
    assert(-0x4000_0000 < a.n * radix < 0x4000_0000 && 0 < a.d * 1 < 0x4000_0000)
        by (nonlinear_arith)
        requires
            -0x10_0000 < a.n < 0x10_0000,
            0 < a.d < 0x10_0000,
            2 <= radix <= 36,
    ;
}

/// The squared magnitude of a nonzero complex number is nonzero.
proof fn lemma_norm_nonzero(re: Rat, im: Rat)
    requires
        rat_wf(re),
        rat_wf(im),
        !(rat_is_zero(re) && rat_is_zero(im)),
    ensures
        !rat_is_zero(cx_norm(CxV { re, im })),
{
    let norm = cx_norm(CxV { re, im });
    assert(norm.n == (re.n * re.n) * (im.d * im.d) + (im.n * im.n) * (re.d * re.d));
    assert((re.n * re.n) * (im.d * im.d) + (im.n * im.n) * (re.d * re.d) != 0)
        by (nonlinear_arith)
        requires
            re.d > 0,
            im.d > 0,
            re.n != 0 || im.n != 0,
    ;
}

/// Multiplying the complex one by a real value within a small bound
/// always fits the machine words.
proof fn lemma_one_step_power_fits(a: ExactV, b: ExactV)
    requires
        a.re == rat_of_int(1),
        a.im == rat_of_int(0),
        b.im == rat_of_int(0),
        rat_bounded(b.re, 0x400),
    ensures
        cx_mul_fits(cx_of(a), cx_of(b)),
{
    let ar = a.re;
    let ai = a.im;
    let br = b.re;
    let bi = b.im;
    assert(ar.n * br.n == br.n && ar.d * br.d == br.d && ai.n * bi.n == 0 && ai.d * bi.d == 1
        && ar.n * bi.n == 0 && ar.d * bi.d == 1 && ai.n * br.n == 0 && ai.d * br.d == br.d && (
    ar.n * br.n) * (ai.d * bi.d) - (ai.n * bi.n) * (ar.d * br.d) == br.n && (ar.d * br.d) * (ai.d
        * bi.d) == br.d && (ar.n * bi.n) * (ai.d * br.d) + (ai.n * br.n) * (ar.d * bi.d) == 0 && (
    ar.d * bi.d) * (ai.d * br.d) == br.d) by (nonlinear_arith)
        requires
            ar.n == 1,
            ar.d == 1,
            ai.n == 0,
            ai.d == 1,
            bi.n == 0,
            bi.d == 1,
            -0x400 < br.n < 0x400,
            0 < br.d < 0x400,
    ;
}

} // verus!
