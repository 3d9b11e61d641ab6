//! Exact rational scalars.
//!
//! A [`Rational`] is a numerator over a positive denominator, held in
//! machine words; every operation either returns the mathematically
//! exact rational or reports that the result no longer fits the internal
//! numeric limits.  The mathematical model is [`Rat`], a pair of
//! unbounded integers, and two models denote the same number exactly
//! when their cross products agree ([`rat_eq`]).

use vstd::prelude::*;

verus! {

use vstd::arithmetic::div_mod::lemma_fundamental_div_mod;
use vstd::arithmetic::div_mod::lemma_multiply_divide_lt;

/// Mathematical model of a rational number: `n / d` with `d > 0`.
pub ghost struct Rat {
    pub n: int,
    pub d: int,
}

/// Well-formedness of a model rational: the denominator is positive.
pub open spec fn rat_wf(r: Rat) -> bool {
    r.d > 0
}

/// The model rational denoting the integer `i`.
pub open spec fn rat_of_int(i: int) -> Rat {
    Rat { n: i, d: 1 }
}

/// Two model rationals denote the same number: cross products agree.
pub open spec fn rat_eq(a: Rat, b: Rat) -> bool {
    a.n * b.d == b.n * a.d
}

/// Exact sum of two model rationals.
pub open spec fn rat_add(a: Rat, b: Rat) -> Rat {
    Rat { n: a.n * b.d + b.n * a.d, d: a.d * b.d }
}

/// Exact difference of two model rationals.
pub open spec fn rat_sub(a: Rat, b: Rat) -> Rat {
    Rat { n: a.n * b.d - b.n * a.d, d: a.d * b.d }
}

/// Exact product of two model rationals.
pub open spec fn rat_mul(a: Rat, b: Rat) -> Rat {
    Rat { n: a.n * b.n, d: a.d * b.d }
}

/// Exact negation of a model rational.
pub open spec fn rat_neg(a: Rat) -> Rat {
    Rat { n: -a.n, d: a.d }
}

/// Exact quotient of two model rationals, with the sign moved into the
/// numerator so that a well-formed result keeps a positive denominator.
pub open spec fn rat_div(a: Rat, b: Rat) -> Rat {
    if b.n >= 0 {
        Rat { n: a.n * b.d, d: a.d * b.n }
    } else {
        Rat { n: -(a.n * b.d), d: -(a.d * b.n) }
    }
}

/// Exact order on well-formed model rationals.
pub open spec fn rat_lt(a: Rat, b: Rat) -> bool {
    a.n * b.d < b.n * a.d
}

/// Whether a model rational denotes zero.
pub open spec fn rat_is_zero(a: Rat) -> bool {
    a.n == 0
}

/// Both components of the model lie strictly within `bound`.
pub open spec fn rat_bounded(a: Rat, bound: int) -> bool {
    -bound < a.n < bound && 0 < a.d < bound
}

/// The bound within which one exact operation on two operands is always
/// representable again.
pub open spec fn safe_bound() -> int {
    0x4000_0000
}

/// Whether a model rational is representable in the machine words the
/// executable type holds: every operation succeeds exactly when its
/// exact result fits.
pub open spec fn rat_fits(r: Rat) -> bool {
    &&& -0x8000_0000_0000_0000 <= r.n <= 0x7fff_ffff_ffff_ffff
    &&& r.d <= 0x7fff_ffff_ffff_ffff
}

/// An exact rational scalar: numerator over positive denominator.
///
/// Values are immutable; operations return new values.  An operation
/// whose exact result no longer fits the machine representation returns
/// `None`, which callers surface as a numeric-limit error.
#[derive(Clone, Copy, Debug)]
pub struct Rational {
    num: i64,
    den: i64,
}

impl View for Rational {
    type V = Rat;

    closed spec fn view(&self) -> Rat {
        Rat { n: self.num as int, d: self.den as int }
    }
}

impl Rational {
    /// The representation invariant: the denominator is positive.
    pub open spec fn wf(&self) -> bool {
        rat_wf(self@)
    }

    /// The rational denoting the integer `i`.
    pub fn from_i64(i: i64) -> (r: Self)
        ensures
            r.wf(),
            r@ == rat_of_int(i as int),
    {
        Rational { num: i, den: 1 }
    }

    /// The rational `n / d` for a positive denominator `d`.
    pub fn from_ratio(n: i64, d: i64) -> (r: Self)
        requires
            d > 0,
        ensures
            r.wf(),
            r@ == (Rat { n: n as int, d: d as int }),
    {
        Rational { num: n, den: d }
    }

    /// The integer the rational denotes, if it denotes one.
    pub fn as_integer(&self) -> (r: Option<i64>)
        requires
            self.wf(),
        ensures
            match r {
                Some(q) => (q as int) * self@.d == self@.n,
                None => forall|k: int| (#[trigger] (k * self@.d)) != self@.n,
            },
    {
        let mag: u64 = if self.num < 0 {
            (-(self.num as i128)) as u64
        } else {
            self.num as u64
        };
        let den: u64 = self.den as u64;
        let q0: u64 = mag / den;
        let m: u64 = mag % den;
        proof {
            lemma_fundamental_div_mod(mag as int, den as int);
        }
        if m != 0 {
            proof {
                assert forall|k: int| (#[trigger] (k * self@.d)) != self@.n by {
                    if k * self@.d == self@.n {
                        let d = self@.d;
                        if self@.n >= 0 {
                            assert(mag == k * d);
                            assert(mag == d * q0 + m);
                            assert(k == q0 && m == 0) by (nonlinear_arith)
                                requires
                                    k * d == d * q0 + m,
                                    0 <= m < d,
                                    d > 0,
                            ;
                        } else {
                            assert(mag == (-k) * d) by (nonlinear_arith)
                                requires
                                    k * d == self@.n,
                                    mag == -self@.n,
                            ;
                            assert(mag == d * q0 + m);
                            assert(-k == q0 && m == 0) by (nonlinear_arith)
                                requires
                                    (-k) * d == d * q0 + m,
                                    0 <= m < d,
                                    d > 0,
                            ;
                        }
                    }
                }
            }
            None
        } else if self.num < 0 {
            let q: i64 = (-(q0 as i128)) as i64;
            proof {
                assert((q as int) * self@.d == self@.n) by (nonlinear_arith)
                    requires
                        mag == self@.d * q0,
                        q as int == -(q0 as int),
                        self@.n == -mag,
                ;
            }
            Some(q)
        } else {
            let q: i64 = q0 as i64;
            proof {
                assert((q as int) * self@.d == self@.n) by (nonlinear_arith)
                    requires
                        mag == self@.d * q0,
                        q as int == q0 as int,
                        self@.n == mag,
                ;
            }
            Some(q)
        }
    }

    /// Exact integer power; a negative exponent goes through the
    /// reciprocal, which asks for a nonzero base.
    pub fn pow_int(&self, k: i64) -> (r: Option<Self>)
        requires
            self.wf(),
            k < 0 ==> self@.n != 0,
        ensures
            match r {
                Some(v) => v.wf() && v@ == rat_pow_int(self@, k as int),
                None => true,
            },
            rat_bounded(self@, 0x400) && -2 <= k <= 2 ==> (r is Some && rat_bounded(
                rat_pow_int(self@, k as int),
                0x20_0000,
            )),
    {
        let ghost modest = rat_bounded(self@, 0x400) && -2 <= k <= 2;
        let neg: bool = k < 0;
        let m: u64 = if k < 0 {
            (-(k as i128)) as u64
        } else {
            k as u64
        };
        let mut acc = Rational::from_i64(1);
        let mut i: u64 = 0;
        while i < m
            invariant
                i <= m,
                self.wf(),
                acc.wf(),
                acc@ == rat_pow(self@, i as nat),
                modest == (rat_bounded(self@, 0x400) && -2 <= k <= 2),
                modest ==> m <= 2,
                modest ==> rat_bounded(acc@, 2 * pow_nat(0x400, i as nat)),
            decreases m - i,
        {
            proof {
                if modest {
                    assert(pow_nat(0x400, 0) == 1 && pow_nat(0x400, 1) == 0x400 * pow_nat(
                        0x400,
                        0,
                    ) && pow_nat(0x400, 2) == 0x400 * pow_nat(0x400, 1));
                    assert(rat_fits(rat_mul(acc@, self@)) && rat_bounded(
                        rat_mul(acc@, self@),
                        2 * pow_nat(0x400, (i + 1) as nat),
                    )) by (nonlinear_arith)
                        requires
                            rat_bounded(acc@, 2 * pow_nat(0x400, i as nat)),
                            rat_bounded(self@, 0x400),
                            2 * pow_nat(0x400, i as nat) <= 2 * 0x100000,
                            pow_nat(0x400, (i + 1) as nat) == 0x400 * pow_nat(0x400, i as nat),
                    ;
                }
            }
            acc = match acc.mul(self) {
                Some(v) => v,
                None => {
                    return None;
                },
            };
            i = i + 1;
            proof {
                assert(pow_nat(self@.n, i as nat) == self@.n * pow_nat(self@.n, (i - 1) as nat));
                assert(pow_nat(self@.d, i as nat) == self@.d * pow_nat(self@.d, (i - 1) as nat));
                assert(pow_nat(self@.n, (i - 1) as nat) * self@.n == self@.n * pow_nat(
                    self@.n,
                    (i - 1) as nat,
                )) by (nonlinear_arith);
                assert(pow_nat(self@.d, (i - 1) as nat) * self@.d == self@.d * pow_nat(
                    self@.d,
                    (i - 1) as nat,
                )) by (nonlinear_arith);
            }
        }
        if neg {
            proof {
                lemma_pow_nat_nonzero(self@.n, m as nat);
                if modest {
                    assert(pow_nat(0x400, 0) == 1 && pow_nat(0x400, 1) == 0x400 * pow_nat(
                        0x400,
                        0,
                    ) && pow_nat(0x400, 2) == 0x400 * pow_nat(0x400, 1));
                    assert(rat_bounded(acc@, 0x20_0000));
                    assert(rat_fits(rat_div(rat_of_int(1), acc@)) && rat_bounded(
                        rat_div(rat_of_int(1), acc@),
                        0x20_0000,
                    )) by (nonlinear_arith)
                        requires
                            rat_bounded(acc@, 0x20_0000),
                            acc@.n != 0,
                    ;
                }
            }
            Rational::from_i64(1).div(&acc)
        } else {
            proof {
                if modest {
                    assert(pow_nat(0x400, 0) == 1 && pow_nat(0x400, 1) == 0x400 * pow_nat(
                        0x400,
                        0,
                    ) && pow_nat(0x400, 2) == 0x400 * pow_nat(0x400, 1));
                }
            }
            Some(acc)
        }
    }

    /// Packs an exact result computed in wide words, reporting `None`
    /// exactly when it does not fit the machine representation.
    fn fit(n: i128, d: i128) -> (r: Option<Self>)
        requires
            d > 0,
        ensures
            match r {
                Some(v) => v.wf() && v@ == (Rat { n: n as int, d: d as int }),
                None => !(-0x8000_0000_0000_0000 <= n <= 0x7fff_ffff_ffff_ffff
                    && d <= 0x7fff_ffff_ffff_ffff),
            },
    {
        if n >= -0x8000_0000_0000_0000i128 && n <= 0x7fff_ffff_ffff_ffffi128
            && d <= 0x7fff_ffff_ffff_ffffi128 {
            Some(Rational { num: n as i64, den: d as i64 })
        } else {
            None
        }
    }

    /// Exact sum; within [`safe_bound`] it always succeeds.
    pub fn add(&self, other: &Self) -> (r: Option<Self>)
        requires
            self.wf(),
            other.wf(),
        ensures
            match r {
                Some(v) => v.wf() && v@ == rat_add(self@, other@),
                None => true,
            },
            r is Some <==> rat_fits(rat_add(self@, other@)),
            rat_bounded(self@, safe_bound()) && rat_bounded(other@, safe_bound()) ==> r is Some,
    {
        proof {
            lemma_wide_products(self@, other@);
        }
        let n: i128 = (self.num as i128) * (other.den as i128) + (other.num as i128) * (self.den
            as i128);
        let d: i128 = (self.den as i128) * (other.den as i128);
        Self::fit(n, d)
    }

    /// Exact difference; within [`safe_bound`] it always succeeds.
    pub fn sub(&self, other: &Self) -> (r: Option<Self>)
        requires
            self.wf(),
            other.wf(),
        ensures
            match r {
                Some(v) => v.wf() && v@ == rat_sub(self@, other@),
                None => true,
            },
            r is Some <==> rat_fits(rat_sub(self@, other@)),
            rat_bounded(self@, safe_bound()) && rat_bounded(other@, safe_bound()) ==> r is Some,
    {
        proof {
            lemma_wide_products(self@, other@);
        }
        let n: i128 = (self.num as i128) * (other.den as i128) - (other.num as i128) * (self.den
            as i128);
        let d: i128 = (self.den as i128) * (other.den as i128);
        Self::fit(n, d)
    }

    /// Exact product; within [`safe_bound`] it always succeeds.
    pub fn mul(&self, other: &Self) -> (r: Option<Self>)
        requires
            self.wf(),
            other.wf(),
        ensures
            match r {
                Some(v) => v.wf() && v@ == rat_mul(self@, other@),
                None => true,
            },
            r is Some <==> rat_fits(rat_mul(self@, other@)),
            rat_bounded(self@, safe_bound()) && rat_bounded(other@, safe_bound()) ==> r is Some,
    {
        proof {
            lemma_wide_products(self@, other@);
        }
        let n: i128 = (self.num as i128) * (other.num as i128);
        let d: i128 = (self.den as i128) * (other.den as i128);
        Self::fit(n, d)
    }

    /// Exact quotient.  The caller rules division by zero out beforehand;
    /// within [`safe_bound`] the quotient always succeeds.
    pub fn div(&self, other: &Self) -> (r: Option<Self>)
        requires
            self.wf(),
            other.wf(),
            !rat_is_zero(other@),
        ensures
            match r {
                Some(v) => v.wf() && v@ == rat_div(self@, other@),
                None => true,
            },
            r is Some <==> rat_fits(rat_div(self@, other@)),
            rat_bounded(self@, safe_bound()) && rat_bounded(other@, safe_bound()) ==> r is Some,
    {
        proof {
            lemma_wide_products(self@, other@);
        }
        let n: i128 = (self.num as i128) * (other.den as i128);
        let d: i128 = (self.den as i128) * (other.num as i128);
        if d >= 0 {
            Self::fit(n, d)
        } else {
            Self::fit(-n, -d)
        }
    }

    /// Exact negation; it fails only on the one value whose negation has
    /// no machine representation.
    pub fn neg(&self) -> (r: Option<Self>)
        requires
            self.wf(),
        ensures
            match r {
                Some(v) => v.wf() && v@ == rat_neg(self@),
                None => true,
            },
            r is Some <==> rat_fits(rat_neg(self@)),
            rat_bounded(self@, safe_bound()) ==> r is Some,
    {
        Self::fit(-(self.num as i128), self.den as i128)
    }

    /// Whether the two rationals denote the same number.
    pub fn eq_rat(&self, other: &Self) -> (r: bool)
        requires
            self.wf(),
            other.wf(),
        ensures
            r == rat_eq(self@, other@),
    {
        proof {
            lemma_wide_products(self@, other@);
        }
        (self.num as i128) * (other.den as i128) == (other.num as i128) * (self.den as i128)
    }

    /// Whether `self` denotes a strictly smaller number than `other`.
    pub fn lt(&self, other: &Self) -> (r: bool)
        requires
            self.wf(),
            other.wf(),
        ensures
            r == rat_lt(self@, other@),
    {
        proof {
            lemma_wide_products(self@, other@);
        }
        (self.num as i128) * (other.den as i128) < (other.num as i128) * (self.den as i128)
    }

    /// Whether the rational denotes zero.
    pub fn is_zero(&self) -> (r: bool)
        ensures
            r == rat_is_zero(self@),
    {
        self.num == 0
    }

    /// Whether the rational denotes a number below zero.
    pub fn is_negative(&self) -> (r: bool)
        requires
            self.wf(),
        ensures
            r == rat_lt(self@, rat_of_int(0)),
    {
        self.num < 0
    }
}

/// Products of two machine-word rationals stay within the wide words the
/// operations compute in, and within [`safe_bound`] one operation stays
/// within the machine words themselves.
proof fn lemma_wide_products(a: Rat, b: Rat)
    requires
        -0x8000_0000_0000_0000 <= a.n <= 0x7fff_ffff_ffff_ffff,
        0 < a.d <= 0x7fff_ffff_ffff_ffff,
        -0x8000_0000_0000_0000 <= b.n <= 0x7fff_ffff_ffff_ffff,
        0 < b.d <= 0x7fff_ffff_ffff_ffff,
    ensures
        -0x3fff_ffff_ffff_ffff_8000_0000_0000_0000 <= a.n * b.d
            <= 0x3fff_ffff_ffff_ffff_8000_0000_0000_0000,
        -0x3fff_ffff_ffff_ffff_8000_0000_0000_0000 <= b.n * a.d
            <= 0x3fff_ffff_ffff_ffff_8000_0000_0000_0000,
        -0x3fff_ffff_ffff_ffff_8000_0000_0000_0000 <= a.n * b.n
            <= 0x4000_0000_0000_0000_0000_0000_0000_0000,
        0 < a.d * b.d <= 0x3fff_ffff_ffff_ffff_8000_0000_0000_0000,
        b.n > 0 ==> a.d * b.n > 0,
        b.n < 0 ==> a.d * b.n < 0,
        rat_bounded(a, safe_bound()) && rat_bounded(b, safe_bound()) ==> {
            &&& -0x8000_0000_0000_0000 < a.n * b.d + b.n * a.d < 0x8000_0000_0000_0000
            &&& -0x8000_0000_0000_0000 < a.n * b.d - b.n * a.d < 0x8000_0000_0000_0000
            &&& -0x8000_0000_0000_0000 < a.n * b.n < 0x8000_0000_0000_0000
            &&& -0x8000_0000_0000_0000 < a.n * b.d < 0x8000_0000_0000_0000
            &&& -0x8000_0000_0000_0000 < a.d * b.n < 0x8000_0000_0000_0000
            &&& 0 < a.d * b.d < 0x8000_0000_0000_0000
        },
{
    assert(-0x3fff_ffff_ffff_ffff_8000_0000_0000_0000 <= a.n * b.d
        <= 0x3fff_ffff_ffff_ffff_8000_0000_0000_0000) by (nonlinear_arith)
        requires
            -0x8000_0000_0000_0000 <= a.n <= 0x7fff_ffff_ffff_ffff,
            0 < b.d <= 0x7fff_ffff_ffff_ffff,
    ;
    assert(-0x3fff_ffff_ffff_ffff_8000_0000_0000_0000 <= b.n * a.d
        <= 0x3fff_ffff_ffff_ffff_8000_0000_0000_0000) by (nonlinear_arith)
        requires
            -0x8000_0000_0000_0000 <= b.n <= 0x7fff_ffff_ffff_ffff,
            0 < a.d <= 0x7fff_ffff_ffff_ffff,
    ;
    assert(-0x3fff_ffff_ffff_ffff_8000_0000_0000_0000 <= a.n * b.n
        <= 0x4000_0000_0000_0000_0000_0000_0000_0000) by (nonlinear_arith)
        requires
            -0x8000_0000_0000_0000 <= a.n <= 0x7fff_ffff_ffff_ffff,
            -0x8000_0000_0000_0000 <= b.n <= 0x7fff_ffff_ffff_ffff,
    ;
    assert(0 < a.d * b.d <= 0x3fff_ffff_ffff_ffff_8000_0000_0000_0000) by (nonlinear_arith)
        requires
            0 < a.d <= 0x7fff_ffff_ffff_ffff,
            0 < b.d <= 0x7fff_ffff_ffff_ffff,
    ;
    assert((b.n > 0 ==> a.d * b.n > 0) && (b.n < 0 ==> a.d * b.n < 0)) by (nonlinear_arith)
        requires
            0 < a.d,
    ;
    if rat_bounded(a, safe_bound()) && rat_bounded(b, safe_bound()) {
        assert(-0x1000_0000_0000_0000 < a.n * b.d < 0x1000_0000_0000_0000) by (nonlinear_arith)
            requires
                -0x4000_0000 < a.n < 0x4000_0000,
                0 < b.d < 0x4000_0000,
        ;
        assert(-0x1000_0000_0000_0000 < b.n * a.d < 0x1000_0000_0000_0000) by (nonlinear_arith)
            requires
                -0x4000_0000 < b.n < 0x4000_0000,
                0 < a.d < 0x4000_0000,
        ;
        assert(-0x1000_0000_0000_0000 < a.n * b.n < 0x1000_0000_0000_0000) by (nonlinear_arith)
            requires
                -0x4000_0000 < a.n < 0x4000_0000,
                -0x4000_0000 < b.n < 0x4000_0000,
        ;
        assert(-0x1000_0000_0000_0000 < a.d * b.n < 0x1000_0000_0000_0000) by (nonlinear_arith)
            requires
                -0x4000_0000 < b.n < 0x4000_0000,
                0 < a.d < 0x4000_0000,
        ;
        assert(0 < a.d * b.d < 0x1000_0000_0000_0000) by (nonlinear_arith)
            requires
                0 < a.d < 0x4000_0000,
                0 < b.d < 0x4000_0000,
        ;
    }
}


/// `b` to the power of `e`.
pub open spec fn pow_nat(b: int, e: nat) -> int
    decreases e,
{
    if e == 0 {
        1
    } else {
        b * pow_nat(b, (e - 1) as nat)
    }
}

/// A positive base to any power stays positive.
pub proof fn lemma_pow_nat_pos(b: int, e: nat)
    requires
        b > 0,
    ensures
        pow_nat(b, e) > 0,
    decreases e,
{
    if e > 0 {
        lemma_pow_nat_pos(b, (e - 1) as nat);
        assert(b * pow_nat(b, (e - 1) as nat) > 0) by (nonlinear_arith)
            requires
                b > 0,
                pow_nat(b, (e - 1) as nat) > 0,
        ;
    }
}

/// Any power of a nonnegative base is nonnegative.
pub proof fn lemma_pow_nat_nonneg(b: int, e: nat)
    requires
        b >= 0,
    ensures
        pow_nat(b, e) >= 0,
    decreases e,
{
    if e > 0 {
        lemma_pow_nat_nonneg(b, (e - 1) as nat);
        assert(b * pow_nat(b, (e - 1) as nat) >= 0) by (nonlinear_arith)
            requires
                b >= 0,
                pow_nat(b, (e - 1) as nat) >= 0,
        ;
    }
}

/// Powers of a base of at least one never shrink as the exponent grows.
pub proof fn lemma_pow_nat_increases(b: int, e1: nat, e2: nat)
    requires
        b >= 1,
        e1 <= e2,
    ensures
        pow_nat(b, e1) <= pow_nat(b, e2),
    decreases e2 - e1,
{
    if e1 < e2 {
        lemma_pow_nat_increases(b, e1, (e2 - 1) as nat);
        lemma_pow_nat_pos(b, (e2 - 1) as nat);
        assert(pow_nat(b, (e2 - 1) as nat) <= b * pow_nat(b, (e2 - 1) as nat))
            by (nonlinear_arith)
            requires
                b >= 1,
                pow_nat(b, (e2 - 1) as nat) > 0,
        ;
    }
}

/// `base` to the power `e` within a machine word, or `None` exactly
/// when the power does not fit one.
pub fn pow_u64_checked(base: u64, e: u64) -> (r: Option<u64>)
    ensures
        match r {
            Some(v) => v as int == pow_nat(base as int, e as nat),
            None => pow_nat(base as int, e as nat) > u64::MAX,
        },
{
    let mut acc: u64 = 1;
    let mut i: u64 = 0;
    while i < e
        invariant
            i <= e,
            acc as int == pow_nat(base as int, i as nat),
        decreases e - i,
    {
        let next_opt = acc.checked_mul(base);
        match next_opt {
            Some(next) => {
                acc = next;
                i = i + 1;
                proof {
                    assert(pow_nat(base as int, i as nat) == (base as int) * pow_nat(
                        base as int,
                        (i - 1) as nat,
                    ));
                    assert((acc as int) == (base as int) * pow_nat(base as int, (i - 1) as nat))
                        by (nonlinear_arith)
                        requires
                            acc as int == pow_nat(base as int, (i - 1) as nat) * (base as int)
                                || acc as int == (base as int) * pow_nat(
                                base as int,
                                (i - 1) as nat,
                            ),
                    ;
                }
            },
            None => {
                proof {
                    assert(base >= 1) by (nonlinear_arith)
                        requires
                            (acc as int) * (base as int) > u64::MAX,
                            acc as int >= 0,
                            base as int >= 0,
                    ;
                    assert(pow_nat(base as int, (i + 1) as nat) == (base as int) * pow_nat(
                        base as int,
                        i as nat,
                    ));
                    assert((base as int) * (acc as int) == (acc as int) * (base as int))
                        by (nonlinear_arith);
                    lemma_pow_nat_increases(base as int, (i + 1) as nat, e as nat);
                }
                return None;
            },
        }
    }
    Some(acc)
}

/// Exact integer power of a model rational: both components are raised.
pub open spec fn rat_pow(a: Rat, e: nat) -> Rat {
    Rat { n: pow_nat(a.n, e), d: pow_nat(a.d, e) }
}

/// Exact integer power with a possibly negative exponent: a negative
/// exponent goes through the reciprocal.
pub open spec fn rat_pow_int(a: Rat, k: int) -> Rat {
    if k >= 0 {
        rat_pow(a, k as nat)
    } else {
        rat_div(rat_of_int(1), rat_pow(a, (-k) as nat))
    }
}

/// A power of a nonzero base is nonzero.
pub proof fn lemma_pow_nat_nonzero(b: int, e: nat)
    requires
        b != 0,
    ensures
        pow_nat(b, e) != 0,
    decreases e,
{
    if e > 0 {
        lemma_pow_nat_nonzero(b, (e - 1) as nat);
        assert(b * pow_nat(b, (e - 1) as nat) != 0) by (nonlinear_arith)
            requires
                b != 0,
                pow_nat(b, (e - 1) as nat) != 0,
        ;
    }
}

/// Powers do not shrink when the base grows.
pub proof fn lemma_pow_nat_base_monotone(b1: int, b2: int, e: nat)
    requires
        0 <= b1 <= b2,
    ensures
        pow_nat(b1, e) <= pow_nat(b2, e),
    decreases e,
{
    if e > 0 {
        lemma_pow_nat_base_monotone(b1, b2, (e - 1) as nat);
        lemma_pow_nat_nonneg(b1, (e - 1) as nat);
        assert(b1 * pow_nat(b1, (e - 1) as nat) <= b2 * pow_nat(b2, (e - 1) as nat))
            by (nonlinear_arith)
            requires
                0 <= b1 <= b2,
                0 <= pow_nat(b1, (e - 1) as nat) <= pow_nat(b2, (e - 1) as nat),
        ;
    }
}

/// Whether `x` is a perfect `e`-th power of a nonnegative integer.
pub open spec fn is_perfect_power(x: int, e: nat) -> bool {
    exists|w: int| 0 <= w && pow_nat(w, e) == x
}

/// An integer power of a nonzero rational is a well-formed nonzero
/// rational.
pub proof fn lemma_rat_pow_int_nonzero(a: Rat, k: int)
    requires
        rat_wf(a),
        a.n != 0,
    ensures
        rat_wf(rat_pow_int(a, k)),
        rat_pow_int(a, k).n != 0,
{
    if k >= 0 {
        lemma_pow_nat_nonzero(a.n, k as nat);
        lemma_pow_nat_pos(a.d, k as nat);
    } else {
        lemma_pow_nat_nonzero(a.n, (-k) as nat);
        lemma_pow_nat_pos(a.d, (-k) as nat);
        assert(1 * pow_nat(a.d, (-k) as nat) == pow_nat(a.d, (-k) as nat)) by (nonlinear_arith);
        assert(1 * pow_nat(a.n, (-k) as nat) == pow_nat(a.n, (-k) as nat)) by (nonlinear_arith);
    }
}

/// A power of a positive base is positive, stated on [`rat_pow_int`].
pub proof fn lemma_rat_pow_int_pos(a: Rat, k: int)
    requires
        rat_wf(a),
        a.n > 0,
    ensures
        rat_wf(rat_pow_int(a, k)),
        rat_pow_int(a, k).n > 0,
{
    if k >= 0 {
        lemma_pow_nat_pos(a.n, k as nat);
        lemma_pow_nat_pos(a.d, k as nat);
    } else {
        lemma_pow_nat_pos(a.n, (-k) as nat);
        lemma_pow_nat_pos(a.d, (-k) as nat);
        assert(1 * pow_nat(a.d, (-k) as nat) == pow_nat(a.d, (-k) as nat)) by (nonlinear_arith);
        assert(1 * pow_nat(a.n, (-k) as nat) == pow_nat(a.n, (-k) as nat)) by (nonlinear_arith);
    }
}

/// One is a fixed point of every power.
pub proof fn lemma_pow_nat_one(e: nat)
    ensures
        pow_nat(1, e) == 1,
    decreases e,
{
    if e > 0 {
        lemma_pow_nat_one((e - 1) as nat);
        assert(1 * pow_nat(1, (e - 1) as nat) == pow_nat(1, (e - 1) as nat)) by (nonlinear_arith);
    }
}

/// A base of at least one is a lower bound of its own positive powers.
pub proof fn lemma_pow_nat_ge_base(b: int, e: nat)
    requires
        b >= 1,
        e >= 1,
    ensures
        pow_nat(b, e) >= b,
{
    lemma_pow_nat_increases(b, 1, e);
    assert(pow_nat(b, 1) == b * pow_nat(b, 0));
    assert(b * 1 == b) by (nonlinear_arith);
}

/// Powers of a negated base: the sign follows the parity of the
/// exponent.
pub proof fn lemma_pow_nat_neg(b: int, e: nat)
    ensures
        e % 2 == 0 ==> pow_nat(-b, e) == pow_nat(b, e),
        e % 2 == 1 ==> pow_nat(-b, e) == -pow_nat(b, e),
    decreases e,
{
    if e > 0 {
        lemma_pow_nat_neg(b, (e - 1) as nat);
        let p = pow_nat(b, (e - 1) as nat);
        if e % 2 == 0 {
            assert((e - 1) % 2 == 1);
            assert((-b) * (-p) == b * p) by (nonlinear_arith);
        } else {
            assert((e - 1) % 2 == 0);
            assert((-b) * p == -(b * p)) by (nonlinear_arith);
        }
    }
}

/// The floor of the `n`-th root of `x`, with a flag saying whether the
/// root is exact.
fn int_nth_root(x: u64, n: u64) -> (r: (u64, bool))
    requires
        n >= 1,
    ensures
        pow_nat(r.0 as int, n as nat) <= x < pow_nat((r.0 + 1) as int, n as nat),
        r.1 == (pow_nat(r.0 as int, n as nat) == x),
        r.0 <= x,
        is_perfect_power(x as int, n as nat) ==> r.1,
{
    if x == 0 {
        proof {
            crate::rational::lemma_pow_nat_one(n as nat);
            assert(pow_nat(0, n as nat) == 0 * pow_nat(0, (n - 1) as nat));
            assert(0 * pow_nat(0, (n - 1) as nat) == 0) by (nonlinear_arith);
        }
        return (0, true);
    }
    if x == 1 || n == 1 {
        proof {
            lemma_pow_nat_one(n as nat);
            if n == 1 {
                assert(pow_nat(x as int, 1) == (x as int) * pow_nat(x as int, 0));
                assert((x as int) * 1 == x as int) by (nonlinear_arith);
                lemma_pow_nat_ge_base((x + 1) as int, 1);
            } else {
                lemma_pow_nat_ge_base(2, n as nat);
            }
        }
        return (if n == 1 {
            (x, true)
        } else {
            (1, x == 1)
        });
    }
    // Now x >= 2 and n >= 2: the root lies strictly between 1 and x.
    let mut lo: u64 = 1;
    let mut hi: u64 = x;
    proof {
        lemma_pow_nat_one(n as nat);
        lemma_pow_nat_increases(x as int, 2, n as nat);
        assert(pow_nat(x as int, 2) == (x as int) * pow_nat(x as int, 1));
        assert(pow_nat(x as int, 1) == (x as int) * pow_nat(x as int, 0));
        assert((x as int) * ((x as int) * 1) > x as int) by (nonlinear_arith)
            requires
                x >= 2,
        ;
    }
    while lo + 1 < hi
        invariant
            n >= 1,
            1 <= lo < hi <= x,
            pow_nat(lo as int, n as nat) <= x,
            x < pow_nat(hi as int, n as nat),
        decreases hi - lo,
    {
        let mid: u64 = lo + (hi - lo) / 2;
        match pow_u64_checked(mid, n) {
            Some(v) => {
                if v <= x {
                    lo = mid;
                } else {
                    hi = mid;
                }
            },
            None => {
                hi = mid;
            },
        }
    }
    let exact: bool = match pow_u64_checked(lo, n) {
        Some(v) => v == x,
        None => false,
    };
    proof {
        if is_perfect_power(x as int, n as nat) && !exact {
            let w = choose|w: int| 0 <= w && pow_nat(w, n as nat) == x;
            if w <= lo {
                lemma_pow_nat_base_monotone(w, lo as int, n as nat);
            } else {
                lemma_pow_nat_base_monotone(lo as int + 1, w, n as nat);
            }
        }
    }
    (lo, exact)
}

impl Rational {
    /// The `n`-th root of the rational, together with a flag saying
    /// whether the result is exact.  When the flag is set, raising the
    /// result back to the `n`-th power gives the operand; otherwise the
    /// result is a bounded approximation of the irrational root.  A
    /// negative operand keeps its sign and is only admitted for odd
    /// `n`.
    pub fn nth_root(&self, n: u64) -> (r: (Self, bool))
        requires
            self.wf(),
            n >= 1,
            !(self@.n < 0 && n % 2 == 0),
        ensures
            r.0.wf(),
            r.1 ==> rat_pow(r.0@, n as nat) == self@,
            self@.n >= 0 ==> r.0@.n >= 0,
            self@.n < 0 ==> r.0@.n <= 0,
            (is_perfect_power(
                if self@.n < 0 {
                    -self@.n
                } else {
                    self@.n
                },
                n as nat,
            ) && is_perfect_power(self@.d, n as nat)) ==> r.1,
    {
        if n == 1 {
            proof {
                assert(pow_nat(self@.n, 1) == self@.n * pow_nat(self@.n, 0));
                assert(pow_nat(self@.d, 1) == self@.d * pow_nat(self@.d, 0));
                assert(self@.n * 1 == self@.n && self@.d * 1 == self@.d) by (nonlinear_arith);
            }
            return (*self, true);
        }
        let neg: bool = self.num < 0;
        let p: u64 = if neg {
            (-(self.num as i128)) as u64
        } else {
            self.num as u64
        };
        let q: u64 = self.den as u64;
        let (rp, exact_p) = int_nth_root(p, n);
        let (rq, exact_q) = int_nth_root(q, n);
        if exact_p && exact_q {
            proof {
                lemma_root_fits(p, rp, n);
                lemma_root_fits(q, rq, n);
                assert(rq >= 1) by {
                    if rq == 0 {
                        lemma_pow_nat_one(n as nat);
                        assert(pow_nat(0, n as nat) == 0 * pow_nat(0, (n - 1) as nat));
                        assert(0 * pow_nat(0, (n - 1) as nat) == 0) by (nonlinear_arith);
                    }
                }
            }
            let num: i64 = if neg {
                (-(rp as i128)) as i64
            } else {
                rp as i64
            };
            let root = Rational { num, den: rq as i64 };
            proof {
                if neg {
                    lemma_pow_nat_neg(rp as int, n as nat);
                    assert(n % 2 == 1) by {
                        assert(self@.n < 0);
                    }
                    assert(pow_nat(-(rp as int), n as nat) == -(p as int));
                    assert(root@.n == -(rp as int));
                }
            }
            (root, true)
        } else {
            // Approximate the root, scaled by a fixed power of ten where
            // that stays within the machine words.
            let scale: u64 = 1000;
            let scaled: Option<u64> = match pow_u64_checked(scale, n) {
                Some(sn) => p.checked_mul(sn),
                None => None,
            };
            match scaled {
                Some(ps) => {
                    let t: u64 = ps / q;
                    let (rt, _) = int_nth_root(t, n);
                    proof {
                        lemma_root_fits(t, rt, n);
                    }
                    let num: i64 = if neg {
                        (-(rt as i128)) as i64
                    } else {
                        rt as i64
                    };
                    (Rational { num, den: 1000 }, false)
                },
                None => {
                    let t: u64 = p / q;
                    let (rt, _) = int_nth_root(t, n);
                    proof {
                        lemma_root_fits(t, rt, n);
                    }
                    let num: i64 = if neg {
                        (-(rt as i128)) as i64
                    } else {
                        rt as i64
                    };
                    (Rational { num, den: 1 }, false)
                },
            }
        }
    }
}

/// For an index of at least two, the floor root of a machine word fits
/// comfortably back into a signed word.
proof fn lemma_root_fits(x: u64, root: u64, n: u64)
    requires
        n >= 2,
        pow_nat(root as int, n as nat) <= x,
        root <= x,
    ensures
        root < 0x1_0000_0000,
{
    if root >= 0x1_0000_0000 {
        lemma_pow_nat_increases(root as int, 2, n as nat);
        assert(pow_nat(root as int, 2) == (root as int) * pow_nat(root as int, 1));
        assert(pow_nat(root as int, 1) == (root as int) * pow_nat(root as int, 0));
        assert((root as int) * ((root as int) * 1) >= 0x1_0000_0000_0000_0000)
            by (nonlinear_arith)
            requires
                root as int >= 0x1_0000_0000,
        ;
    }
}

/// The number a most-significant-first digit sequence denotes in the
/// given radix.
pub open spec fn digits_val(ds: Seq<u64>, radix: int) -> int
    decreases ds.len(),
{
    if ds.len() == 0 {
        0
    } else {
        digits_val(ds.drop_last(), radix) * radix + ds.last()
    }
}

/// Every digit of the sequence lies below the radix.
pub open spec fn all_digits_below(ds: Seq<u64>, radix: int) -> bool {
    forall|i: int| 0 <= i < ds.len() ==> (#[trigger] ds[i]) < radix
}

/// Value of a least-significant-first digit sequence, the order in which
/// repeated division peels digits off.
spec fn digits_val_lsb(ds: Seq<u64>, radix: int) -> int
    decreases ds.len(),
{
    if ds.len() == 0 {
        0
    } else {
        ds.first() + radix * digits_val_lsb(ds.drop_first(), radix)
    }
}

/// Appending a digit multiplies the denoted number by the radix and adds
/// the digit: the left-to-right accumulation step.
pub proof fn lemma_digits_val_push(ds: Seq<u64>, x: u64, radix: int)
    ensures
        digits_val(ds.push(x), radix) == digits_val(ds, radix) * radix + x,
{
    assert(ds.push(x).drop_last() =~= ds);
    assert(ds.push(x).last() == x);
}

/// A digit sequence below the radix denotes a number in
/// `[0, radix^len)`.
pub proof fn lemma_digits_val_bounds(ds: Seq<u64>, radix: int)
    requires
        radix >= 2,
        all_digits_below(ds, radix),
    ensures
        0 <= digits_val(ds, radix) < pow_nat(radix, ds.len() as nat),
    decreases ds.len(),
{
    if ds.len() == 0 {
    } else {
        let prefix = ds.drop_last();
        assert(all_digits_below(prefix, radix));
        lemma_digits_val_bounds(prefix, radix);
        let v = digits_val(prefix, radix);
        let p = pow_nat(radix, prefix.len() as nat);
        assert(pow_nat(radix, ds.len() as nat) == radix * p);
        assert(0 <= v * radix + ds.last() < radix * p) by (nonlinear_arith)
            requires
                0 <= v < p,
                2 <= radix,
                0 <= ds.last() < radix,
        ;
    }
}

/// Reading a least-significant-first sequence in reverse denotes the
/// same number as reading it most-significant-first.
proof fn lemma_digits_val_reverse(ds: Seq<u64>, radix: int)
    ensures
        digits_val(ds.reverse(), radix) == digits_val_lsb(ds, radix),
    decreases ds.len(),
{
    if ds.len() == 0 {
        assert(ds.reverse() =~= Seq::<u64>::empty());
    } else {
        let rest = ds.drop_first();
        lemma_digits_val_reverse(rest, radix);
        assert(ds.reverse().drop_last() =~= rest.reverse());
        assert(ds.reverse().last() == ds.first());
        assert(digits_val_lsb(rest, radix) * radix == radix * digits_val_lsb(rest, radix))
            by (nonlinear_arith);
    }
}

/// Reversal peels the first element off to the back.
proof fn lemma_reverse_unfold(s: Seq<u64>)
    requires
        s.len() > 0,
    ensures
        s.reverse() =~= s.drop_first().reverse().push(s.first()),
{
}

/// One least-significant-first peeling step keeps the running value.
proof fn lemma_lsb_extend(ds: Seq<u64>, digit: u64, x_new: int, x_old: int, radix: int, total: int)
    requires
        radix >= 2,
        x_old == radix * x_new + digit,
        0 <= digit < radix,
        digits_val_lsb(ds, radix) + x_old * pow_nat(radix, ds.len() as nat) == total,
    ensures
        digits_val_lsb(ds.push(digit), radix) + x_new * pow_nat(
            radix,
            ds.push(digit).len() as nat,
        ) == total,
    decreases ds.len(),
{
    if ds.len() == 0 {
        assert(ds.push(digit).first() == digit);
        assert(ds.push(digit).drop_first() =~= Seq::<u64>::empty());
        assert(pow_nat(radix, 0) == 1);
        assert(pow_nat(radix, 1) == radix * pow_nat(radix, 0));
        assert(digits_val_lsb(ds.push(digit), radix) == digit + radix * digits_val_lsb(
            Seq::<u64>::empty(),
            radix,
        ));
        assert(digit + radix * 0 + x_new * (radix * 1) == radix * x_new + digit)
            by (nonlinear_arith);
        assert(radix * 0 == 0) by (nonlinear_arith);
        assert(x_new * (radix * 1) == x_new * radix) by (nonlinear_arith);
        assert(x_new * pow_nat(radix, 1) == x_new * radix) by (nonlinear_arith)
            requires
                pow_nat(radix, 1) == radix,
        ;
        assert(x_old * pow_nat(radix, 0) == x_old) by (nonlinear_arith)
            requires
                pow_nat(radix, 0) == 1,
        ;
    } else {
        let rest = ds.drop_first();
        let first = ds.first() as int;
        let p = pow_nat(radix, rest.len() as nat);
        let lr = digits_val_lsb(rest, radix);
        assert(pow_nat(radix, ds.len() as nat) == radix * p);
        assert(first + radix * lr + x_old * (radix * p) == total);
        lemma_lsb_extend(rest, digit, x_new, x_old, radix, lr + x_old * p);
        let lrp = digits_val_lsb(rest.push(digit), radix);
        assert(lrp + x_new * (radix * p) == lr + x_old * p);
        assert(ds.push(digit).first() == ds.first());
        assert(ds.push(digit).drop_first() =~= rest.push(digit));
        assert(digits_val_lsb(ds.push(digit), radix) == first + radix * lrp);
        assert(pow_nat(radix, ds.push(digit).len() as nat) == radix * (radix * p));
        assert(first + radix * lrp + x_new * (radix * (radix * p)) == total) by (nonlinear_arith)
            requires
                lrp + x_new * (radix * p) == lr + x_old * p,
                first + radix * lr + x_old * (radix * p) == total,
        ;
    }
}

/// One long-division step keeps the fraction-digit equation.
proof fn lemma_frac_step(
    ds: Seq<u64>,
    digit: u64,
    old_rem: int,
    new_rem: int,
    den: int,
    radix: int,
    rem0: int,
)
    requires
        radix >= 2,
        den > 0,
        old_rem * radix == (digit as int) * den + new_rem,
        0 <= new_rem < den,
        0 <= old_rem < den,
        rem0 * pow_nat(radix, ds.len() as nat) == digits_val(ds, radix) * den + old_rem,
    ensures
        rem0 * pow_nat(radix, ds.push(digit).len() as nat) == digits_val(ds.push(digit), radix)
            * den + new_rem,
        digit < radix,
{
    lemma_digits_val_push(ds, digit, radix);
    let fv = digits_val(ds, radix);
    let p = pow_nat(radix, ds.len() as nat);
    assert(pow_nat(radix, ds.push(digit).len() as nat) == radix * p);
    assert(digit < radix) by (nonlinear_arith)
        requires
            old_rem * radix == (digit as int) * den + new_rem,
            0 <= new_rem,
            old_rem < den,
            den > 0,
            radix >= 2,
            digit >= 0,
    ;
    assert(rem0 * (radix * p) == (fv * radix + digit) * den + new_rem) by (nonlinear_arith)
        requires
            rem0 * p == fv * den + old_rem,
            old_rem * radix == (digit as int) * den + new_rem,
    ;
}

/// Assembles the integer-part and fraction-part equations into the
/// statement about the whole magnitude.
proof fn lemma_assemble(
    mag: int,
    ipart: int,
    rem0: int,
    rem: int,
    den: int,
    radix: int,
    iv: int,
    fv: int,
    k: nat,
)
    requires
        radix >= 2,
        den > 0,
        mag == den * ipart + rem0,
        0 <= rem0 < den,
        iv == ipart,
        rem0 * pow_nat(radix, k) == fv * den + rem,
        0 <= rem < den,
    ensures
        rem == 0 ==> mag * pow_nat(radix, k) == (iv * pow_nat(radix, k) + fv) * den,
        rem != 0 ==> (iv * pow_nat(radix, k) + fv) * den < mag * pow_nat(radix, k) < (iv
            * pow_nat(radix, k) + fv + 1) * den,
{
    let p = pow_nat(radix, k);
    lemma_pow_nat_pos(radix, k);
    assert(mag * p == (iv * p + fv) * den + rem) by (nonlinear_arith)
        requires
            mag == den * ipart + rem0,
            iv == ipart,
            rem0 * p == fv * den + rem,
            p > 0,
    ;
    if rem != 0 {
        assert((iv * p + fv) * den < (iv * p + fv) * den + rem < (iv * p + fv + 1) * den)
            by (nonlinear_arith)
            requires
                0 < rem < den,
        ;
    }
}

/// What the positional rendering of the rational `v` in radix `radix`
/// with at most `max_frac` fraction digits looks like: sign, digit
/// ranges, no leading zeroes, and the value equations tying the digits
/// to the magnitude — exactly when the expansion terminates, and as a
/// truncation bracketing the magnitude otherwise.
pub open spec fn base_digits_spec(
    v: Rat,
    rad: int,
    max_frac: int,
    sign: bool,
    ints: Seq<u64>,
    fracs: Seq<u64>,
    exact: bool,
) -> bool {
    let mag = if v.n < 0 {
        -v.n
    } else {
        v.n
    };
    let iv = digits_val(ints, rad);
    let fv = digits_val(fracs, rad);
    let k = fracs.len() as nat;
    &&& sign == (v.n < 0)
    &&& all_digits_below(ints, rad)
    &&& all_digits_below(fracs, rad)
    &&& ints.len() >= 1
    &&& (ints[0] == 0 ==> ints.len() == 1)
    &&& k <= max_frac
    &&& (exact && k > 0 ==> fracs.last() != 0)
    &&& (exact ==> mag * pow_nat(rad, k) == (iv * pow_nat(rad, k) + fv) * v.d)
    &&& (!exact ==> k == max_frac && (iv * pow_nat(rad, k) + fv) * v.d < mag * pow_nat(rad, k) < (
    iv * pow_nat(rad, k) + fv + 1) * v.d)
}

/// The positional rendering of a rational in some radix: a sign, the
/// integer-part digits, and the fraction-part digits.  `exact` says that
/// the digits denote the magnitude exactly; otherwise they are the
/// truncation of a non-terminating expansion.
pub struct BaseDigits {
    /// Whether the rational is below zero.
    pub sign: bool,
    /// Most-significant-first integer-part digits, at least one, without
    /// leading zeroes.
    pub int_digits: Vec<u64>,
    /// Fraction-part digits, most significant first.
    pub frac_digits: Vec<u64>,
    /// Whether the digits denote the magnitude exactly.
    pub exact: bool,
}

impl Rational {
    /// Renders the exact positional expansion of the rational in the
    /// given radix, with at most `max_frac` fraction digits: the digits
    /// denote the magnitude exactly when the expansion terminates within
    /// that bound, and its truncation otherwise.
    pub fn to_base_digits(&self, radix: u64, max_frac: usize) -> (r: BaseDigits)
        requires
            self.wf(),
            2 <= radix <= 36,
        ensures
            base_digits_spec(
                self@,
                radix as int,
                max_frac as int,
                r.sign,
                r.int_digits@,
                r.frac_digits@,
                r.exact,
            ),
    {
        let sign: bool = self.num < 0;
        let mag: u64 = if self.num < 0 {
            (-(self.num as i128)) as u64
        } else {
            self.num as u64
        };
        let den: u64 = self.den as u64;
        let ipart: u64 = mag / den;
        let rem0: u64 = mag % den;
        proof {
            lemma_fundamental_div_mod(mag as int, den as int);
        }
        // Peel the integer-part digits off least-significant-first.
        let mut tmp: Vec<u64> = Vec::new();
        let mut x: u64 = ipart;
        while x > 0
            invariant
                2 <= radix <= 36,
                digits_val_lsb(tmp@, radix as int) + x * pow_nat(radix as int, tmp@.len() as nat)
                    == ipart,
                all_digits_below(tmp@, radix as int),
                x == 0 && tmp@.len() > 0 ==> tmp@.last() != 0,
            decreases x,
        {
            let ghost old_tmp = tmp@;
            let ghost old_x = x as int;
            let digit: u64 = x % radix;
            x = x / radix;
            tmp.push(digit);
            proof {
                lemma_fundamental_div_mod(old_x, radix as int);
                assert(old_x == radix * (x as int) + digit);
                assert((x as int) < old_x) by (nonlinear_arith)
                    requires
                        old_x == radix * (x as int) + digit,
                        radix >= 2,
                        digit >= 0,
                        x as int >= 0,
                        old_x > 0,
                ;
                if x == 0 {
                    assert(old_x == digit) by (nonlinear_arith)
                        requires
                            old_x == radix * (x as int) + digit,
                            x as int == 0,
                    ;
                    assert(tmp@.last() == digit);
                }
                lemma_lsb_extend(old_tmp, digit, x as int, old_x, radix as int, ipart as int);
            }
        }
        // Reverse into most-significant-first order.
        let ghost lsb_digits = tmp@;
        let mut int_digits: Vec<u64> = Vec::new();
        if tmp.len() == 0 {
            int_digits.push(0);
            proof {
                assert(int_digits@.drop_last() =~= Seq::<u64>::empty());
                assert(digits_val(Seq::<u64>::empty(), radix as int) == 0);
                assert(digits_val(int_digits@, radix as int) == 0 * (radix as int) + 0);
                assert(0 * (radix as int) == 0) by (nonlinear_arith);
                assert(ipart * pow_nat(radix as int, 0) == ipart) by (nonlinear_arith)
                    requires
                        pow_nat(radix as int, 0) == 1,
                ;
                assert(ipart == 0);
            }
        } else {
            while tmp.len() > 0
                invariant
                    2 <= radix <= 36,
                    tmp@.len() <= lsb_digits.len(),
                    tmp@ =~= lsb_digits.subrange(0, tmp@.len() as int),
                    int_digits@ =~= lsb_digits.subrange(
                        tmp@.len() as int,
                        lsb_digits.len() as int,
                    ).reverse(),
                    all_digits_below(lsb_digits, radix as int),
                    lsb_digits.len() > 0,
                    lsb_digits.last() != 0,
                decreases tmp@.len(),
            {
                let ghost before = tmp@;
                let d_opt = tmp.pop();
                match d_opt {
                    Some(d) => {
                        int_digits.push(d);
                        proof {
                            let j = tmp@.len() as int;
                            let l = lsb_digits.len() as int;
                            assert(before =~= lsb_digits.subrange(0, j + 1));
                            assert(d == lsb_digits[j]);
                            let suffix = lsb_digits.subrange(j, l);
                            assert(suffix.drop_first() =~= lsb_digits.subrange(j + 1, l));
                            assert(suffix.first() == d);
                            lemma_reverse_unfold(suffix);
                            assert(int_digits@ =~= suffix.reverse());
                        }
                    },
                    None => {},
                }
            }
            proof {
                assert(tmp@ =~= Seq::<u64>::empty());
                assert(int_digits@ =~= lsb_digits.reverse());
                lemma_digits_val_reverse(lsb_digits, radix as int);
                assert(digits_val(int_digits@, radix as int) == ipart);
                assert forall|i: int| 0 <= i < int_digits@.len() implies (
                #[trigger] int_digits@[i]) < radix by {
                    assert(int_digits@[i] == lsb_digits[lsb_digits.len() - 1 - i]);
                }
                assert(int_digits@[0] == lsb_digits.last());
            }
        }
        // Produce the fraction digits by long division.
        let mut frac_digits: Vec<u64> = Vec::new();
        let mut rem: u64 = rem0;
        let mut k: usize = 0;
        while k < max_frac && rem != 0
            invariant
                2 <= radix <= 36,
                0 < den <= 0x7fff_ffff_ffff_ffff,
                rem < den,
                k == frac_digits@.len(),
                k <= max_frac,
                all_digits_below(frac_digits@, radix as int),
                rem0 * pow_nat(radix as int, k as nat) == digits_val(frac_digits@, radix as int)
                    * (den as int) + rem,
                k > 0 && rem == 0 ==> frac_digits@.last() != 0,
            decreases max_frac - k,
        {
            proof {
                assert((rem as int) * (radix as int) < (den as int) * (radix as int)
                    && 0 <= (rem as int) * (radix as int) <= 0x7fff_ffff_ffff_ffff * 36)
                    by (nonlinear_arith)
                    requires
                        0 <= rem < den,
                        den <= 0x7fff_ffff_ffff_ffff,
                        2 <= radix <= 36,
                ;
            }
            let t: u128 = (rem as u128) * (radix as u128);
            proof {
                lemma_multiply_divide_lt(t as int, den as int, radix as int);
            }
            let digit: u64 = (t / (den as u128)) as u64;
            let ghost old_rem = rem as int;
            let ghost old_frac = frac_digits@;
            rem = (t % (den as u128)) as u64;
            proof {
                lemma_fundamental_div_mod(t as int, den as int);
                assert((den as int) * (digit as int) == (digit as int) * (den as int))
                    by (nonlinear_arith);
                assert(old_rem * (radix as int) == (digit as int) * (den as int) + rem);
            }
            frac_digits.push(digit);
            k = k + 1;
            proof {
                lemma_frac_step(
                    old_frac,
                    digit,
                    old_rem,
                    rem as int,
                    den as int,
                    radix as int,
                    rem0 as int,
                );
                if rem == 0 {
                    assert((digit as int) * (den as int) > 0) by (nonlinear_arith)
                        requires
                            old_rem * (radix as int) == (digit as int) * (den as int),
                            old_rem > 0,
                            radix >= 2,
                    ;
                    assert(digit != 0) by (nonlinear_arith)
                        requires
                            (digit as int) * (den as int) > 0,
                            den > 0,
                            digit >= 0,
                    ;
                    assert(frac_digits@.last() == digit);
                }
            }
        }
        let exact: bool = rem == 0;
        proof {
            lemma_assemble(
                mag as int,
                ipart as int,
                rem0 as int,
                rem as int,
                den as int,
                radix as int,
                digits_val(int_digits@, radix as int),
                digits_val(frac_digits@, radix as int),
                frac_digits@.len() as nat,
            );
        }
        BaseDigits { sign, int_digits, frac_digits, exact }
    }
}

/// Exactness of rendering: a rational whose positional expansion in a
/// base terminates is denoted exactly by its rendered digits, so
/// re-accumulating them — the integer digits by multiply-and-add from
/// the most significant one, the fraction digits at successive places —
/// gives the same number back.
pub proof fn lemma_digits_roundtrip(
    v: Rat,
    rad: int,
    mf: int,
    sign: bool,
    ints: Seq<u64>,
    fracs: Seq<u64>,
)
    requires
        rat_wf(v),
        2 <= rad <= 36,
        base_digits_spec(v, rad, mf, sign, ints, fracs, true),
    ensures
        ({
            let k = fracs.len() as nat;
            let mag = Rat {
                n: digits_val(ints, rad) * pow_nat(rad, k) + digits_val(fracs, rad),
                d: pow_nat(rad, k),
            };
            let rebuilt = if sign {
                rat_neg(mag)
            } else {
                mag
            };
            rat_wf(rebuilt) && rat_eq(rebuilt, v)
        }),
{
    let k = fracs.len() as nat;
    lemma_pow_nat_pos(rad, k);
    let iv = digits_val(ints, rad);
    let fv = digits_val(fracs, rad);
    let p = pow_nat(rad, k);
    if sign {
        assert((-v.n) * p == (iv * p + fv) * v.d);
        assert((-(iv * p + fv)) * v.d == v.n * p) by (nonlinear_arith)
            requires
                (-v.n) * p == (iv * p + fv) * v.d,
        ;
    } else {
        assert(v.n * p == (iv * p + fv) * v.d);
        assert((iv * p + fv) * v.d == v.n * p);
    }
}

} // verus!
