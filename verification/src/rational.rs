//! Exact rational numbers with 64-bit components.
//!
//! The engine evaluates expressions over exact rationals rather than binary
//! floating point: a decimal literal is a rational, and `+ - * /` and integer
//! exponents keep results rational. Components are fixed-width (`i64`); an
//! operation whose unreduced result does not fit reports that instead of
//! returning a wrong value.

use vstd::prelude::*;

verus! {

use vstd::arithmetic::power::pow;
use crate::strutil::{chars_to_string, decimal_digits, push_decimal};

/// The textual form of a rational: the numerator in decimal with its sign,
/// then `/` and the denominator in decimal unless the denominator is one.
pub open spec fn rat_text(v: RatV) -> Seq<char> {
    let sign: Seq<char> = if v.num < 0 {
        seq!['-']
    } else {
        Seq::empty()
    };
    let mag = decimal_digits(vstd::math::abs(v.num));
    if v.den == 1 {
        sign + mag
    } else {
        sign + mag + seq!['/'] + decimal_digits(v.den as nat)
    }
}

/// Mathematical value of a [`Rational`]: an integer numerator over a
/// positive integer denominator. The pair is not reduced; two values are
/// the same number when they cross-multiply equally.
pub ghost struct RatV {
    pub num: int,
    pub den: int,
}

/// A well-formed rational value: positive denominator.
pub open spec fn rat_wf(v: RatV) -> bool {
    v.den >= 1
}

/// Both components of the unreduced pair fit in `i64` (with a positive
/// denominator); this is exactly when the executable operations succeed.
pub open spec fn rat_fits(v: RatV) -> bool {
    &&& i64::MIN <= v.num <= i64::MAX
    &&& 1 <= v.den <= i64::MAX
}

pub open spec fn rat_int(n: int) -> RatV {
    RatV { num: n, den: 1 }
}

pub open spec fn rat_add(a: RatV, b: RatV) -> RatV {
    RatV { num: a.num * b.den + b.num * a.den, den: a.den * b.den }
}

pub open spec fn rat_sub(a: RatV, b: RatV) -> RatV {
    RatV { num: a.num * b.den - b.num * a.den, den: a.den * b.den }
}

pub open spec fn rat_mul(a: RatV, b: RatV) -> RatV {
    RatV { num: a.num * b.num, den: a.den * b.den }
}

/// Division `a / b`, with the sign moved onto the numerator so that the
/// denominator stays positive. Meaningful when `b.num != 0`.
pub open spec fn rat_div(a: RatV, b: RatV) -> RatV {
    if b.num >= 0 {
        RatV { num: a.num * b.den, den: a.den * b.num }
    } else {
        RatV { num: -(a.num * b.den), den: -(a.den * b.num) }
    }
}

/// Reciprocal, sign-normalized. Meaningful when `v.num != 0`.
pub open spec fn rat_recip(v: RatV) -> RatV {
    if v.num >= 0 {
        RatV { num: v.den, den: v.num }
    } else {
        RatV { num: -v.den, den: -v.num }
    }
}

/// `v` raised to a natural power, componentwise.
pub open spec fn rat_pow_nat(v: RatV, k: nat) -> RatV {
    RatV { num: pow(v.num, k), den: pow(v.den, k) }
}

/// `v` raised to an integer power: a nonnegative exponent powers the
/// components, a negative exponent powers and then takes the reciprocal.
pub open spec fn rat_pow_int(v: RatV, e: int) -> RatV {
    if e >= 0 {
        rat_pow_nat(v, e as nat)
    } else {
        rat_recip(rat_pow_nat(v, (-e) as nat))
    }
}

/// `v` is an integer, i.e. its denominator divides its numerator.
pub open spec fn rat_is_int(v: RatV) -> bool {
    v.num % v.den == 0
}

/// The integer a rational with `rat_is_int` stands for.
pub open spec fn rat_int_val(v: RatV) -> int {
    v.num / v.den
}

/// An exact rational with 64-bit numerator and (positive) denominator.
/// The pair is kept exactly as the defining operation produced it; it is
/// not reduced to lowest terms.
#[derive(Clone, Copy, Debug, PartialEq, Eq, Structural)]
pub struct Rational {
    num: i64,
    den: i64,
}

impl View for Rational {
    type V = RatV;

    closed spec fn view(&self) -> RatV {
        RatV { num: self.num as int, den: self.den as int }
    }
}

impl Rational {
    #[verifier::type_invariant]
    spec fn type_inv(self) -> bool {
        self.den >= 1
    }

    /// The rational `n / 1`.
    pub fn from_integer(n: i64) -> (r: Rational)
        ensures
            r@ == rat_int(n as int),
    {
        Rational { num: n, den: 1 }
    }

    /// The rational `num / den`; `None` when `den` is not positive.
    pub fn new(num: i64, den: i64) -> (r: Option<Rational>)
        ensures
            den >= 1 ==> (r matches Some(x) && x@ == (RatV { num: num as int, den: den as int })),
            den < 1 ==> r is None,
    {
        if den >= 1 {
            Some(Rational { num, den })
        } else {
            None
        }
    }

    pub fn numerator(&self) -> (n: i64)
        ensures
            n as int == self@.num,
    {
        self.num
    }

    pub fn denominator(&self) -> (d: i64)
        ensures
            d as int == self@.den,
            d >= 1,
    {
        proof {
            use_type_invariant(self);
        }
        self.den
    }

    /// The textual form of this rational, per [`rat_text`].
    pub fn to_text(&self) -> (r: String)
        ensures
            r@ == rat_text(self@),
    {
        proof {
            use_type_invariant(self);
        }
        let mut out: Vec<char> = Vec::new();
        let neg = self.num < 0;
        if neg {
            out.push('-');
        }
        let mag: u64 = if neg {
            (-(self.num as i128)) as u64
        } else {
            self.num as u64
        };
        proof {
            assert(mag as nat == vstd::math::abs(self@.num));
        }
        push_decimal(mag, &mut out);
        if self.den != 1 {
            out.push('/');
            push_decimal(self.den as u64, &mut out);
        }
        proof {
            assert(out@ =~= rat_text(self@));
        }
        chars_to_string(&out)
    }

    /// Builds a rational out of wide intermediate components, reporting
    /// `None` exactly when they do not fit in 64 bits.
    fn make(n: i128, d: i128) -> (r: Option<Rational>)
        ensures
            match r {
                Some(x) => rat_fits(RatV { num: n as int, den: d as int }) && x@ == (RatV {
                    num: n as int,
                    den: d as int,
                }),
                None => !rat_fits(RatV { num: n as int, den: d as int }),
            },
    {
        if i64::MIN as i128 <= n && n <= i64::MAX as i128 && 1 <= d && d <= i64::MAX as i128 {
            Some(Rational { num: n as i64, den: d as i64 })
        } else {
            None
        }
    }

    /// `self + other` as the unreduced pair; `None` exactly when that pair
    /// does not fit.
    pub fn checked_add(self, other: Rational) -> (r: Option<Rational>)
        ensures
            match r {
                Some(x) => rat_fits(rat_add(self@, other@)) && x@ == rat_add(self@, other@),
                None => !rat_fits(rat_add(self@, other@)),
            },
    {
        proof {
            use_type_invariant(self);
            use_type_invariant(other);
            lemma_num_den_bounds(self.num as int, other.den as int);
            lemma_num_den_bounds(other.num as int, self.den as int);
            lemma_num_den_bounds(self.den as int, other.den as int);
        }
        let n: i128 = self.num as i128 * other.den as i128 + other.num as i128 * self.den as i128;
        let d: i128 = self.den as i128 * other.den as i128;
        Self::make(n, d)
    }

    /// `self - other` as the unreduced pair; `None` exactly when that pair
    /// does not fit.
    pub fn checked_sub(self, other: Rational) -> (r: Option<Rational>)
        ensures
            match r {
                Some(x) => rat_fits(rat_sub(self@, other@)) && x@ == rat_sub(self@, other@),
                None => !rat_fits(rat_sub(self@, other@)),
            },
    {
        proof {
            use_type_invariant(self);
            use_type_invariant(other);
            lemma_num_den_bounds(self.num as int, other.den as int);
            lemma_num_den_bounds(other.num as int, self.den as int);
            lemma_num_den_bounds(self.den as int, other.den as int);
        }
        let n: i128 = self.num as i128 * other.den as i128 - other.num as i128 * self.den as i128;
        let d: i128 = self.den as i128 * other.den as i128;
        Self::make(n, d)
    }

    /// `self * other` as the unreduced pair; `None` exactly when that pair
    /// does not fit.
    pub fn checked_mul(self, other: Rational) -> (r: Option<Rational>)
        ensures
            match r {
                Some(x) => rat_fits(rat_mul(self@, other@)) && x@ == rat_mul(self@, other@),
                None => !rat_fits(rat_mul(self@, other@)),
            },
    {
        proof {
            use_type_invariant(self);
            use_type_invariant(other);
            lemma_prod_bounds(self.num as int, other.num as int);
            lemma_num_den_bounds(self.den as int, other.den as int);
        }
        let n: i128 = self.num as i128 * other.num as i128;
        let d: i128 = self.den as i128 * other.den as i128;
        Self::make(n, d)
    }

    /// `self / other` as the sign-normalized unreduced pair; `None` exactly
    /// when that pair does not fit. The caller rules out a zero divisor.
    pub fn checked_div(self, other: Rational) -> (r: Option<Rational>)
        requires
            other@.num != 0,
        ensures
            match r {
                Some(x) => rat_fits(rat_div(self@, other@)) && x@ == rat_div(self@, other@),
                None => !rat_fits(rat_div(self@, other@)),
            },
    {
        proof {
            use_type_invariant(self);
            use_type_invariant(other);
            lemma_num_den_bounds(self.num as int, other.den as int);
            lemma_prod_bounds(self.den as int, other.num as int);
        }
        let n: i128 = self.num as i128 * other.den as i128;
        let d: i128 = self.den as i128 * other.num as i128;
        if other.num >= 0 {
            Self::make(n, d)
        } else {
            Self::make(-n, -d)
        }
    }

    /// The integer this rational stands for, or `None` when it is not an
    /// integer.
    pub fn as_integer(self) -> (r: Option<i64>)
        ensures
            match r {
                Some(q) => rat_is_int(self@) && q as int == rat_int_val(self@),
                None => !rat_is_int(self@),
            },
    {
        proof {
            use_type_invariant(self);
        }
        let neg = self.num < 0;
        let a_abs: u64 = if neg {
            (-(self.num as i128)) as u64
        } else {
            self.num as u64
        };
        let d: u64 = self.den as u64;
        let q_abs: u64 = a_abs / d;
        proof {
            vstd::arithmetic::div_mod::lemma_fundamental_div_mod(a_abs as int, d as int);
            vstd::arithmetic::div_mod::lemma_mod_division_less_than_divisor(
                a_abs as int,
                d as int,
            );
            assert(q_abs as int * d as int <= a_abs as int && q_abs as int <= a_abs as int)
                by (nonlinear_arith)
                requires
                    d as int >= 1,
                    q_abs as int >= 0,
                    a_abs as int == d as int * (q_abs as int) + (a_abs as int % d as int),
                    a_abs as int % d as int >= 0,
            ;
        }
        if q_abs as u128 * d as u128 == a_abs as u128 {
            proof {
                lemma_exact_div_signed(self.num as int, self.den as int, q_abs as int, neg);
            }
            if neg {
                Some((-(q_abs as i128)) as i64)
            } else {
                Some(q_abs as i64)
            }
        } else {
            proof {
                lemma_inexact_div_signed(self.num as int, self.den as int, q_abs as int, neg);
            }
            None
        }
    }

    /// `self` raised to the integer power `e`; `None` exactly when the
    /// resulting pair does not fit. The caller rules out a zero base with a
    /// negative exponent.
    pub fn checked_pow(self, e: i64) -> (r: Option<Rational>)
        requires
            e < 0 ==> self@.num != 0,
        ensures
            match r {
                Some(x) => rat_fits(rat_pow_int(self@, e as int)) && x@ == rat_pow_int(
                    self@,
                    e as int,
                ),
                None => !rat_fits(rat_pow_int(self@, e as int)),
            },
    {
        proof {
            use_type_invariant(self);
        }
        if e >= 0 {
            self.pow_nat(e as u64)
        } else {
            let k: u64 = (-(e as i128)) as u64;
            proof {
                lemma_recip_pow_swap(self@, k as nat);
            }
            if self.num == i64::MIN {
                proof {
                    lemma_min_recip_pow(self@, k as nat);
                }
                None
            } else {
                let rv = if self.num >= 1 {
                    Rational { num: self.den, den: self.num }
                } else {
                    Rational { num: -self.den, den: -self.num }
                };
                rv.pow_nat(k)
            }
        }
    }

    /// `self` raised to a natural power; `None` exactly when the resulting
    /// pair does not fit.
    fn pow_nat(self, k: u64) -> (r: Option<Rational>)
        ensures
            match r {
                Some(x) => rat_fits(rat_pow_nat(self@, k as nat)) && x@ == rat_pow_nat(
                    self@,
                    k as nat,
                ),
                None => !rat_fits(rat_pow_nat(self@, k as nat)),
            },
    {
        proof {
            use_type_invariant(self);
        }
        // Closed forms for the bases whose powers never grow, so that the
        // loop below always stops after a few iterations.
        if self.den == 1 && -1 <= self.num && self.num <= 1 {
            proof {
                lemma_pow_small_base(self.num as int, k as nat);
                lemma_pow_small_base(1, k as nat);
            }
            if self.num == 1 {
                return Some(Rational { num: 1, den: 1 });
            }
            if self.num == 0 {
                if k == 0 {
                    return Some(Rational { num: 1, den: 1 });
                }
                return Some(Rational { num: 0, den: 1 });
            }
            if k % 2 == 0 {
                return Some(Rational { num: 1, den: 1 });
            }
            return Some(Rational { num: -1, den: 1 });
        }
        let mut cur = Rational { num: 1, den: 1 };
        let mut i: u64 = 0;
        proof {
            vstd::arithmetic::power::lemma_pow0(self@.num);
            vstd::arithmetic::power::lemma_pow0(self@.den);
        }
        while i < k
            invariant
                i <= k,
                cur@ == rat_pow_nat(self@, i as nat),
                rat_wf(self@),
                rat_fits(self@),
            decreases k - i,
        {
            proof {
                use_type_invariant(cur);
                use_type_invariant(self);
                lemma_prod_bounds(cur.num as int, self.num as int);
                lemma_num_den_bounds(cur.den as int, self.den as int);
                lemma_pow_unfold(self@, i as nat);
            }
            let n: i128 = cur.num as i128 * self.num as i128;
            let d: i128 = cur.den as i128 * self.den as i128;
            match Self::make(n, d) {
                Some(next) => {
                    cur = next;
                },
                None => {
                    proof {
                        lemma_pow_fits_mono(self@, (i + 1) as nat, k as nat);
                    }
                    return None;
                },
            }
            i = i + 1;
        }
        proof {
            use_type_invariant(cur);
            assert(rat_fits(cur@));
        }
        Some(cur)
    }
}

/// The product of two values in `i64` range stays inside `i128`.
proof fn lemma_prod_bounds(a: int, b: int)
    requires
        i64::MIN <= a <= i64::MAX,
        i64::MIN <= b <= i64::MAX,
    ensures
        -0x4000_0000_0000_0000_0000_0000_0000_0000 <= a * b
            <= 0x4000_0000_0000_0000_0000_0000_0000_0000,
{
    assert(-0x4000_0000_0000_0000_0000_0000_0000_0000 <= a * b
        <= 0x4000_0000_0000_0000_0000_0000_0000_0000) by (nonlinear_arith)
        requires
            i64::MIN <= a <= i64::MAX,
            i64::MIN <= b <= i64::MAX,
    ;
}

/// The product of a value in `i64` range with a positive denominator stays
/// far enough inside `i128` that two such products can be added.
proof fn lemma_num_den_bounds(a: int, b: int)
    requires
        i64::MIN <= a <= i64::MAX,
        1 <= b <= i64::MAX,
    ensures
        -0x3FFF_FFFF_FFFF_FFFF_8000_0000_0000_0000 <= a * b
            <= 0x3FFF_FFFF_FFFF_FFFF_8000_0000_0000_0000,
{
    assert(-0x3FFF_FFFF_FFFF_FFFF_8000_0000_0000_0000 <= a * b
        <= 0x3FFF_FFFF_FFFF_FFFF_8000_0000_0000_0000) by (nonlinear_arith)
        requires
            i64::MIN <= a <= i64::MAX,
            1 <= b <= i64::MAX,
    ;
}

/// An exact unsigned quotient transfers to the signed dividend: the value is
/// divisible and the signed quotient is the unsigned one with the sign put
/// back.
proof fn lemma_exact_div_signed(a: int, d: int, q: int, neg: bool)
    requires
        d >= 1,
        q >= 0,
        neg ==> a < 0 && q * d == -a,
        !neg ==> a >= 0 && q * d == a,
    ensures
        a % d == 0,
        neg ==> a / d == -q,
        !neg ==> a / d == q,
{
    if neg {
        assert((-q) * d == a) by (nonlinear_arith)
            requires
                q * d == -a,
        ;
        vstd::arithmetic::div_mod::lemma_fundamental_div_mod_converse(a, d, -q, 0);
    } else {
        vstd::arithmetic::div_mod::lemma_fundamental_div_mod_converse(a, d, q, 0);
    }
}

/// An inexact unsigned quotient means the signed dividend is not divisible.
proof fn lemma_inexact_div_signed(a: int, d: int, q: int, neg: bool)
    requires
        d >= 1,
        q >= 0,
        neg ==> a < 0 && q == (-a) / d && q * d != -a,
        !neg ==> a >= 0 && q == a / d && q * d != a,
    ensures
        a % d != 0,
{
    let m = if neg {
        -a
    } else {
        a
    };
    vstd::arithmetic::div_mod::lemma_fundamental_div_mod(m, d);
    let r = m % d;
    vstd::arithmetic::div_mod::lemma_mod_bound(m, d);
    assert(m == d * q + r);
    assert(r != 0) by {
        if r == 0 {
            assert(q * d == m) by (nonlinear_arith)
                requires
                    m == d * q + r,
                    r == 0,
            ;
        }
    }
    if neg {
        assert(a == d * (-q - 1) + (d - r)) by (nonlinear_arith)
            requires
                m == d * q + r && a == -m,
        ;
        vstd::arithmetic::div_mod::lemma_fundamental_div_mod_converse(a, d, -q - 1, d - r);
    }
}

/// Closed forms for powers of -1, 0 and 1.
proof fn lemma_pow_small_base(b: int, k: nat)
    requires
        -1 <= b <= 1,
    ensures
        b == 1 ==> pow(b, k) == 1,
        b == 0 && k == 0 ==> pow(b, k) == 1,
        b == 0 && k >= 1 ==> pow(b, k) == 0,
        b == -1 && k % 2 == 0 ==> pow(b, k) == 1,
        b == -1 && k % 2 == 1 ==> pow(b, k) == -1,
    decreases k,
{
    reveal(pow);
    if k > 0 {
        lemma_pow_small_base(b, (k - 1) as nat);
    }
}

/// A zero base raised to a positive exponent is zero.
proof fn lemma_pow_zero_base(k: nat)
    requires
        k >= 1,
    ensures
        pow(0, k) == 0,
{
    lemma_pow_small_base(0, k);
}

/// One unfolding step of the componentwise power.
proof fn lemma_pow_unfold(v: RatV, i: nat)
    ensures
        rat_pow_nat(v, i + 1) == (RatV {
            num: rat_pow_nat(v, i).num * v.num,
            den: rat_pow_nat(v, i).den * v.den,
        }),
{
    reveal(pow);
    assert(pow(v.num, i + 1) == v.num * pow(v.num, i));
    assert(pow(v.den, i + 1) == v.den * pow(v.den, i));
    assert(v.num * pow(v.num, i) == pow(v.num, i) * v.num) by (nonlinear_arith);
    assert(v.den * pow(v.den, i) == pow(v.den, i) * v.den) by (nonlinear_arith);
}

/// The absolute value of a power is the power of the absolute value.
proof fn lemma_pow_abs(b: int, k: nat)
    ensures
        vstd::math::abs(pow(b, k)) == pow(vstd::math::abs(b) as int, k),
    decreases k,
{
    reveal(pow);
    if k > 0 {
        lemma_pow_abs(b, (k - 1) as nat);
        let p1 = pow(b, (k - 1) as nat);
        let a = vstd::math::abs(b) as int;
        assert(pow(b, k) == b * p1);
        assert(pow(a, k) == a * pow(a, (k - 1) as nat));
        assert(vstd::math::abs(b * p1) == vstd::math::abs(b) * vstd::math::abs(p1))
            by (nonlinear_arith);
    }
}

/// Componentwise powers of a well-formed value only grow with the exponent,
/// so once a power fails to fit no later power fits.
proof fn lemma_pow_fits_mono(v: RatV, k1: nat, k2: nat)
    requires
        rat_wf(v),
        rat_fits(v),
        k1 <= k2,
        !rat_fits(rat_pow_nat(v, k1)),
    ensures
        !rat_fits(rat_pow_nat(v, k2)),
{
    if k1 == k2 {
        return ;
    }
    // Denominator: positive and nondecreasing in the exponent.
    vstd::arithmetic::power::lemma_pow_positive(v.den, k1);
    vstd::arithmetic::power::lemma_pow_positive(v.den, k2);
    vstd::arithmetic::power::lemma_pow_increases(v.den as nat, k1, k2);
    if pow(v.den, k1) > i64::MAX {
        return ;
    }
    // Numerator must be the component out of range.
    lemma_pow_abs(v.num, k1);
    lemma_pow_abs(v.num, k2);
    let a = vstd::math::abs(v.num) as int;
    if a == 0 {
        if k1 >= 1 {
            lemma_pow_zero_base(k1);
        } else {
            vstd::arithmetic::power::lemma_pow0(v.num);
        }
        // pow(0, k1) is 0 or 1, which fits: contradiction with the
        // hypothesis, so this case is vacuous.
        assert(rat_fits(rat_pow_nat(v, k1)));
    } else if a == 1 {
        vstd::arithmetic::power::lemma1_pow(k1);
        assert(vstd::math::abs(pow(v.num, k1)) == 1);
        assert(rat_fits(rat_pow_nat(v, k1)));
    } else {
        vstd::arithmetic::power::lemma_pow_strictly_increases(a as nat, k1, k2);
        assert(vstd::math::abs(pow(v.num, k1)) >= 0x8000_0000_0000_0000);
        assert(vstd::math::abs(pow(v.num, k2)) > 0x8000_0000_0000_0000);
        assert(!rat_fits(rat_pow_nat(v, k2)));
    }
}

/// Powering commutes with the sign-normalized reciprocal: for a nonzero
/// well-formed value, the reciprocal of the `k`-th power is the `k`-th power
/// of the reciprocal, as identical pairs.
proof fn lemma_recip_pow_swap(v: RatV, k: nat)
    requires
        rat_wf(v),
        v.num != 0,
    ensures
        rat_recip(rat_pow_nat(v, k)) == rat_pow_nat(rat_recip(v), k),
{
    vstd::arithmetic::power::lemma_pow_positive(v.den, k);
    if v.num >= 1 {
        vstd::arithmetic::power::lemma_pow_positive(v.num, k);
    } else {
        lemma_pow_neg(v.num, k);
        lemma_pow_neg(-v.den, k);
        vstd::arithmetic::power::lemma_pow_positive(-v.num, k);
    }
}

/// Powers of a negated base: negate the power for odd exponents.
proof fn lemma_pow_neg(b: int, k: nat)
    ensures
        k % 2 == 0 ==> pow(b, k) == pow(-b, k),
        k % 2 == 1 ==> pow(b, k) == -pow(-b, k),
    decreases k,
{
    reveal(pow);
    if k > 0 {
        lemma_pow_neg(b, (k - 1) as nat);
        let p1 = pow(b, (k - 1) as nat);
        let q1 = pow(-b, (k - 1) as nat);
        assert(pow(b, k) == b * p1);
        assert(pow(-b, k) == (-b) * q1);
        if (k - 1) % 2 == 0 {
            assert(b * p1 == -((-b) * p1)) by (nonlinear_arith);
        } else {
            assert(b * (-q1) == (-b) * q1) by (nonlinear_arith);
        }
    }
}

/// With the smallest numerator, the reciprocal of any positive power has a
/// denominator too large to fit.
proof fn lemma_min_recip_pow(v: RatV, k: nat)
    requires
        rat_wf(v),
        v.num == i64::MIN,
        k >= 1,
    ensures
        !rat_fits(rat_recip(rat_pow_nat(v, k))),
{
    lemma_pow_abs(v.num, k);
    let a = vstd::math::abs(v.num) as int;
    vstd::arithmetic::power::lemma_pow_increases(a as nat, 1, k);
    vstd::arithmetic::power::lemma_pow1(a);
    assert(vstd::math::abs(pow(v.num, k)) >= a);
    vstd::arithmetic::power::lemma_pow_positive(v.den, k);
}

} // verus!
