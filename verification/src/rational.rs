//! Exact fractions over `i128`, always kept in lowest terms with a positive
//! denominator so that equal numbers are equal values.

use vstd::prelude::*;

use crate::arith::{
    abs, gcd, lemma_normalize, lemma_reduced_unique, same_value, lemma_gcd_divides, lemma_normalize_positive, lemma_normalize_reduced, normalize,
    qadd, qdiv_int, qmul_int, qneg, reduced,
};
use crate::ledger::LedgerError;
use crate::render::{push_signed_decimal, push_text, signed_decimal};

verus! {

/// Whether an integer fits in an `i128`.
pub open spec fn fits_i128(x: int) -> bool {
    i128::MIN <= x <= i128::MAX
}

/// An exact fraction in lowest terms; its view is (numerator, denominator).
#[derive(Debug, Clone, Copy, PartialEq, Eq, Structural)]
pub struct Rational {
    numerator: i128,
    denominator: i128,
}

impl View for Rational {
    type V = (int, int);

    closed spec fn view(&self) -> (int, int) {
        (self.numerator as int, self.denominator as int)
    }
}

/// The greatest common divisor of two machine words, and one when both are
/// zero.
fn gcd_u128(a: u128, b: u128) -> (g: u128)
    requires
        a > 0 || b > 0,
    ensures
        g == gcd(a as nat, b as nat),
        g > 0,
{
    let mut left = a;
    let mut right = b;
    while right != 0
        invariant
            gcd(left as nat, right as nat) == gcd(a as nat, b as nat),
        decreases right,
    {
        let remainder = left % right;
        left = right;
        right = remainder;
    }
    proof {
        lemma_gcd_divides(a as nat, b as nat);
    }
    if left == 0 {
        1
    } else {
        left
    }
}

impl Rational {
    /// Every value is in lowest terms with a positive denominator.
    #[verifier::type_invariant]
    pub open spec fn in_lowest_terms(self) -> bool {
        reduced(self@.0, self@.1)
    }

    /// Two values are equal exactly when their views are.
    pub proof fn lemma_view_injective(a: Rational, b: Rational)
        ensures
            (a@ == b@) <==> (a == b),
    {
    }

    /// Zero.
    pub fn zero() -> (r: Self)
        ensures
            r@ == (0int, 1int),
    {
        proof {
            assert(gcd(0, 1) == 1) by {
                assert(gcd(1, 0) == 1);
            }
        }
        Rational { numerator: 0, denominator: 1 }
    }

    /// `numerator / denominator` in lowest terms. Refused when the
    /// denominator is zero, or negative with a side that cannot be negated.
    pub fn new(numerator: i128, denominator: i128) -> (result: Result<Self, LedgerError>)
        ensures
            result is Err <==> (denominator == 0 || (denominator < 0 && (numerator == i128::MIN
                || denominator == i128::MIN))),
            result matches Err(e) ==> e == LedgerError::ArithmeticOverflow,
            result matches Ok(r) ==> r@ == normalize(numerator as int, denominator as int),
    {
        if denominator == 0 {
            return Err(LedgerError::ArithmeticOverflow);
        }
        let (n, d) = if denominator < 0 {
            if numerator == i128::MIN || denominator == i128::MIN {
                return Err(LedgerError::ArithmeticOverflow);
            }
            (-numerator, -denominator)
        } else {
            (numerator, denominator)
        };
        proof {
            assert(normalize(numerator as int, denominator as int) == normalize(n as int, d as int));
            lemma_normalize_positive(n as int, d as int);
        }
        let abs_n: u128 = if n >= 0 {
            n as u128
        } else {
            ((-(n + 1)) as u128) + 1
        };
        let d_u: u128 = d as u128;
        let g = gcd_u128(abs_n, d_u);
        let q = abs_n / g;
        let dq = d_u / g;
        proof {
            let gi = g as int;
            assert(abs_n as nat == abs(n as int));
            lemma_gcd_divides(abs_n as nat, d_u as nat);
            assert(normalize(n as int, d as int) == ((n as int) / gi, (d as int) / gi));
            assert(q as int == (abs_n as int) / gi);
            vstd::arithmetic::div_mod::lemma_fundamental_div_mod(abs_n as int, gi);
            vstd::arithmetic::div_mod::lemma_fundamental_div_mod(n as int, gi);
            if n < 0 {
                assert((n as int) / gi == -(q as int)) by (nonlinear_arith)
                    requires
                        abs_n == -n,
                        abs_n as int == gi * (q as int) + 0,
                        n as int == gi * ((n as int) / gi) + 0,
                        gi > 0,
                ;
            }
        }
        let num: i128 = if n < 0 {
            if q == 0x8000_0000_0000_0000_0000_0000_0000_0000u128 {
                i128::MIN
            } else {
                -(q as i128)
            }
        } else {
            q as i128
        };
        Ok(Rational { numerator: num, denominator: dq as i128 })
    }

    /// The integer `value` as a fraction.
    pub fn from_integer(value: i128) -> (r: Self)
        ensures
            r@ == (value as int, 1int),
    {
        proof {
            assert(gcd(abs(value as int), 1) == 1) by {
                assert(gcd(1, abs(value as int) % 1) == 1) by {
                    assert(abs(value as int) % 1 == 0);
                    assert(gcd(1, 0) == 1);
                }
            }
        }
        Rational { numerator: value, denominator: 1 }
    }

    pub fn numerator(self) -> (n: i128)
        ensures
            n == self@.0,
    {
        self.numerator
    }

    /// The denominator, which is always positive.
    pub fn denominator(self) -> (d: i128)
        ensures
            d == self@.1,
            d > 0,
    {
        proof {
            use_type_invariant(&self);
        }
        self.denominator
    }
}

/// The product of two values of `i64` range fits in an `i128`.
pub proof fn lemma_i64_product_fits(a: int, b: int)
    requires
        i64::MIN <= a <= i64::MAX,
        i64::MIN <= b <= i64::MAX,
    ensures
        fits_i128(a * b),
        -0x4000_0000_0000_0000_0000_0000_0000_0000 <= a * b <= 0x4000_0000_0000_0000_0000_0000_0000_0000,
{
    assert(-0x4000_0000_0000_0000_0000_0000_0000_0000 <= a * b <= 0x4000_0000_0000_0000_0000_0000_0000_0000)
        by (nonlinear_arith)
        requires
            -0x8000_0000_0000_0000 <= a <= 0x8000_0000_0000_0000,
            -0x8000_0000_0000_0000 <= b <= 0x8000_0000_0000_0000,
    ;
}

/// Whether the cross products that the sum of `a` and `b` needs all fit.
pub open spec fn add_fits(a: (int, int), b: (int, int)) -> bool {
    &&& fits_i128(a.0 * b.1)
    &&& fits_i128(b.0 * a.1)
    &&& fits_i128(a.0 * b.1 + b.0 * a.1)
    &&& fits_i128(a.1 * b.1)
}

/// The sum as `checked_add` computes it: `None` on overflow.
pub open spec fn q_add_checked(a: (int, int), b: (int, int)) -> Option<(int, int)> {
    if add_fits(a, b) {
        Some(qadd(a, b))
    } else {
        None
    }
}

/// The difference as `checked_sub` computes it: `None` on overflow.
pub open spec fn q_sub_checked(a: (int, int), b: (int, int)) -> Option<(int, int)> {
    if b.0 == i128::MIN {
        None
    } else {
        q_add_checked(a, qneg(b))
    }
}

/// The product as `checked_mul_integer` computes it: `None` on overflow.
pub open spec fn q_mul_int_checked(a: (int, int), k: int) -> Option<(int, int)> {
    if fits_i128(a.0 * k) {
        Some(qmul_int(a, k))
    } else {
        None
    }
}

/// The quotient as `checked_div_integer` computes it: `None` for a zero
/// divisor or on overflow.
pub open spec fn q_div_int_checked(a: (int, int), k: int) -> Option<(int, int)> {
    if k == 0 || !fits_i128(a.1 * k) || (a.1 * k < 0 && (a.0 == i128::MIN || a.1 * k == i128::MIN)) {
        None
    } else {
        Some(qdiv_int(a, k))
    }
}

impl Rational {
    /// `self + rhs`, refused when an intermediate product or sum overflows.
    pub fn checked_add(self, rhs: Self) -> (result: Result<Self, LedgerError>)
        ensures
            result is Err <==> q_add_checked(self@, rhs@) is None,
            result matches Err(e) ==> e == LedgerError::ArithmeticOverflow,
            result matches Ok(r) ==> q_add_checked(self@, rhs@) == Some(r@),
    {
        proof {
            use_type_invariant(&self);
            use_type_invariant(&rhs);
        }
        let left = match self.numerator.checked_mul(rhs.denominator) {
            Some(v) => v,
            None => return Err(LedgerError::ArithmeticOverflow),
        };
        let right = match rhs.numerator.checked_mul(self.denominator) {
            Some(v) => v,
            None => return Err(LedgerError::ArithmeticOverflow),
        };
        let numerator = match left.checked_add(right) {
            Some(v) => v,
            None => return Err(LedgerError::ArithmeticOverflow),
        };
        let denominator = match self.denominator.checked_mul(rhs.denominator) {
            Some(v) => v,
            None => return Err(LedgerError::ArithmeticOverflow),
        };
        proof {
            let d1 = self@.1;
            let d2 = rhs@.1;
            assert(d1 * d2 > 0) by (nonlinear_arith)
                requires
                    d1 > 0,
                    d2 > 0,
            ;
        }
        Self::new(numerator, denominator)
    }

    /// `self - rhs`, refused when `rhs` cannot be negated or the sum
    /// overflows.
    pub fn checked_sub(self, rhs: Self) -> (result: Result<Self, LedgerError>)
        ensures
            result is Err <==> q_sub_checked(self@, rhs@) is None,
            result matches Err(e) ==> e == LedgerError::ArithmeticOverflow,
            result matches Ok(r) ==> q_sub_checked(self@, rhs@) == Some(r@),
    {
        proof {
            use_type_invariant(&rhs);
        }
        if rhs.numerator == i128::MIN {
            return Err(LedgerError::ArithmeticOverflow);
        }
        let negated = match Self::new(-rhs.numerator, rhs.denominator) {
            Ok(r) => r,
            Err(e) => return Err(e),
        };
        proof {
            assert(abs(-rhs@.0) == abs(rhs@.0));
            lemma_normalize_reduced(-rhs@.0, rhs@.1);
        }
        self.checked_add(negated)
    }

    /// `self * value`, refused when the numerator overflows.
    pub fn checked_mul_integer(self, value: i128) -> (result: Result<Self, LedgerError>)
        ensures
            result is Err <==> q_mul_int_checked(self@, value as int) is None,
            result matches Err(e) ==> e == LedgerError::ArithmeticOverflow,
            result matches Ok(r) ==> q_mul_int_checked(self@, value as int) == Some(r@),
    {
        proof {
            use_type_invariant(&self);
        }
        let numerator = match self.numerator.checked_mul(value) {
            Some(v) => v,
            None => return Err(LedgerError::ArithmeticOverflow),
        };
        Self::new(numerator, self.denominator)
    }

    /// `self / value`, refused for a zero divisor, an overflowing
    /// denominator, or a negative denominator that cannot be normalized.
    pub fn checked_div_integer(self, value: i128) -> (result: Result<Self, LedgerError>)
        ensures
            result is Err <==> q_div_int_checked(self@, value as int) is None,
            result matches Err(e) ==> e == LedgerError::ArithmeticOverflow,
            result matches Ok(r) ==> q_div_int_checked(self@, value as int) == Some(r@),
    {
        proof {
            use_type_invariant(&self);
        }
        if value == 0 {
            return Err(LedgerError::ArithmeticOverflow);
        }
        let denominator = match self.denominator.checked_mul(value) {
            Some(v) => v,
            None => return Err(LedgerError::ArithmeticOverflow),
        };
        proof {
            let d = self@.1;
            let v = value as int;
            assert(d * v != 0) by (nonlinear_arith)
                requires
                    d > 0,
                    v != 0,
            ;
        }
        Self::new(self.numerator, denominator)
    }
}

/// Multiplying by a nonzero integer and dividing by it again gives back the
/// same rational exactly, whenever both steps fit; dividing by zero is always
/// refused.
pub proof fn law_mul_then_div_round_trip(a: (int, int), k: int)
    requires
        reduced(a.0, a.1),
    ensures
        q_div_int_checked(a, 0) is None,
        k != 0 && q_mul_int_checked(a, k) is Some && q_div_int_checked(q_mul_int_checked(a, k)->Some_0, k) is Some
            ==> q_div_int_checked(q_mul_int_checked(a, k)->Some_0, k)->Some_0 == a,
{
    if k != 0 {
        if let Some(m) = q_mul_int_checked(a, k) {
            if let Some(r) = q_div_int_checked(m, k) {
                lemma_normalize(a.0 * k, a.1);
                assert(m.1 * k != 0) by (nonlinear_arith)
                    requires
                        m.1 > 0,
                        k != 0,
                ;
                lemma_normalize(m.0, m.1 * k);
                assert(same_value(r, a)) by (nonlinear_arith)
                    requires
                        r.0 * (m.1 * k) == m.0 * r.1,
                        m.0 * a.1 == (a.0 * k) * m.1,
                        m.1 > 0,
                        k != 0,
                        same_value(r, a) == (r.0 * a.1 == a.0 * r.1),
                {
                    assert((r.0 * a.1) * (m.1 * k) == (a.0 * r.1) * (m.1 * k));
                }
                assert(r == normalize(m.0, m.1 * k));
                assert(reduced(r.0, r.1));
                lemma_reduced_unique(r, a);
                assert(r == a);
            }
        }
    }
}

impl Rational {
    /// The value as text: the integer alone when the denominator is one,
    /// otherwise numerator and denominator in lowest terms around a slash.
    pub fn text(&self) -> (s: String)
        ensures
            s@ == if self@.1 == 1 {
                signed_decimal(self@.0)
            } else {
                signed_decimal(self@.0) + "/"@ + signed_decimal(self@.1)
            },
    {
        let mut s = String::new();
        push_signed_decimal(&mut s, self.numerator);
        if self.denominator != 1 {
            push_text(&mut s, "/");
            push_signed_decimal(&mut s, self.denominator);
        }
        proof {
            assert(Seq::<char>::empty() + signed_decimal(self@.0) =~= signed_decimal(self@.0));
            if self@.1 != 1 {
                assert(Seq::<char>::empty() + signed_decimal(self@.0) + "/"@ + signed_decimal(self@.1) =~= signed_decimal(self@.0) + "/"@ + signed_decimal(self@.1));
            }
        }
        s
    }
}

} // verus!
