//! Integers of any size: a sign and a magnitude.

use crate::bignat::BigNat;
use crate::divisibility::divides;
use vstd::prelude::*;

verus! {

/// An integer of any size.
#[derive(Debug)]
pub struct BigInt {
    negative: bool,
    magnitude: BigNat,
}

impl View for BigInt {
    type V = int;

    closed spec fn view(&self) -> int {
        if self.negative {
            -(self.magnitude@ as int)
        } else {
            self.magnitude@ as int
        }
    }
}

proof fn lemma_signed_product(a: int, b: int)
    by (nonlinear_arith)
    ensures
        (-a) * b == -(a * b),
        a * (-b) == -(a * b),
        (-a) * (-b) == a * b,
{
}

proof fn lemma_no_remainder(m: int, d: int, q: int, r: int, k: int)
    by (nonlinear_arith)
    requires
        0 < d,
        0 <= r < d,
        m == q * d + r,
        m == k * d,
    ensures
        r == 0,
{
}

proof fn lemma_ceiling(m: int, d: int, q: int, r: int)
    by (nonlinear_arith)
    requires
        0 < d,
        0 <= r < d,
        m == q * d + r,
    ensures
        (q + 1) * d > m,
        (q + 1 - 1) * d <= m,
        r == 0 ==> q * d >= m && (q - 1) * d < m,
        r > 0 ==> (q + 1) * d >= m && (q + 1 - 1) * d < m,
        (-q) * d >= -m,
        (-q - 1) * d < -m,
{
}

impl BigInt {
    /// Zero.
    pub fn zero() -> (n: BigInt)
        ensures
            n@ == 0,
    {
        BigInt { negative: false, magnitude: BigNat::zero() }
    }

    /// The integer `x`.
    pub fn from_i128(x: i128) -> (n: BigInt)
        ensures
            n@ == x,
    {
        if x < 0 {
            let m: u128 = (-(x + 1)) as u128 + 1;
            BigInt { negative: true, magnitude: BigNat::from_u128(m) }
        } else {
            BigInt { negative: false, magnitude: BigNat::from_u128(x as u128) }
        }
    }

    /// The integer `x`.
    pub fn from_i64(x: i64) -> (n: BigInt)
        ensures
            n@ == x,
    {
        BigInt::from_i128(x as i128)
    }

    /// The integer with the given sign and magnitude.
    pub fn from_parts(negative: bool, magnitude: BigNat) -> (n: BigInt)
        ensures
            n@ == if negative {
                -(magnitude@ as int)
            } else {
                magnitude@ as int
            },
    {
        BigInt { negative, magnitude }
    }

    /// A copy.
    pub fn copy(&self) -> (n: BigInt)
        ensures
            n@ == self@,
    {
        BigInt { negative: self.negative, magnitude: self.magnitude.copy() }
    }

    /// Whether the integer is zero.
    pub fn is_zero(&self) -> (z: bool)
        ensures
            z == (self@ == 0),
    {
        self.magnitude.is_zero()
    }

    /// Whether the integer is less than zero.
    pub fn is_negative(&self) -> (z: bool)
        ensures
            z == (self@ < 0),
    {
        self.negative && !self.magnitude.is_zero()
    }

    /// The absolute value.
    pub fn abs(&self) -> (m: BigNat)
        ensures
            m@ == if self@ < 0 {
                -self@
            } else {
                self@
            },
    {
        self.magnitude.copy()
    }

    /// The negation.
    pub fn neg(&self) -> (n: BigInt)
        ensures
            n@ == -self@,
    {
        BigInt { negative: !self.negative, magnitude: self.magnitude.copy() }
    }

    /// The sum.
    pub fn add(&self, other: &BigInt) -> (sum: BigInt)
        ensures
            sum@ == self@ + other@,
    {
        if self.negative == other.negative {
            BigInt { negative: self.negative, magnitude: self.magnitude.add(&other.magnitude) }
        } else if self.magnitude.order(&other.magnitude) >= 0 {
            BigInt { negative: self.negative, magnitude: self.magnitude.sub(&other.magnitude) }
        } else {
            BigInt { negative: other.negative, magnitude: other.magnitude.sub(&self.magnitude) }
        }
    }

    /// The difference.
    pub fn sub(&self, other: &BigInt) -> (difference: BigInt)
        ensures
            difference@ == self@ - other@,
    {
        let minus = other.neg();
        self.add(&minus)
    }

    /// The product.
    pub fn mul(&self, other: &BigInt) -> (product: BigInt)
        ensures
            product@ == self@ * other@,
    {
        proof {
            lemma_signed_product(self.magnitude@ as int, other.magnitude@ as int);
        }
        BigInt {
            negative: self.negative != other.negative,
            magnitude: self.magnitude.mul(&other.magnitude),
        }
    }

    /// The quotient by a divisor that divides the integer.
    pub fn div_exact(&self, divisor: &BigNat) -> (quotient: BigInt)
        requires
            divisor@ > 0,
            divides(divisor@ as int, self@),
        ensures
            self@ == quotient@ * divisor@,
    {
        let (q, r) = self.magnitude.div_rem(divisor);
        proof {
            let m = self.magnitude@ as int;
            let d = divisor@ as int;
            let k = choose|k: int| self@ == #[trigger] (k * d);
            lemma_signed_product(q@ as int, d);
            lemma_signed_product(k, d);
            lemma_no_remainder(m, d, q@ as int, r@ as int, if self.negative {
                -k
            } else {
                k
            });
        }
        BigInt { negative: self.negative, magnitude: q }
    }

    /// The least integer that is not below `self / divisor`.
    pub fn ceil_div(&self, divisor: &BigNat) -> (ceiling: BigInt)
        requires
            divisor@ > 0,
        ensures
            ceiling@ * divisor@ >= self@,
            (ceiling@ - 1) * divisor@ < self@,
    {
        let (q, r) = self.magnitude.div_rem(divisor);
        proof {
            lemma_ceiling(self.magnitude@ as int, divisor@ as int, q@ as int, r@ as int);
        }
        if self.negative {
            BigInt { negative: true, magnitude: q }
        } else if r.is_zero() {
            BigInt { negative: false, magnitude: q }
        } else {
            BigInt { negative: false, magnitude: q.mul_add_small(1, 1) }
        }
    }

    /// The integer as an `i64`, where it is in range.
    pub fn to_i64(&self) -> (small: Option<i64>)
        ensures
            match small {
                Some(x) => x == self@,
                None => self@ < i64::MIN || self@ > i64::MAX,
            },
    {
        match self.magnitude.to_u64() {
            None => None,
            Some(m) => {
                if self.negative {
                    if m <= 0x8000_0000_0000_0000 {
                        Some((-(m as i128)) as i64)
                    } else {
                        None
                    }
                } else {
                    if m <= 0x7fff_ffff_ffff_ffff {
                        Some(m as i64)
                    } else {
                        None
                    }
                }
            },
        }
    }
}

} // verus!
