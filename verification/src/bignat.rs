//! Natural numbers of any size, as little-endian sequences of 32-bit limbs.

use crate::divisibility::{divides, divides_both, is_gcd, lemma_divides_combine};
use vstd::prelude::*;

verus! {

/// The `k`-th power of the radix, two to the thirty-second.
pub open spec fn radix_pow(k: nat) -> nat
    decreases k,
{
    if k == 0 {
        1
    } else {
        0x1_0000_0000 * radix_pow((k - 1) as nat)
    }
}

/// The number that a little-endian sequence of limbs denotes.
pub open spec fn limbs_value(s: Seq<u32>) -> nat
    decreases s.len(),
{
    if s.len() == 0 {
        0
    } else {
        limbs_value(s.drop_last()) + (s.last() as nat) * radix_pow((s.len() - 1) as nat)
    }
}

/// The limb at position `i`, zero past the end.
pub open spec fn digit(s: Seq<u32>, i: nat) -> nat {
    if i < s.len() {
        s[i as int] as nat
    } else {
        0
    }
}

/// The number denoted by the lowest `i` limbs.
pub open spec fn low(s: Seq<u32>, i: nat) -> nat {
    if i < s.len() {
        limbs_value(s.take(i as int))
    } else {
        limbs_value(s)
    }
}

/// The number denoted by the limbs from position `j` upwards.
pub open spec fn high(s: Seq<u32>, j: nat) -> nat
    decreases s.len() - j,
{
    if j >= s.len() {
        0
    } else {
        (s[j as int] as nat) + 0x1_0000_0000 * high(s, j + 1)
    }
}

proof fn lemma_pow_positive(k: nat)
    ensures
        radix_pow(k) >= 1,
    decreases k,
{
    if k > 0 {
        lemma_pow_positive((k - 1) as nat);
    }
}

proof fn lemma_pow_add(j: nat, k: nat)
    ensures
        radix_pow(j + k) == radix_pow(j) * radix_pow(k),
    decreases k,
{
    if k == 0 {
        assert(radix_pow(j) * 1 == radix_pow(j));
    } else {
        lemma_pow_add(j, (k - 1) as nat);
        let a = radix_pow(j) as int;
        let b = radix_pow((k - 1) as nat) as int;
        assert(radix_pow(j + k) == 0x1_0000_0000 * radix_pow((j + k - 1) as nat));
        assert(0x1_0000_0000 * (a * b) == a * (0x1_0000_0000 * b)) by (nonlinear_arith);
    }
}

proof fn lemma_pow_monotonic(j: nat, k: nat)
    requires
        j <= k,
    ensures
        radix_pow(j) <= radix_pow(k),
    decreases k,
{
    if j < k {
        lemma_pow_monotonic(j, (k - 1) as nat);
        lemma_pow_positive((k - 1) as nat);
    }
}

proof fn lemma_mul_le(a: int, b: int, p: int)
    by (nonlinear_arith)
    requires
        a <= b,
        0 <= p,
    ensures
        a * p <= b * p,
{
}

proof fn lemma_mul_known(a: int, p: int, c: int)
    by (nonlinear_arith)
    requires
        p == c,
    ensures
        a * p == a * c,
        p * a == c * a,
{
}

proof fn lemma_dist(a: int, b: int, p: int)
    by (nonlinear_arith)
    ensures
        (a + b) * p == a * p + b * p,
        (a - b) * p == a * p - b * p,
        p * (a + b) == p * a + p * b,
        a * p == p * a,
{
}

proof fn lemma_assoc(a: int, b: int, c: int)
    by (nonlinear_arith)
    ensures
        (a * b) * c == a * (b * c),
        a * (b * c) == b * (a * c),
{
}

proof fn lemma_value_push(s: Seq<u32>, d: u32)
    ensures
        limbs_value(s.push(d)) == limbs_value(s) + d * radix_pow(s.len()),
{
    assert(s.push(d).drop_last() =~= s);
}

proof fn lemma_value_bound(s: Seq<u32>)
    ensures
        limbs_value(s) < radix_pow(s.len()),
    decreases s.len(),
{
    if s.len() > 0 {
        lemma_value_bound(s.drop_last());
        let p = radix_pow((s.len() - 1) as nat) as int;
        lemma_mul_le(s.last() as int, 0xffff_ffff, p);
    }
}

proof fn lemma_low_step(s: Seq<u32>, i: nat)
    ensures
        low(s, i + 1) == low(s, i) + digit(s, i) * radix_pow(i),
        low(s, 0) == 0,
{
    if i < s.len() {
        let t = s.take((i + 1) as int);
        assert(t.drop_last() =~= s.take(i as int));
        assert(t.last() == s[i as int]);
        if i + 1 == s.len() {
            assert(t =~= s);
        }
    }
    if 0 < s.len() {
        assert(s.take(0).len() == 0);
    }
}

proof fn lemma_low_bound(s: Seq<u32>, i: nat)
    ensures
        low(s, i) < radix_pow(i),
{
    if i < s.len() {
        lemma_value_bound(s.take(i as int));
    } else {
        lemma_value_bound(s);
        lemma_pow_monotonic(s.len(), i);
    }
}

proof fn lemma_high_low(s: Seq<u32>, j: nat)
    ensures
        limbs_value(s) == low(s, j) + radix_pow(j) * high(s, j),
    decreases s.len() - j,
{
    if j >= s.len() {
        assert(radix_pow(j) * 0 == 0);
    } else {
        lemma_high_low(s, j + 1);
        lemma_low_step(s, j);
        let p = radix_pow(j) as int;
        let h = high(s, j + 1) as int;
        let d = s[j as int] as int;
        assert(radix_pow(j + 1) == 0x1_0000_0000 * p);
        lemma_assoc(0x1_0000_0000, p, h);
        lemma_dist(d, 0x1_0000_0000 * h, p);
        assert(p * (d + 0x1_0000_0000 * h) == d * p + (0x1_0000_0000 * p) * h) by {
            lemma_dist(d, 0x1_0000_0000 * h, p);
            lemma_assoc(p, 0x1_0000_0000, h);
            lemma_assoc(0x1_0000_0000, p, h);
        }
    }
}

proof fn lemma_all_zero(s: Seq<u32>)
    requires
        forall|j: int| 0 <= j < s.len() ==> s[j] == 0,
    ensures
        limbs_value(s) == 0,
    decreases s.len(),
{
    if s.len() > 0 {
        lemma_all_zero(s.drop_last());
        lemma_mul_known(radix_pow((s.len() - 1) as nat) as int, s.last() as int, 0);
    }
}

proof fn lemma_some_nonzero(s: Seq<u32>, j: int)
    requires
        0 <= j < s.len(),
        s[j] != 0,
    ensures
        limbs_value(s) >= 1,
    decreases s.len(),
{
    if j == s.len() - 1 {
        let p = radix_pow((s.len() - 1) as nat) as int;
        lemma_pow_positive((s.len() - 1) as nat);
        lemma_mul_le(1, s.last() as int, p);
    } else {
        lemma_some_nonzero(s.drop_last(), j);
        let p = radix_pow((s.len() - 1) as nat) as int;
        lemma_pow_positive((s.len() - 1) as nat);
        lemma_mul_le(0, s.last() as int, p);
    }
}

/// A natural number of any size.
#[derive(Debug)]
pub struct BigNat {
    limbs: Vec<u32>,
}

impl View for BigNat {
    type V = nat;

    closed spec fn view(&self) -> nat {
        limbs_value(self.limbs@)
    }
}

fn limb_at(v: &Vec<u32>, i: usize) -> (d: u32)
    ensures
        d == digit(v@, i as nat),
{
    if i < v.len() {
        v[i]
    } else {
        0
    }
}

fn trimmed(limbs: Vec<u32>) -> (n: BigNat)
    ensures
        n@ == limbs_value(limbs@),
        n.limbs@.len() <= limbs@.len(),
        n.limbs@.len() > 0 ==> n.limbs@.last() != 0,
{
    let mut v = limbs;
    while v.len() > 0 && v[v.len() - 1] == 0
        invariant
            limbs_value(v@) == limbs_value(limbs@),
            v@.len() <= limbs@.len(),
        decreases v.len(),
    {
        v.pop();
    }
    BigNat { limbs: v }
}

impl BigNat {
    /// Zero.
    pub fn zero() -> (n: BigNat)
        ensures
            n@ == 0,
    {
        BigNat { limbs: Vec::new() }
    }

    /// The number `x`.
    pub fn from_u64(x: u64) -> (n: BigNat)
        ensures
            n@ == x,
    {
        let mut v: Vec<u32> = Vec::new();
        let lo: u32 = (x % 0x1_0000_0000) as u32;
        let hi: u32 = (x / 0x1_0000_0000) as u32;
        proof {
            lemma_value_push(v@, lo);
            lemma_value_push(v@.push(lo), hi);
            reveal_with_fuel(radix_pow, 3);
            lemma_mul_known(lo as int, radix_pow(0) as int, 1);
            lemma_mul_known(hi as int, radix_pow(1) as int, 0x1_0000_0000);
            assert(limbs_value(v@.push(lo)) == lo);
            assert(limbs_value(v@.push(lo).push(hi)) == lo + hi * 0x1_0000_0000);
        }
        v.push(lo);
        v.push(hi);
        trimmed(v)
    }

    /// The number `x`.
    pub fn from_u128(x: u128) -> (n: BigNat)
        ensures
            n@ == x,
    {
        let lo: u64 = (x % 0x1_0000_0000_0000_0000) as u64;
        let hi: u64 = (x / 0x1_0000_0000_0000_0000) as u64;
        let mut v: Vec<u32> = Vec::new();
        let l0: u32 = (lo % 0x1_0000_0000) as u32;
        let l1: u32 = (lo / 0x1_0000_0000) as u32;
        let l2: u32 = (hi % 0x1_0000_0000) as u32;
        let l3: u32 = (hi / 0x1_0000_0000) as u32;
        proof {
            lemma_value_push(v@, l0);
            lemma_value_push(v@.push(l0), l1);
            lemma_value_push(v@.push(l0).push(l1), l2);
            lemma_value_push(v@.push(l0).push(l1).push(l2), l3);
            reveal_with_fuel(radix_pow, 5);
            lemma_mul_known(l0 as int, radix_pow(0) as int, 1);
            lemma_mul_known(l1 as int, radix_pow(1) as int, 0x1_0000_0000);
            lemma_mul_known(l2 as int, radix_pow(2) as int, 0x1_0000_0000_0000_0000);
            lemma_mul_known(l3 as int, radix_pow(3) as int, 0x1_0000_0000_0000_0000_0000_0000);
            assert(limbs_value(v@.push(l0)) == l0);
            assert(limbs_value(v@.push(l0).push(l1)) == l0 + l1 * 0x1_0000_0000);
            assert(limbs_value(v@.push(l0).push(l1).push(l2)) == l0 + l1 * 0x1_0000_0000 + l2
                * 0x1_0000_0000_0000_0000);
            assert(limbs_value(v@.push(l0).push(l1).push(l2).push(l3)) == l0 + l1 * 0x1_0000_0000
                + l2 * 0x1_0000_0000_0000_0000 + l3 * 0x1_0000_0000_0000_0000_0000_0000);
            assert(lo == l0 + l1 * 0x1_0000_0000);
            assert(hi == l2 + l3 * 0x1_0000_0000);
            assert(x == lo + hi * 0x1_0000_0000_0000_0000);
        }
        v.push(l0);
        v.push(l1);
        v.push(l2);
        v.push(l3);
        trimmed(v)
    }

    /// A copy.
    pub fn copy(&self) -> (n: BigNat)
        ensures
            n@ == self@,
    {
        let mut v: Vec<u32> = Vec::new();
        let mut i: usize = 0;
        while i < self.limbs.len()
            invariant
                i <= self.limbs@.len(),
                v@ == self.limbs@.take(i as int),
            decreases self.limbs@.len() - i,
        {
            v.push(self.limbs[i]);
            i = i + 1;
        }
        assert(v@ =~= self.limbs@);
        BigNat { limbs: v }
    }

    /// Whether the number is zero.
    pub fn is_zero(&self) -> (z: bool)
        ensures
            z == (self@ == 0),
    {
        let mut i: usize = 0;
        while i < self.limbs.len()
            invariant
                i <= self.limbs@.len(),
                forall|j: int| 0 <= j < i ==> self.limbs@[j] == 0,
            decreases self.limbs@.len() - i,
        {
            if self.limbs[i] != 0 {
                proof {
                    lemma_some_nonzero(self.limbs@, i as int);
                }
                return false;
            }
            i = i + 1;
        }
        proof {
            lemma_all_zero(self.limbs@);
        }
        true
    }

    /// The sign of `self - other`: `-1`, `0` or `1`.
    pub fn order(&self, other: &BigNat) -> (sign: i8)
        ensures
            sign == -1 || sign == 0 || sign == 1,
            sign == -1 <==> self@ < other@,
            sign == 0 <==> self@ == other@,
    {
        let n: usize = if self.limbs.len() > other.limbs.len() {
            self.limbs.len()
        } else {
            other.limbs.len()
        };
        let mut sign: i8 = 0;
        let mut i: usize = 0;
        proof {
            lemma_low_step(self.limbs@, 0);
            lemma_low_step(other.limbs@, 0);
        }
        while i < n
            invariant
                i <= n,
                sign == -1 || sign == 0 || sign == 1,
                sign == -1 <==> low(self.limbs@, i as nat) < low(other.limbs@, i as nat),
                sign == 0 <==> low(self.limbs@, i as nat) == low(other.limbs@, i as nat),
            decreases n - i,
        {
            let a: u32 = limb_at(&self.limbs, i);
            let b: u32 = limb_at(&other.limbs, i);
            proof {
                lemma_low_step(self.limbs@, i as nat);
                lemma_low_step(other.limbs@, i as nat);
                lemma_low_bound(self.limbs@, i as nat);
                lemma_low_bound(other.limbs@, i as nat);
                let p = radix_pow(i as nat) as int;
                if a < b {
                    lemma_mul_le(a + 1, b as int, p);
                    lemma_dist(a as int, 1, p);
                } else if b < a {
                    lemma_mul_le(b + 1, a as int, p);
                    lemma_dist(b as int, 1, p);
                }
            }
            if a < b {
                sign = -1;
            } else if a > b {
                sign = 1;
            }
            i = i + 1;
        }
        sign
    }

    /// The sum.
    pub fn add(&self, other: &BigNat) -> (sum: BigNat)
        ensures
            sum@ == self@ + other@,
    {
        let n: usize = if self.limbs.len() > other.limbs.len() {
            self.limbs.len()
        } else {
            other.limbs.len()
        };
        let mut v: Vec<u32> = Vec::new();
        let mut carry: u64 = 0;
        let mut i: usize = 0;
        proof {
            lemma_low_step(self.limbs@, 0);
            lemma_low_step(other.limbs@, 0);
        }
        while i < n
            invariant
                i <= n,
                v@.len() == i,
                carry <= 1,
                limbs_value(v@) + carry * radix_pow(i as nat) == low(self.limbs@, i as nat) + low(
                    other.limbs@,
                    i as nat,
                ),
            decreases n - i,
        {
            let a: u32 = limb_at(&self.limbs, i);
            let b: u32 = limb_at(&other.limbs, i);
            let x: u64 = a as u64 + b as u64 + carry;
            let d: u32 = (x % 0x1_0000_0000) as u32;
            let c: u64 = x / 0x1_0000_0000;
            proof {
                let p = radix_pow(i as nat) as int;
                lemma_low_step(self.limbs@, i as nat);
                lemma_low_step(other.limbs@, i as nat);
                lemma_value_push(v@, d);
                assert(radix_pow((i + 1) as nat) == 0x1_0000_0000 * p);
                lemma_dist(d as int, 0x1_0000_0000 * c, p);
                lemma_assoc(0x1_0000_0000, c as int, p);
                lemma_dist(a as int + b as int, carry as int, p);
                lemma_dist(a as int, b as int, p);
            }
            v.push(d);
            carry = c;
            i = i + 1;
        }
        proof {
            lemma_value_push(v@, carry as u32);
        }
        v.push(carry as u32);
        trimmed(v)
    }

    /// The difference, for a subtrahend that is not the larger.
    pub fn sub(&self, other: &BigNat) -> (difference: BigNat)
        requires
            other@ <= self@,
        ensures
            difference@ == self@ - other@,
    {
        let n: usize = if self.limbs.len() > other.limbs.len() {
            self.limbs.len()
        } else {
            other.limbs.len()
        };
        let mut v: Vec<u32> = Vec::new();
        let mut borrow: u64 = 0;
        let mut i: usize = 0;
        proof {
            lemma_low_step(self.limbs@, 0);
            lemma_low_step(other.limbs@, 0);
        }
        while i < n
            invariant
                i <= n,
                v@.len() == i,
                borrow <= 1,
                limbs_value(v@) + low(other.limbs@, i as nat) == low(self.limbs@, i as nat)
                    + borrow * radix_pow(i as nat),
            decreases n - i,
        {
            let a: u32 = limb_at(&self.limbs, i);
            let b: u32 = limb_at(&other.limbs, i);
            let x: u64 = a as u64 + 0x1_0000_0000 - b as u64 - borrow;
            let d: u32 = (x % 0x1_0000_0000) as u32;
            let c: u64 = 1 - x / 0x1_0000_0000;
            proof {
                let p = radix_pow(i as nat) as int;
                lemma_low_step(self.limbs@, i as nat);
                lemma_low_step(other.limbs@, i as nat);
                lemma_value_push(v@, d);
                assert(radix_pow((i + 1) as nat) == 0x1_0000_0000 * p);
                lemma_dist(d as int, 0x1_0000_0000 * (1 - c), p);
                lemma_assoc(0x1_0000_0000, 1 - c as int, p);
                lemma_assoc(0x1_0000_0000, 1, p);
                lemma_assoc(0x1_0000_0000, c as int, p);
                lemma_dist(1, c as int, 0x1_0000_0000 * p);
                lemma_dist(a as int + 0x1_0000_0000 - b as int, borrow as int, p);
                lemma_dist(a as int + 0x1_0000_0000, b as int, p);
                lemma_dist(a as int, 0x1_0000_0000, p);
            }
            v.push(d);
            borrow = c;
            i = i + 1;
        }
        proof {
            lemma_value_bound(v@);
            lemma_mul_known(radix_pow(n as nat) as int, borrow as int, if borrow == 1 {
                1int
            } else {
                0int
            });
        }
        trimmed(v)
    }

    /// `self * factor + addend`, for a factor and an addend of one limb.
    pub fn mul_add_small(&self, factor: u32, addend: u32) -> (result: BigNat)
        ensures
            result@ == self@ * factor + addend,
    {
        let n: usize = self.limbs.len();
        let mut v: Vec<u32> = Vec::new();
        let mut carry: u64 = addend as u64;
        let mut i: usize = 0;
        proof {
            lemma_low_step(self.limbs@, 0);
            assert(0 * (factor as int) == 0);
        }
        while i < n
            invariant
                n == self.limbs@.len(),
                i <= n,
                v@.len() == i,
                carry <= 0xffff_ffff,
                limbs_value(v@) + carry * radix_pow(i as nat) == low(self.limbs@, i as nat)
                    * factor + addend,
            decreases n - i,
        {
            let a: u32 = self.limbs[i];
            assert(a * factor <= 0xffff_ffff * 0xffff_ffff) by (nonlinear_arith)
                requires
                    a <= 0xffff_ffff,
                    factor <= 0xffff_ffff,
            ;
            let x: u64 = a as u64 * factor as u64 + carry;
            let d: u32 = (x % 0x1_0000_0000) as u32;
            let c: u64 = x / 0x1_0000_0000;
            proof {
                let p = radix_pow(i as nat) as int;
                let l = low(self.limbs@, i as nat) as int;
                lemma_low_step(self.limbs@, i as nat);
                lemma_value_push(v@, d);
                assert(radix_pow((i + 1) as nat) == 0x1_0000_0000 * p);
                lemma_dist(d as int, 0x1_0000_0000 * c, p);
                lemma_assoc(0x1_0000_0000, c as int, p);
                lemma_dist(a * factor, carry as int, p);
                lemma_assoc(a as int, factor as int, p);
                lemma_assoc(a as int, p, factor as int);
                lemma_dist(l, a * p, factor as int);
                lemma_dist(factor as int, a as int, p);
            }
            v.push(d);
            carry = c;
            i = i + 1;
        }
        proof {
            lemma_value_push(v@, carry as u32);
        }
        v.push(carry as u32);
        trimmed(v)
    }

    /// `self` times the `k`-th power of the radix.
    pub fn shifted(&self, k: usize) -> (result: BigNat)
        ensures
            result@ == self@ * radix_pow(k as nat),
    {
        let n: usize = self.limbs.len();
        let mut v: Vec<u32> = Vec::new();
        let mut j: usize = 0;
        while j < k
            invariant
                j <= k,
                v@.len() == j,
                limbs_value(v@) == 0,
            decreases k - j,
        {
            proof {
                lemma_value_push(v@, 0);
            }
            v.push(0);
            j = j + 1;
        }
        let mut i: usize = 0;
        proof {
            lemma_low_step(self.limbs@, 0);
            assert(0 * radix_pow(k as nat) == 0);
        }
        while i < n
            invariant
                n == self.limbs@.len(),
                i <= n,
                v@.len() == k + i,
                limbs_value(v@) == low(self.limbs@, i as nat) * radix_pow(k as nat),
            decreases n - i,
        {
            let a: u32 = self.limbs[i];
            proof {
                let pk = radix_pow(k as nat) as int;
                let pi = radix_pow(i as nat) as int;
                lemma_low_step(self.limbs@, i as nat);
                lemma_value_push(v@, a);
                lemma_pow_add(k as nat, i as nat);
                lemma_dist(low(self.limbs@, i as nat) as int, a * pi, pk);
                lemma_assoc(a as int, pi, pk);
                lemma_dist(pi, pk, 1);
                assert(pk * pi == pi * pk) by (nonlinear_arith);
            }
            v.push(a);
            i = i + 1;
        }
        trimmed(v)
    }

    /// The product.
    pub fn mul(&self, other: &BigNat) -> (product: BigNat)
        ensures
            product@ == self@ * other@,
    {
        let n: usize = self.limbs.len();
        let mut acc = BigNat::zero();
        let mut i: usize = 0;
        proof {
            lemma_low_step(self.limbs@, 0);
            assert(0 * other@ == 0);
        }
        while i < n
            invariant
                n == self.limbs@.len(),
                i <= n,
                acc@ == low(self.limbs@, i as nat) * other@,
            decreases n - i,
        {
            let a: u32 = self.limbs[i];
            let row = other.mul_add_small(a, 0);
            let term = row.shifted(i);
            proof {
                let p = radix_pow(i as nat) as int;
                let o = other@ as int;
                lemma_low_step(self.limbs@, i as nat);
                lemma_dist(low(self.limbs@, i as nat) as int, a * p, o);
                lemma_assoc(o, a as int, p);
                lemma_assoc(a as int, p, o);
                assert(o * a == a * o) by (nonlinear_arith);
                assert((o * a) * p == (a * p) * o) by (nonlinear_arith);
            }
            acc = acc.add(&term);
            i = i + 1;
        }
        acc
    }
}

impl BigNat {
    /// Quotient and remainder of the division by a divisor that is not zero.
    pub fn div_rem(&self, divisor: &BigNat) -> (qr: (BigNat, BigNat))
        requires
            divisor@ > 0,
        ensures
            qr.0@ == self@ / divisor@,
            qr.1@ == self@ % divisor@,
            self@ == qr.0@ * divisor@ + qr.1@,
            qr.1@ < divisor@,
    {
        let mut q = BigNat::zero();
        let mut r = BigNat::zero();
        let mut j: usize = self.limbs.len();
        proof {
            assert(0 * divisor@ == 0);
        }
        while j > 0
            invariant
                j <= self.limbs@.len(),
                divisor@ > 0,
                high(self.limbs@, j as nat) == q@ * divisor@ + r@,
                r@ < divisor@,
            decreases j,
        {
            j = j - 1;
            let limb: u64 = self.limbs[j] as u64;
            let ghost base: int = high(self.limbs@, (j + 1) as nat) as int;
            let mut k: u64 = 32;
            proof {
                assert(limb >> 32u64 == 0) by (bit_vector)
                    requires
                        limb <= 0xffff_ffff,
                ;
                assert(0x1_0000_0000u64 >> 32u64 == 1) by (bit_vector);
                assert(base * 1 == base);
            }
            while k > 0
                invariant
                    k <= 32,
                    limb <= 0xffff_ffff,
                    divisor@ > 0,
                    base * (0x1_0000_0000u64 >> k) + (limb >> k) == q@ * divisor@ + r@,
                    r@ < divisor@,
                decreases k,
            {
                let ghost s: int = (0x1_0000_0000u64 >> k) as int;
                let ghost t: int = (limb >> k) as int;
                let ghost q0: int = q@ as int;
                let ghost r0: int = r@ as int;
                let ghost d: int = divisor@ as int;
                k = k - 1;
                let bit: u32 = ((limb >> k) & 1) as u32;
                proof {
                    let k1: u64 = (k + 1) as u64;
                    assert((limb >> k) == 2 * (limb >> k1) + ((limb >> k) & 1) && ((limb >> k)
                        & 1) <= 1) by (bit_vector)
                        requires
                            k < 32,
                            k1 == k + 1,
                            limb <= 0xffff_ffff,
                    ;
                    assert((0x1_0000_0000u64 >> k) == 2 * (0x1_0000_0000u64 >> k1))
                        by (bit_vector)
                        requires
                            k < 32,
                            k1 == k + 1,
                    ;
                    assert(base * (2 * s) == 2 * (base * s)) by (nonlinear_arith);
                    assert((2 * q0) * d == 2 * (q0 * d)) by (nonlinear_arith);
                    assert((2 * q0 + 1) * d == 2 * (q0 * d) + d) by (nonlinear_arith);
                }
                r = r.mul_add_small(2, bit);
                q = q.mul_add_small(2, 0);
                if r.order(divisor) >= 0 {
                    r = r.sub(divisor);
                    q = q.mul_add_small(1, 1);
                }
            }
            proof {
                assert(limb >> 0u64 == limb) by (bit_vector);
                assert(0x1_0000_0000u64 >> 0u64 == 0x1_0000_0000) by (bit_vector);
                assert(base * 0x1_0000_0000 == 0x1_0000_0000 * base) by (nonlinear_arith);
            }
        }
        proof {
            lemma_high_low(self.limbs@, 0);
            lemma_low_step(self.limbs@, 0);
            let h = high(self.limbs@, 0);
            let p = radix_pow(0);
            assert(p == 1);
            assert(p * h == h) by (nonlinear_arith)
                requires
                    p == 1,
            ;
            vstd::arithmetic::div_mod::lemma_fundamental_div_mod_converse(
                self@ as int,
                divisor@ as int,
                q@ as int,
                r@ as int,
            );
        }
        (q, r)
    }

    /// The greatest common divisor; zero where both numbers are zero.
    pub fn gcd(&self, other: &BigNat) -> (g: BigNat)
        ensures
            is_gcd(g@ as int, self@ as int, other@ as int),
    {
        let mut x = self.copy();
        let mut y = other.copy();
        while !y.is_zero()
            invariant
                forall|c: int|
                    divides_both(c, x@ as int, y@ as int) <==> divides_both(
                        c,
                        self@ as int,
                        other@ as int,
                    ),
            decreases y@,
        {
            let (q, r) = x.div_rem(&y);
            proof {
                assert forall|c: int|
                    divides_both(c, y@ as int, r@ as int) <==> divides_both(
                        c,
                        self@ as int,
                        other@ as int,
                    ) by {
                    lemma_divides_combine(c, x@ as int, y@ as int, q@ as int, r@ as int);
                }
            }
            x = y;
            y = r;
        }
        proof {
            let g = x@ as int;
            assert(g == 1 * g);
            assert(0 == 0 * g);
            assert(divides_both(g, g, 0));
            assert forall|c: int| #[trigger]
                divides_both(c, self@ as int, other@ as int) implies divides(c, g) by {
                assert(divides_both(c, g, 0));
            }
        }
        x
    }

    /// The number as a `u64`, where it is small enough.
    pub fn to_u64(&self) -> (small: Option<u64>)
        ensures
            match small {
                Some(x) => x == self@,
                None => self@ > u64::MAX,
            },
    {
        let t = trimmed(self.copy().limbs);
        let n: usize = t.limbs.len();
        proof {
            reveal_with_fuel(radix_pow, 3);
            lemma_low_step(t.limbs@, 0);
            lemma_low_step(t.limbs@, 1);
            lemma_mul_known(digit(t.limbs@, 0) as int, radix_pow(0) as int, 1);
            lemma_mul_known(digit(t.limbs@, 1) as int, radix_pow(1) as int, 0x1_0000_0000);
        }
        if n > 2 {
            proof {
                let p = radix_pow((n - 1) as nat) as int;
                lemma_pow_monotonic(2, (n - 1) as nat);
                lemma_mul_le(1, t.limbs@.last() as int, p);
            }
            None
        } else {
            let lo: u64 = limb_at(&t.limbs, 0) as u64;
            let hi: u64 = limb_at(&t.limbs, 1) as u64;
            Some(hi * 0x1_0000_0000 + lo)
        }
    }
}

} // verus!
