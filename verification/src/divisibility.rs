//! Divisibility of integers: common divisors, and fractions in lowest terms.

use crate::linear::{dot, lemma_dot_agree, lemma_dot_scale, proportional, scaled};
use vstd::prelude::*;

verus! {

/// Whether `n` is a multiple of `d`.
pub open spec fn divides(d: int, n: int) -> bool {
    exists|k: int| n == #[trigger] (k * d)
}

/// Whether `d` divides both `a` and `b`.
pub open spec fn divides_both(d: int, a: int, b: int) -> bool {
    divides(d, a) && divides(d, b)
}

/// Whether `g` is the greatest common divisor of `a` and `b`: a common
/// divisor that every common divisor divides, and not negative.
pub open spec fn is_gcd(g: int, a: int, b: int) -> bool {
    &&& 0 <= g
    &&& divides_both(g, a, b)
    &&& forall|c: int| #[trigger] divides_both(c, a, b) ==> divides(c, g)
}

/// Whether `c` divides every entry of `x`.
pub open spec fn divides_all(c: int, x: Seq<int>) -> bool {
    forall|j: int| 0 <= j < x.len() ==> divides(c, #[trigger] x[j])
}

/// Whether `g` is the content of `x`: the greatest common divisor of its
/// entries.
pub open spec fn is_content(g: int, x: Seq<int>) -> bool {
    &&& 0 <= g
    &&& divides_all(g, x)
    &&& forall|c: int| #[trigger] divides_all(c, x) ==> divides(c, g)
}

/// Whether the entries of `x` have no common divisor but one and minus one.
pub open spec fn primitive(x: Seq<int>) -> bool {
    forall|c: int| #[trigger] divides_all(c, x) ==> divides(c, 1)
}

/// Whether the fractions `nums[i] / den` are written over the least common
/// denominator: it is positive, and no number but one and minus one divides
/// it and every numerator.
pub open spec fn lowest_terms(nums: Seq<int>, den: int) -> bool {
    den > 0 && primitive(nums.push(den))
}

/// Every number divides itself, its negation and zero.
pub proof fn lemma_divides_self(a: int)
    ensures
        divides(a, a),
        divides(a, -a),
        divides(a, 0),
{
    assert(a == 1 * a);
    assert(-a == (-1) * a);
    assert(0 == 0 * a);
}

/// A divisor of a divisor of `c` divides `c` and its negation.
pub proof fn lemma_divides_chain(a: int, b: int, c: int)
    requires
        divides(a, b),
        divides(b, c),
    ensures
        divides(a, c),
        divides(a, -c),
{
    let k = choose|k: int| b == #[trigger] (k * a);
    let l = choose|l: int| c == #[trigger] (l * b);
    assert(c == (l * k) * a) by (nonlinear_arith)
        requires
            b == k * a,
            c == l * b,
    ;
    assert(-c == (-(l * k)) * a) by (nonlinear_arith)
        requires
            c == (l * k) * a,
    ;
}

/// A divisor of two numbers divides their combinations.
pub proof fn lemma_divides_sum(c: int, a: int, b: int, u: int, v: int)
    requires
        divides(c, a),
        divides(c, b),
    ensures
        divides(c, u * a + v * b),
{
    let k = choose|k: int| a == #[trigger] (k * c);
    let l = choose|l: int| b == #[trigger] (l * c);
    assert(u * a + v * b == (u * k + v * l) * c) by (nonlinear_arith)
        requires
            a == k * c,
            b == l * c,
    ;
}

/// The step of Euclid's algorithm: `x` and `y` have the common divisors of
/// `y` and the remainder of `x` by `y`.
pub proof fn lemma_divides_combine(c: int, x: int, y: int, q: int, r: int)
    requires
        x == q * y + r,
    ensures
        divides_both(c, x, y) <==> divides_both(c, y, r),
{
    if divides_both(c, x, y) {
        let kx = choose|k: int| x == #[trigger] (k * c);
        let ky = choose|k: int| y == #[trigger] (k * c);
        assert(r == (kx - q * ky) * c) by (nonlinear_arith)
            requires
                x == q * y + r,
                x == kx * c,
                y == ky * c,
        ;
    }
    if divides_both(c, y, r) {
        let ky = choose|k: int| y == #[trigger] (k * c);
        let kr = choose|k: int| r == #[trigger] (k * c);
        assert(x == (q * ky + kr) * c) by (nonlinear_arith)
            requires
                x == q * y + r,
                r == kr * c,
                y == ky * c,
        ;
    }
}

proof fn lemma_divisor_bound(a: int, b: int)
    requires
        a >= 0,
        b > 0,
        divides(a, b),
    ensures
        a <= b,
        a > 0,
{
    let k = choose|k: int| b == #[trigger] (k * a);
    assert(a <= b && a > 0) by (nonlinear_arith)
        requires
            b == k * a,
            a >= 0,
            b > 0,
    ;
}

/// Two numbers that are not negative and divide each other are equal.
pub proof fn lemma_mutual_divisors(a: int, b: int)
    requires
        a >= 0,
        b >= 0,
        divides(a, b),
        divides(b, a),
    ensures
        a == b,
{
    if b > 0 {
        lemma_divisor_bound(a, b);
        lemma_divisor_bound(b, a);
    } else {
        let k = choose|k: int| a == #[trigger] (k * b);
        assert(a == 0) by (nonlinear_arith)
            requires
                a == k * b,
                b == 0,
        ;
    }
}

proof fn lemma_bezout_step(a: int, b: int, q: int, r: int, u: int, v: int)
    by (nonlinear_arith)
    requires
        a == q * b + r,
    ensures
        u * b + v * r == v * a + (u - q * v) * b,
{
}

/// Bezout's identity: the greatest common divisor of two numbers is a
/// combination of them.
pub proof fn lemma_bezout(a: int, b: int) -> (r: (int, int, int))
    requires
        a >= 0,
        b >= 0,
    ensures
        is_gcd(r.0, a, b),
        r.0 == r.1 * a + r.2 * b,
    decreases b,
{
    if b == 0 {
        lemma_divides_self(a);
        assert forall|c: int| #[trigger] divides_both(c, a, b) implies divides(c, a) by {}
        assert(a == 1 * a + 0 * b);
        (a, 1, 0)
    } else {
        let q = a / b;
        let rem = a % b;
        vstd::arithmetic::div_mod::lemma_fundamental_div_mod(a, b);
        assert(a == q * b + rem) by (nonlinear_arith)
            requires
                a == b * q + rem,
        ;
        let (g, u, v) = lemma_bezout(b, rem);
        lemma_divides_combine(g, a, b, q, rem);
        assert forall|c: int| #[trigger] divides_both(c, a, b) implies divides(c, g) by {
            lemma_divides_combine(c, a, b, q, rem);
            assert(divides_both(c, b, rem));
        }
        lemma_bezout_step(a, b, q, rem, u, v);
        (g, v, u - q * v)
    }
}

proof fn lemma_sign(s: int, v: int, x: int)
    by (nonlinear_arith)
    ensures
        s == 1 ==> v * (s * x) == (v * s) * x && s * x == x,
        s == -1 ==> v * (s * x) == (v * s) * x && s * x == -x,
{
}

/// The content of the first `k` entries of `x` is a combination of them.
proof fn lemma_content(x: Seq<int>, k: int) -> (r: (int, Seq<int>))
    requires
        0 <= k <= x.len(),
    ensures
        is_content(r.0, x.take(k)),
        r.1.len() == x.len(),
        dot(r.1, x, k) == r.0,
    decreases k,
{
    if k == 0 {
        let u = Seq::new(x.len(), |j: int| 0int);
        lemma_divides_self(0);
        assert forall|c: int| #[trigger] divides_all(c, x.take(0)) implies divides(c, 0) by {
            lemma_divides_self(c);
        }
        (0, u)
    } else {
        let (g0, u0) = lemma_content(x, k - 1);
        let e = x[k - 1];
        let s: int = if e < 0 { -1 } else { 1 };
        let m = s * e;
        lemma_sign(s, 0, e);
        let (g, a, b) = lemma_bezout(g0, m);
        let u = Seq::new(
            x.len(),
            |j: int| if j < k - 1 { a * u0[j] } else if j == k - 1 { b * s } else { 0int },
        );
        // the combination
        let scaled_u0 = Seq::new(x.len(), |j: int| a * u0[j]);
        lemma_dot_agree(u, scaled_u0, x, x, k - 1);
        crate::linear::lemma_dot_commute(scaled_u0, x, k - 1);
        crate::linear::lemma_dot_commute(u0, x, k - 1);
        lemma_dot_scale(x, scaled_u0, u0, a, k - 1);
        lemma_sign(s, b, e);
        assert(dot(u, x, k) == a * g0 + b * m);
        // the divisors
        lemma_divides_self(m);
        lemma_divides_chain(g, m, m);
        assert(divides(g, e)) by {
            if s == -1 {
                assert(e == -m);
            }
        }
        assert forall|j: int| 0 <= j < x.take(k).len() implies divides(
            g,
            #[trigger] x.take(k)[j],
        ) by {
            if j < k - 1 {
                assert(divides(g0, x.take(k - 1)[j]));
                lemma_divides_chain(g, g0, x[j]);
            }
        }
        assert forall|c: int| #[trigger] divides_all(c, x.take(k)) implies divides(c, g) by {
            assert forall|j: int| 0 <= j < x.take(k - 1).len() implies divides(
                c,
                #[trigger] x.take(k - 1)[j],
            ) by {
                assert(divides(c, x.take(k)[j]));
            }
            assert(divides_all(c, x.take(k - 1)));
            assert(divides(c, g0));
            assert(divides(c, x.take(k)[k - 1]));
            lemma_divides_self(e);
            lemma_divides_chain(c, e, e);
            assert(divides(c, m)) by {
                if s == -1 {
                    assert(m == -e);
                }
            }
            assert(divides_both(c, g0, m));
        }
        (g, u)
    }
}

/// A divisor of every entry of `y` divides every combination of them.
pub proof fn lemma_divides_dot(c: int, u: Seq<int>, y: Seq<int>, k: int)
    requires
        0 <= k <= y.len(),
        divides_all(c, y),
    ensures
        divides(c, dot(u, y, k)),
    decreases k,
{
    if k == 0 {
        lemma_divides_self(c);
    } else {
        lemma_divides_dot(c, u, y, k - 1);
        assert(divides(c, y[k - 1]));
        lemma_divides_sum(c, dot(u, y, k - 1), y[k - 1], 1, u[k - 1]);
        assert(1 * dot(u, y, k - 1) + u[k - 1] * y[k - 1] == dot(u, y, k));
    }
}

/// What divides every entry of `k * x`, for a primitive `x`, divides `k`.
pub proof fn lemma_primitive_scaled(c: int, k: int, x: Seq<int>)
    requires
        primitive(x),
        divides_all(c, scaled(x, k)),
    ensures
        divides(c, k),
{
    let n = x.len() as int;
    let (g, u) = lemma_content(x, n);
    assert(x.take(n) =~= x);
    assert(divides_all(g, x));
    assert(divides(g, 1));
    lemma_divides_self(1);
    assert(g == 1) by {
        let t = choose|t: int| 1 == #[trigger] (t * g);
        assert(g == 1) by (nonlinear_arith)
            requires
                1 == t * g,
                g >= 0,
        ;
    }
    let y = scaled(x, k);
    lemma_divides_dot(c, u, y, n);
    lemma_dot_scale(u, y, x, k, n);
    assert(dot(u, y, n) == k * dot(u, x, n));
    assert(k * dot(u, x, n) == k) by (nonlinear_arith)
        requires
            dot(u, x, n) == 1,
    ;
}

proof fn lemma_equal_quotients(p1: int, p2: int, q: int)
    by (nonlinear_arith)
    requires
        q > 0,
        p1 * q == q * p2,
    ensures
        p1 == p2,
{
}

/// A rational vector is written in lowest terms in one way: two vectors in
/// lowest terms that are equal as rational vectors have the same numerators
/// and the same denominator.
pub proof fn lemma_lowest_terms_unique(p1: Seq<int>, q1: int, p2: Seq<int>, q2: int)
    requires
        proportional(p1, q1, p2, q2),
        lowest_terms(p1, q1),
        lowest_terms(p2, q2),
    ensures
        p1 == p2,
        q1 == q2,
{
    let x1 = p1.push(q1);
    let x2 = p2.push(q2);
    let n = p1.len() as int;
    // q1 divides every entry of q2 * x1, for that is q1 * x2
    assert forall|j: int| 0 <= j < scaled(x1, q2).len() implies divides(
        q1,
        #[trigger] scaled(x1, q2)[j],
    ) by {
        if j < n {
            assert(p1[j] * q2 == q1 * p2[j]);
            assert(q2 * p1[j] == p2[j] * q1) by (nonlinear_arith)
                requires
                    p1[j] * q2 == q1 * p2[j],
            ;
        } else {
            assert(q2 * x1[j] == q2 * q1);
        }
    }
    lemma_primitive_scaled(q1, q2, x1);
    assert forall|j: int| 0 <= j < scaled(x2, q1).len() implies divides(
        q2,
        #[trigger] scaled(x2, q1)[j],
    ) by {
        if j < n {
            assert(p1[j] * q2 == q1 * p2[j]);
            assert(q1 * p2[j] == p1[j] * q2);
        } else {
            assert(q1 * x2[j] == q1 * q2);
        }
    }
    lemma_primitive_scaled(q2, q1, x2);
    lemma_mutual_divisors(q1, q2);
    assert forall|j: int| 0 <= j < n implies p1[j] == p2[j] by {
        assert(p1[j] * q2 == q1 * p2[j]);
        lemma_equal_quotients(p1[j], p2[j], q1);
    }
    assert(p1 =~= p2);
}

proof fn lemma_unit_quotient(t: int, c: int, g: int)
    by (nonlinear_arith)
    requires
        g != 0,
        g == t * (c * g),
    ensures
        1 == t * c,
{
}

/// A vector divided by its content is primitive.
pub proof fn lemma_divided_by_content(x: Seq<int>, y: Seq<int>, g: int)
    requires
        is_content(g, x),
        g > 0,
        x.len() == y.len(),
        forall|j: int| 0 <= j < x.len() ==> x[j] == g * #[trigger] y[j],
    ensures
        primitive(y),
{
    assert forall|c: int| #[trigger] divides_all(c, y) implies divides(c, 1) by {
        assert forall|j: int| 0 <= j < x.len() implies divides(c * g, #[trigger] x[j]) by {
            assert(divides(c, y[j]));
            let k = choose|k: int| y[j] == #[trigger] (k * c);
            assert(x[j] == g * y[j]);
            assert(x[j] == k * (c * g)) by (nonlinear_arith)
                requires
                    x[j] == g * y[j],
                    y[j] == k * c,
            ;
        }
        assert(divides_all(c * g, x));
        assert(divides(c * g, g));
        let t = choose|t: int| g == #[trigger] (t * (c * g));
        lemma_unit_quotient(t, c, g);
    }
}

/// A vector whose content is zero holds zeros alone.
pub proof fn lemma_content_zero(x: Seq<int>)
    requires
        is_content(0, x),
    ensures
        forall|j: int| 0 <= j < x.len() ==> #[trigger] x[j] == 0,
{
    assert forall|j: int| 0 <= j < x.len() implies #[trigger] x[j] == 0 by {
        assert(divides(0, x[j]));
        let k = choose|k: int| x[j] == #[trigger] (k * 0);
        assert(k * 0 == 0);
    }
}

/// The negation of a primitive vector is primitive.
pub proof fn lemma_primitive_negated(x: Seq<int>, y: Seq<int>)
    requires
        primitive(x),
        x.len() == y.len(),
        forall|j: int| 0 <= j < x.len() ==> #[trigger] y[j] == -x[j],
    ensures
        primitive(y),
{
    assert forall|c: int| #[trigger] divides_all(c, y) implies divides(c, 1) by {
        assert forall|j: int| 0 <= j < x.len() implies divides(c, #[trigger] x[j]) by {
            assert(divides(c, y[j]));
            lemma_divides_self(y[j]);
            lemma_divides_chain(c, y[j], y[j]);
            assert(x[j] == -y[j]);
        }
        assert(divides_all(c, x));
    }
}

} // verus!
