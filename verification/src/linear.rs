//! Linear systems over the integers: what it means to solve one.
//!
//! A rational vector is written as integer numerators `p` over one common
//! denominator `q`. `p / q` solves `A x = b` exactly when `A p = q b`, which
//! is a statement about integers alone.

use vstd::prelude::*;

verus! {

/// The sum of the products `x[j] * y[j]` over `j < k`.
pub open spec fn dot(x: Seq<int>, y: Seq<int>, k: int) -> int
    decreases k,
{
    if k <= 0 {
        0
    } else {
        dot(x, y, k - 1) + x[k - 1] * y[k - 1]
    }
}

/// A matrix of `n` rows of `n` entries.
pub open spec fn square(a: Seq<Seq<int>>) -> bool {
    forall|i: int| 0 <= i < a.len() ==> (#[trigger] a[i]).len() == a.len()
}

/// Whether some entry of `v` is not zero.
pub open spec fn nonzero(v: Seq<int>) -> bool {
    exists|j: int| 0 <= j < v.len() && #[trigger] v[j] != 0
}

/// Whether `A p = q b`: the rational vector `p / q` solves the system, where
/// `q` is not zero.
pub open spec fn satisfies(a: Seq<Seq<int>>, b: Seq<int>, p: Seq<int>, q: int) -> bool {
    &&& p.len() == a.len()
    &&& forall|i: int| 0 <= i < a.len() ==> #[trigger] dot(a[i], p, a.len() as int) == q * b[i]
}

/// Whether `A v = 0`.
pub open spec fn in_kernel(a: Seq<Seq<int>>, v: Seq<int>) -> bool {
    &&& v.len() == a.len()
    &&& forall|i: int| 0 <= i < a.len() ==> #[trigger] dot(a[i], v, a.len() as int) == 0
}

/// Whether the matrix is singular: some vector other than zero is mapped to
/// zero.
pub open spec fn singular(a: Seq<Seq<int>>) -> bool {
    exists|v: Seq<int>| #[trigger] in_kernel(a, v) && nonzero(v)
}

/// Whether `p / q` and `nums / den` are the same rational vector.
pub open spec fn proportional(p: Seq<int>, q: int, nums: Seq<int>, den: int) -> bool {
    &&& p.len() == nums.len()
    &&& forall|i: int| 0 <= i < p.len() ==> #[trigger] p[i] * den == q * nums[i]
}

/// A product with a factor that is not zero vanishes only with the other
/// factor.
pub proof fn lemma_cancel(g: int, x: int)
    by (nonlinear_arith)
    requires
        g != 0,
        g * x == 0,
    ensures
        x == 0,
{
}

/// A product of two factors that are not zero is not zero.
pub proof fn lemma_nonzero_product(a: int, b: int)
    by (nonlinear_arith)
    requires
        a != 0,
        b != 0,
    ensures
        a * b != 0,
{
}

proof fn lemma_expand(a: int, d: int, x: int, y: int)
    by (nonlinear_arith)
    ensures
        a * (d + x * y) == a * d + (a * x) * y,
{
}

proof fn lemma_difference(u: int, v: int, y: int)
    by (nonlinear_arith)
    ensures
        (u - v) * y == u * y - v * y,
{
}

/// Sequences that agree below `k` have the same products below `k`.
pub proof fn lemma_dot_agree(x: Seq<int>, x2: Seq<int>, y: Seq<int>, y2: Seq<int>, k: int)
    requires
        forall|j: int| 0 <= j < k ==> x[j] == x2[j] && y[j] == y2[j],
    ensures
        dot(x, y, k) == dot(x2, y2, k),
    decreases k,
{
    if k > 0 {
        lemma_dot_agree(x, x2, y, y2, k - 1);
    }
}

/// Where `alpha * x - beta * w == g * r` entry by entry, the same holds of
/// the products with any `y`.
pub proof fn lemma_dot_combine(
    x: Seq<int>,
    w: Seq<int>,
    r: Seq<int>,
    y: Seq<int>,
    alpha: int,
    beta: int,
    g: int,
    k: int,
)
    requires
        forall|j: int| 0 <= j < k ==> alpha * x[j] - beta * w[j] == g * #[trigger] r[j],
    ensures
        alpha * dot(x, y, k) - beta * dot(w, y, k) == g * dot(r, y, k),
    decreases k,
{
    if k > 0 {
        lemma_dot_combine(x, w, r, y, alpha, beta, g, k - 1);
        let xj = x[k - 1];
        let wj = w[k - 1];
        let rj = r[k - 1];
        let yj = y[k - 1];
        let dx = dot(x, y, k - 1);
        let dw = dot(w, y, k - 1);
        let dr = dot(r, y, k - 1);
        assert(alpha * xj - beta * wj == g * rj);
        lemma_expand(alpha, dx, xj, yj);
        lemma_expand(beta, dw, wj, yj);
        lemma_expand(g, dr, rj, yj);
        lemma_difference(alpha * xj, beta * wj, yj);
    } else {
        assert(alpha * 0 - beta * 0 == g * 0) by (nonlinear_arith);
    }
}

/// Where `y == g * z` entry by entry, the products with any `x` scale by `g`.
pub proof fn lemma_dot_scale(x: Seq<int>, y: Seq<int>, z: Seq<int>, g: int, k: int)
    requires
        forall|j: int| 0 <= j < k ==> y[j] == g * #[trigger] z[j],
    ensures
        dot(x, y, k) == g * dot(x, z, k),
    decreases k,
{
    if k > 0 {
        lemma_dot_scale(x, y, z, g, k - 1);
        let xj = x[k - 1];
        let yj = y[k - 1];
        let zj = z[k - 1];
        let d = dot(x, z, k - 1);
        assert(yj == g * zj);
        assert(g * d + xj * yj == g * (d + xj * zj)) by (nonlinear_arith)
            requires
                yj == g * zj,
        ;
    } else {
        assert(g * 0 == 0);
    }
}

/// Where every product below `k` is zero, so is their sum.
pub proof fn lemma_dot_zero(x: Seq<int>, y: Seq<int>, k: int)
    requires
        forall|j: int| 0 <= j < k ==> x[j] == 0 || y[j] == 0,
    ensures
        dot(x, y, k) == 0,
    decreases k,
{
    if k > 0 {
        lemma_dot_zero(x, y, k - 1);
        let xj = x[k - 1];
        let yj = y[k - 1];
        assert(xj * yj == 0) by (nonlinear_arith)
            requires
                xj == 0 || yj == 0,
        ;
    }
}

/// Where every product below `k` but the one at `a` is zero, the sum is that
/// product.
pub proof fn lemma_dot_single(x: Seq<int>, y: Seq<int>, k: int, a: int)
    requires
        0 <= a < k,
        forall|j: int| 0 <= j < k && j != a ==> x[j] == 0 || y[j] == 0,
    ensures
        dot(x, y, k) == x[a] * y[a],
    decreases k,
{
    if a == k - 1 {
        lemma_dot_zero(x, y, k - 1);
    } else {
        lemma_dot_single(x, y, k - 1, a);
        let xj = x[k - 1];
        let yj = y[k - 1];
        assert(xj * yj == 0) by (nonlinear_arith)
            requires
                xj == 0 || yj == 0,
        ;
    }
}

/// Where every product below `k` but those at `a` and `b` is zero, the sum is
/// the sum of those two.
pub proof fn lemma_dot_pair(x: Seq<int>, y: Seq<int>, k: int, a: int, b: int)
    requires
        0 <= a < b < k,
        forall|j: int| 0 <= j < k && j != a && j != b ==> x[j] == 0 || y[j] == 0,
    ensures
        dot(x, y, k) == x[a] * y[a] + x[b] * y[b],
    decreases k,
{
    if b == k - 1 {
        lemma_dot_single(x, y, k - 1, a);
    } else {
        lemma_dot_pair(x, y, k - 1, a, b);
        let xj = x[k - 1];
        let yj = y[k - 1];
        assert(xj * yj == 0) by (nonlinear_arith)
            requires
                xj == 0 || yj == 0,
        ;
    }
}

/// The sum of products does not depend on the order of its two arguments.
pub proof fn lemma_dot_commute(x: Seq<int>, y: Seq<int>, k: int)
    ensures
        dot(x, y, k) == dot(y, x, k),
    decreases k,
{
    if k > 0 {
        lemma_dot_commute(x, y, k - 1);
        assert(x[k - 1] * y[k - 1] == y[k - 1] * x[k - 1]) by (nonlinear_arith);
    }
}

/// The vector `p` with every entry multiplied by `k`.
pub open spec fn scaled(p: Seq<int>, k: int) -> Seq<int> {
    Seq::new(p.len(), |i: int| k * p[i])
}

proof fn lemma_cross(q1: int, q2: int, b: int)
    by (nonlinear_arith)
    ensures
        q2 * (q1 * b) - q1 * (q2 * b) == 0,
{
}

proof fn lemma_regroup(ka: int, kb: int, q: int, b: int, b2: int)
    by (nonlinear_arith)
    requires
        kb * b2 == ka * b,
    ensures
        ka * (q * b) == (kb * q) * b2,
{
}

/// A system with an invertible matrix has one solution: any two solutions
/// are the same rational vector. So solving is determined by its inputs.
pub proof fn lemma_one_solution(
    a: Seq<Seq<int>>,
    b: Seq<int>,
    p1: Seq<int>,
    q1: int,
    p2: Seq<int>,
    q2: int,
)
    requires
        !singular(a),
        satisfies(a, b, p1, q1),
        satisfies(a, b, p2, q2),
    ensures
        proportional(p1, q1, p2, q2),
{
    let n = a.len() as int;
    let v = Seq::new(a.len(), |i: int| q2 * p1[i] - q1 * p2[i]);
    assert forall|i: int| 0 <= i < n implies #[trigger] dot(a[i], v, n) == 0 by {
        lemma_dot_commute(a[i], v, n);
        lemma_dot_commute(a[i], p1, n);
        lemma_dot_commute(a[i], p2, n);
        assert forall|j: int| 0 <= j < n implies q2 * p1[j] - q1 * p2[j] == 1 * #[trigger] v[j] by {}
        lemma_dot_combine(p1, p2, v, a[i], q2, q1, 1, n);
        assert(dot(a[i], p1, n) == q1 * b[i]);
        assert(dot(a[i], p2, n) == q2 * b[i]);
        lemma_cross(q1, q2, b[i]);
    }
    assert(in_kernel(a, v));
    assert forall|i: int| 0 <= i < p1.len() implies #[trigger] p1[i] * q2 == q1 * p2[i] by {
        if v[i] != 0 {
            assert(nonzero(v));
        }
        assert(v[i] == 0);
        assert(p1[i] * q2 == q2 * p1[i]) by (nonlinear_arith);
    }
}

/// Linearity in the constants: where the constants are multiplied by
/// `ka / kb`, so is the solution.
pub proof fn lemma_scaled_constants(
    a: Seq<Seq<int>>,
    b: Seq<int>,
    b2: Seq<int>,
    p: Seq<int>,
    q: int,
    ka: int,
    kb: int,
)
    requires
        satisfies(a, b, p, q),
        forall|i: int| 0 <= i < a.len() ==> kb * #[trigger] b2[i] == ka * b[i],
    ensures
        satisfies(a, b2, scaled(p, ka), kb * q),
{
    let n = a.len() as int;
    let p2 = scaled(p, ka);
    assert forall|i: int| 0 <= i < n implies #[trigger] dot(a[i], p2, n) == (kb * q) * b2[i] by {
        lemma_dot_scale(a[i], p2, p, ka, n);
        assert(dot(a[i], p, n) == q * b[i]);
        assert(kb * b2[i] == ka * b[i]);
        lemma_regroup(ka, kb, q, b[i], b2[i]);
    }
}

/// A matrix with a column of zeros is singular.
pub proof fn lemma_zero_column_singular(a: Seq<Seq<int>>, c: int)
    requires
        0 <= c < a.len(),
        forall|i: int| 0 <= i < a.len() ==> (#[trigger] a[i])[c] == 0,
    ensures
        singular(a),
{
    let n = a.len() as int;
    let v = Seq::new(a.len(), |j: int| if j == c { 1int } else { 0int });
    assert forall|i: int| 0 <= i < n implies #[trigger] dot(a[i], v, n) == 0 by {
        lemma_dot_single(a[i], v, n, c);
        assert(a[i][c] == 0);
        assert(a[i][c] * v[c] == 0) by (nonlinear_arith)
            requires
                a[i][c] == 0,
        ;
    }
    assert(v[c] != 0);
    assert(in_kernel(a, v) && nonzero(v));
}

} // verus!
