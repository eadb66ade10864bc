//! The theory behind the elimination: which row operations keep the solutions
//! of an augmented system, and what a reduced system says.
//!
//! An augmented matrix has `n` rows of `n + 1` entries: the coefficients and,
//! last, the constant. All statements are over integers; a candidate solution
//! is a vector of numerators `p` over a common denominator `q`.

use crate::linear::{
    dot, in_kernel, lemma_cancel, lemma_dot_agree, lemma_dot_combine, lemma_dot_pair,
    lemma_dot_scale, lemma_dot_single, lemma_dot_zero, lemma_nonzero_product, nonzero,
    satisfies,
};
use vstd::prelude::*;

verus! {

/// `row * p - q * constant`: how far `p / q` is from solving the equation of
/// one augmented row, scaled by `q`.
pub open spec fn residual(row: Seq<int>, p: Seq<int>, q: int, n: int) -> int {
    dot(row, p, n) - q * row[n]
}

/// `n` rows of `n + 1` entries.
pub open spec fn shaped(m: Seq<Seq<int>>, n: int) -> bool {
    &&& m.len() == n
    &&& forall|i: int| 0 <= i < n ==> (#[trigger] m[i]).len() == n + 1
}

/// Whether `p / q` solves every equation of the augmented matrix.
pub open spec fn annihilates(m: Seq<Seq<int>>, p: Seq<int>, q: int, n: int) -> bool {
    forall|i: int| 0 <= i < n ==> #[trigger] residual(m[i], p, q, n) == 0
}

/// Whether two augmented matrices have the same solutions.
pub open spec fn same_solutions(m: Seq<Seq<int>>, m2: Seq<Seq<int>>, n: int) -> bool {
    forall|p: Seq<int>, q: int|
        #![trigger annihilates(m, p, q, n)]
        #![trigger annihilates(m2, p, q, n)]
        annihilates(m, p, q, n) == annihilates(m2, p, q, n)
}

/// Whether the first `k` columns are reduced: each holds one entry that is
/// not zero, on the diagonal.
pub open spec fn reduced(m: Seq<Seq<int>>, n: int, k: int) -> bool {
    &&& forall|i: int, j: int| 0 <= i < n && 0 <= j < k && i != j ==> (#[trigger] m[i][j]) == 0
    &&& forall|j: int| 0 <= j < k ==> (#[trigger] m[j])[j] != 0
}

/// The coefficient rows with their constants appended.
pub open spec fn augment(a: Seq<Seq<int>>, b: Seq<int>) -> Seq<Seq<int>> {
    Seq::new(a.len(), |i: int| a[i].push(b[i]))
}

proof fn lemma_factor(a: int, x: int, q: int, c: int)
    by (nonlinear_arith)
    ensures
        a * (x - q * c) == a * x - q * (a * c),
{
}

proof fn lemma_spread(q: int, u: int, v: int)
    by (nonlinear_arith)
    ensures
        q * (u - v) == q * u - q * v,
{
}

proof fn lemma_residual_relation(
    alpha: int,
    beta: int,
    g: int,
    q: int,
    dx: int,
    dw: int,
    dr: int,
    cx: int,
    cw: int,
    cr: int,
)
    requires
        alpha * dx - beta * dw == g * dr,
        alpha * cx - beta * cw == g * cr,
    ensures
        alpha * (dx - q * cx) - beta * (dw - q * cw) == g * (dr - q * cr),
{
    lemma_factor(alpha, dx, q, cx);
    lemma_factor(beta, dw, q, cw);
    lemma_factor(g, dr, q, cr);
    lemma_spread(q, alpha * cx, beta * cw);
}

proof fn lemma_zero_combination(alpha: int, beta: int, x: int, w: int)
    by (nonlinear_arith)
    ensures
        x == 0 && w == 0 ==> alpha * x - beta * w == 0,
        w == 0 ==> alpha * x - beta * w == alpha * x,
        alpha * beta - beta * alpha == 0,
{
}

/// The augmented form of a system has the solutions of the system.
pub proof fn lemma_augment(a: Seq<Seq<int>>, b: Seq<int>, p: Seq<int>, q: int)
    requires
        crate::linear::square(a),
        b.len() == a.len(),
    ensures
        shaped(augment(a, b), a.len() as int),
        satisfies(a, b, p, q) <==> p.len() == a.len() && annihilates(
            augment(a, b),
            p,
            q,
            a.len() as int,
        ),
        in_kernel(a, p) <==> p.len() == a.len() && annihilates(
            augment(a, b),
            p,
            0,
            a.len() as int,
        ),
{
    let n = a.len() as int;
    let m = augment(a, b);
    assert forall|i: int| 0 <= i < n implies dot(m[i], p, n) == dot(a[i], p, n) && m[i][n]
        == b[i] by {
        lemma_dot_agree(m[i], a[i], p, p, n);
    }
    if satisfies(a, b, p, q) {
        assert forall|i: int| 0 <= i < n implies #[trigger] residual(m[i], p, q, n) == 0 by {
            assert(dot(a[i], p, n) == q * b[i]);
        }
    }
    if p.len() == a.len() && annihilates(m, p, q, n) {
        assert forall|i: int| 0 <= i < n implies #[trigger] dot(a[i], p, n) == q * b[i] by {
            assert(residual(m[i], p, q, n) == 0);
        }
    }
    if in_kernel(a, p) {
        assert forall|i: int| 0 <= i < n implies #[trigger] residual(m[i], p, 0, n) == 0 by {
            assert(dot(a[i], p, n) == 0);
        }
    }
    if p.len() == a.len() && annihilates(m, p, 0, n) {
        assert forall|i: int| 0 <= i < n implies #[trigger] dot(a[i], p, n) == 0 by {
            assert(residual(m[i], p, 0, n) == 0);
        }
    }
}

/// Replacing row `i` by `(m[k][k] * row_i - m[i][k] * row_k) / g` clears its
/// entry in column `k`, keeps the reduced columns reduced and keeps the
/// solutions.
pub proof fn lemma_eliminate(m: Seq<Seq<int>>, r: Seq<int>, g: int, i: int, k: int, n: int)
    requires
        shaped(m, n),
        0 <= k < n,
        0 <= i < n,
        i != k,
        reduced(m, n, k),
        m[k][k] != 0,
        g != 0,
        r.len() == n + 1,
        forall|j: int| 0 <= j <= n ==> m[k][k] * m[i][j] - m[i][k] * m[k][j] == g * #[trigger] r[j],
    ensures
        shaped(m.update(i, r), n),
        reduced(m.update(i, r), n, k),
        r[k] == 0,
        same_solutions(m, m.update(i, r), n),
{
    let m2 = m.update(i, r);
    let alpha = m[k][k];
    let beta = m[i][k];
    assert(r[k] == 0) by {
        lemma_zero_combination(alpha, beta, 0, 0);
        assert(alpha * m[i][k] - beta * m[k][k] == g * r[k]);
        lemma_cancel(g, r[k]);
    }
    assert forall|a: int, j: int| 0 <= a < n && 0 <= j < k && a != j implies (#[trigger] m2[a][j])
        == 0 by {
        if a == i {
            assert(m[i][j] == 0);
            assert(m[k][j] == 0);
            lemma_zero_combination(alpha, beta, m[i][j], m[k][j]);
            assert(alpha * m[i][j] - beta * m[k][j] == g * r[j]);
            lemma_cancel(g, r[j]);
        } else {
            assert(m[a][j] == 0);
        }
    }
    assert forall|j: int| 0 <= j < k implies (#[trigger] m2[j])[j] != 0 by {
        if j == i {
            assert(m[k][j] == 0);
            assert(m[j][j] != 0);
            lemma_zero_combination(alpha, beta, m[i][j], m[k][j]);
            lemma_nonzero_product(alpha, m[i][j]);
            assert(alpha * m[i][j] - beta * m[k][j] == g * r[j]);
            if r[j] == 0 {
                assert(g * r[j] == 0) by (nonlinear_arith)
                    requires
                        r[j] == 0,
                ;
            }
        } else {
            assert(m[j][j] != 0);
        }
    }
    assert forall|p: Seq<int>, q: int| annihilates(m, p, q, n) == annihilates(m2, p, q, n) by {
        lemma_dot_combine(m[i], m[k], r, p, alpha, beta, g, n);
        assert(alpha * m[i][n] - beta * m[k][n] == g * r[n]);
        lemma_residual_relation(
            alpha,
            beta,
            g,
            q,
            dot(m[i], p, n),
            dot(m[k], p, n),
            dot(r, p, n),
            m[i][n],
            m[k][n],
            r[n],
        );
        let ri = residual(m[i], p, q, n);
        let rk = residual(m[k], p, q, n);
        let rr = residual(r, p, q, n);
        assert(alpha * ri - beta * rk == g * rr);
        if annihilates(m, p, q, n) {
            assert(ri == 0 && rk == 0);
            lemma_zero_combination(alpha, beta, ri, rk);
            lemma_cancel(g, rr);
            assert forall|a: int| 0 <= a < n implies #[trigger] residual(m2[a], p, q, n)
                == 0 by {
                if a != i {
                    assert(residual(m[a], p, q, n) == 0);
                }
            }
        }
        if annihilates(m2, p, q, n) {
            assert(residual(m2[i], p, q, n) == 0);
            assert(residual(m2[k], p, q, n) == 0);
            assert(rr == 0 && rk == 0);
            lemma_zero_combination(alpha, beta, ri, rk);
            assert(g * rr == 0) by (nonlinear_arith)
                requires
                    rr == 0,
            ;
            lemma_cancel(alpha, ri);
            assert forall|a: int| 0 <= a < n implies #[trigger] residual(m[a], p, q, n) == 0 by {
                if a != i {
                    assert(residual(m2[a], p, q, n) == 0);
                }
            }
        }
    }
}

/// Exchanging two rows below the reduced columns keeps those columns reduced
/// and keeps the solutions.
pub proof fn lemma_exchange(m: Seq<Seq<int>>, i: int, k: int, c: int, n: int)
    requires
        shaped(m, n),
        0 <= c <= i < n,
        c <= k < n,
        reduced(m, n, c),
    ensures
        shaped(m.update(i, m[k]).update(k, m[i]), n),
        reduced(m.update(i, m[k]).update(k, m[i]), n, c),
        same_solutions(m, m.update(i, m[k]).update(k, m[i]), n),
{
    let m2 = m.update(i, m[k]).update(k, m[i]);
    assert forall|a: int, j: int| 0 <= a < n && 0 <= j < c && a != j implies (#[trigger] m2[a][j])
        == 0 by {
        if a == i {
            assert(m[k][j] == 0);
        } else if a == k {
            assert(m[i][j] == 0);
        } else {
            assert(m[a][j] == 0);
        }
    }
    assert forall|j: int| 0 <= j < c implies (#[trigger] m2[j])[j] != 0 by {
        assert(m[j][j] != 0);
    }
    assert forall|p: Seq<int>, q: int| annihilates(m, p, q, n) == annihilates(m2, p, q, n) by {
        if annihilates(m, p, q, n) {
            assert forall|a: int| 0 <= a < n implies #[trigger] residual(m2[a], p, q, n)
                == 0 by {
                if a == i {
                    assert(residual(m[k], p, q, n) == 0);
                } else if a == k {
                    assert(residual(m[i], p, q, n) == 0);
                } else {
                    assert(residual(m[a], p, q, n) == 0);
                }
            }
        }
        if annihilates(m2, p, q, n) {
            assert forall|a: int| 0 <= a < n implies #[trigger] residual(m[a], p, q, n) == 0 by {
                if a == i {
                    assert(residual(m2[k], p, q, n) == 0);
                } else if a == k {
                    assert(residual(m2[i], p, q, n) == 0);
                } else {
                    assert(residual(m2[a], p, q, n) == 0);
                }
            }
        }
    }
}

/// A vector that the first `j` rows map to zero, built for a column `k`
/// without a pivot.
pub open spec fn kernel_vector(m: Seq<Seq<int>>, n: int, k: int, j: int) -> Seq<int>
    decreases j,
{
    if j <= 0 {
        Seq::new(n as nat, |t: int| if t == k { 1int } else { 0int })
    } else {
        let w = kernel_vector(m, n, k, j - 1);
        Seq::new(
            n as nat,
            |t: int| if t == j - 1 { -(m[j - 1][k] * w[k]) } else { m[j - 1][j - 1] * w[t] },
        )
    }
}

proof fn lemma_kernel_step(d: int, e: int, a: int, b: int, x: int, y: int)
    by (nonlinear_arith)
    ensures
        a * x + b * y == 0 ==> a * (d * x) + b * (d * y) == 0,
        d * (-(e * y)) + e * (d * y) == 0,
        d * 0 == 0,
{
}

proof fn lemma_kernel_vector(m: Seq<Seq<int>>, n: int, k: int, j: int)
    requires
        shaped(m, n),
        0 <= j <= k < n,
        reduced(m, n, k),
    ensures
        kernel_vector(m, n, k, j).len() == n,
        kernel_vector(m, n, k, j)[k] != 0,
        forall|t: int| j <= t < n && t != k ==> #[trigger] kernel_vector(m, n, k, j)[t] == 0,
        forall|l: int|
            0 <= l < j ==> (#[trigger] m[l])[l] * kernel_vector(m, n, k, j)[l] + m[l][k]
                * kernel_vector(m, n, k, j)[k] == 0,
    decreases j,
{
    if j > 0 {
        lemma_kernel_vector(m, n, k, j - 1);
        let w = kernel_vector(m, n, k, j - 1);
        let v = kernel_vector(m, n, k, j);
        let d = m[j - 1][j - 1];
        let e = m[j - 1][k];
        assert(d != 0);
        assert(v[k] == d * w[k]);
        lemma_nonzero_product(d, w[k]);
        assert forall|t: int| j <= t < n && t != k implies #[trigger] v[t] == 0 by {
            assert(w[t] == 0);
            lemma_kernel_step(d, e, 0, 0, 0, 0);
        }
        assert forall|l: int| 0 <= l < j implies (#[trigger] m[l])[l] * v[l] + m[l][k] * v[k]
            == 0 by {
            if l == j - 1 {
                lemma_kernel_step(d, e, 0, 0, 0, w[k]);
            } else {
                assert(m[l][l] * w[l] + m[l][k] * w[k] == 0);
                lemma_kernel_step(d, e, m[l][l], m[l][k], w[l], w[k]);
            }
        }
    }
}

/// A reduced system whose next column holds no pivot maps a vector other than
/// zero to zero.
pub proof fn lemma_no_pivot(m: Seq<Seq<int>>, n: int, k: int) -> (v: Seq<int>)
    requires
        shaped(m, n),
        0 <= k < n,
        reduced(m, n, k),
        forall|i: int| k <= i < n ==> (#[trigger] m[i])[k] == 0,
    ensures
        v.len() == n,
        nonzero(v),
        annihilates(m, v, 0, n),
{
    lemma_kernel_vector(m, n, k, k);
    let v = kernel_vector(m, n, k, k);
    assert(v[k] != 0);
    assert forall|i: int| 0 <= i < n implies #[trigger] residual(m[i], v, 0, n) == 0 by {
        if i < k {
            assert forall|t: int| 0 <= t < n && t != i && t != k implies m[i][t] == 0 || v[t]
                == 0 by {
                if t < k {
                    assert(m[i][t] == 0);
                } else {
                    assert(v[t] == 0);
                }
            }
            lemma_dot_pair(m[i], v, n, i, k);
        } else {
            assert forall|t: int| 0 <= t < n implies m[i][t] == 0 || v[t] == 0 by {
                if t < k {
                    assert(m[i][t] == 0);
                } else if t == k {
                    assert(m[i][k] == 0);
                } else {
                    assert(v[t] == 0);
                }
            }
            lemma_dot_zero(m[i], v, n);
        }
    }
    v
}

/// The product of the diagonal entries below `k`, without the one at `skip`.
pub open spec fn diagonal_product(m: Seq<Seq<int>>, skip: int, k: int) -> int
    decreases k,
{
    if k <= 0 {
        1
    } else if k - 1 == skip {
        diagonal_product(m, skip, k - 1)
    } else {
        diagonal_product(m, skip, k - 1) * m[k - 1][k - 1]
    }
}

proof fn lemma_rotate(a: int, b: int, c: int)
    by (nonlinear_arith)
    ensures
        (a * b) * c == a * (b * c),
        (a * b) * c == (a * c) * b,
        a * b == b * a,
{
}

proof fn lemma_product_nonzero(m: Seq<Seq<int>>, skip: int, k: int)
    requires
        forall|j: int| 0 <= j < k ==> (#[trigger] m[j])[j] != 0,
    ensures
        diagonal_product(m, skip, k) != 0,
    decreases k,
{
    if k > 0 {
        lemma_product_nonzero(m, skip, k - 1);
        assert(m[k - 1][k - 1] != 0);
        lemma_nonzero_product(diagonal_product(m, skip, k - 1), m[k - 1][k - 1]);
    }
}

/// The product of the whole diagonal is the entry at `skip` times the
/// product without it; to skip an index past the end is to skip nothing.
pub proof fn lemma_product_split(m: Seq<Seq<int>>, skip: int, k: int)
    requires
        0 <= skip,
    ensures
        skip < k ==> diagonal_product(m, -1, k) == m[skip][skip] * diagonal_product(m, skip, k),
        skip >= k ==> diagonal_product(m, -1, k) == diagonal_product(m, skip, k),
    decreases k,
{
    if k > 0 {
        lemma_product_split(m, skip, k - 1);
        let all = diagonal_product(m, -1, k - 1);
        let rest = diagonal_product(m, skip, k - 1);
        let d = m[k - 1][k - 1];
        if skip == k - 1 {
            lemma_rotate(all, d, 1);
        } else if skip < k - 1 {
            lemma_rotate(m[skip][skip], rest, d);
        }
    }
}

proof fn lemma_solution_entry(d: int, c: int, rest: int, den: int, num: int, p: int, q: int)
    by (nonlinear_arith)
    requires
        den == d * rest,
        num == c * rest,
    ensures
        d * num == den * c,
        d * p == q * c ==> p * den == q * num,
{
}

/// Whether `p / q` and `nums / den` agree in their first `n` entries.
pub open spec fn agrees(p: Seq<int>, q: int, nums: Seq<int>, den: int, n: int) -> bool {
    forall|i: int| 0 <= i < n ==> #[trigger] p[i] * den == q * nums[i]
}

/// A fully reduced system has one solution: `m[i][n] / m[i][i]`, here over
/// the common denominator that is the product of the diagonal.
pub proof fn lemma_reduced_solution(m: Seq<Seq<int>>, nums: Seq<int>, den: int, n: int)
    requires
        shaped(m, n),
        reduced(m, n, n),
        nums.len() == n,
        den == diagonal_product(m, -1, n),
        forall|i: int| 0 <= i < n ==> #[trigger] nums[i] == m[i][n] * diagonal_product(m, i, n),
    ensures
        den != 0,
        annihilates(m, nums, den, n),
        forall|p: Seq<int>, q: int| #[trigger]
            annihilates(m, p, q, n) ==> agrees(p, q, nums, den, n),
{
    lemma_product_nonzero(m, -1, n);
    assert forall|i: int| 0 <= i < n implies #[trigger] residual(m[i], nums, den, n) == 0 by {
        assert forall|t: int| 0 <= t < n && t != i implies m[i][t] == 0 || nums[t] == 0 by {
            assert(m[i][t] == 0);
        }
        lemma_dot_single(m[i], nums, n, i);
        lemma_product_split(m, i, n);
        lemma_solution_entry(m[i][i], m[i][n], diagonal_product(m, i, n), den, nums[i], 0, 0);
    }
    assert forall|p: Seq<int>, q: int| #[trigger] annihilates(m, p, q, n) implies agrees(
        p,
        q,
        nums,
        den,
        n,
    ) by {
        assert forall|i: int| 0 <= i < n implies #[trigger] p[i] * den == q * nums[i] by {
            assert(residual(m[i], p, q, n) == 0);
            assert forall|t: int| 0 <= t < n && t != i implies m[i][t] == 0 || p[t] == 0 by {
                assert(m[i][t] == 0);
            }
            lemma_dot_single(m[i], p, n, i);
            lemma_product_split(m, i, n);
            lemma_solution_entry(
                m[i][i],
                m[i][n],
                diagonal_product(m, i, n),
                den,
                nums[i],
                p[i],
                q,
            );
        }
    }
}

proof fn lemma_scaled_residual(g: int, d: int, d2: int, den2: int, c: int)
    by (nonlinear_arith)
    requires
        d == g * d2,
    ensures
        d - (g * den2) * c == g * (d2 - den2 * c),
{
}

proof fn lemma_scaled_proportion(g: int, p: int, q: int, num2: int, den2: int)
    by (nonlinear_arith)
    requires
        g != 0,
        p * (g * den2) == q * (g * num2),
    ensures
        p * den2 == q * num2,
{
}

/// Dividing numerators and denominator by a common factor keeps the rational
/// vector, and so what it solves.
pub proof fn lemma_common_factor(
    m: Seq<Seq<int>>,
    nums: Seq<int>,
    den: int,
    nums2: Seq<int>,
    den2: int,
    g: int,
    n: int,
)
    requires
        g != 0,
        nums.len() == n,
        nums2.len() == n,
        den == g * den2,
        forall|i: int| 0 <= i < n ==> nums[i] == g * #[trigger] nums2[i],
    ensures
        annihilates(m, nums, den, n) ==> annihilates(m, nums2, den2, n),
        forall|p: Seq<int>, q: int| #[trigger]
            agrees(p, q, nums, den, n) ==> agrees(p, q, nums2, den2, n),
{
    if annihilates(m, nums, den, n) {
        assert forall|i: int| 0 <= i < n implies #[trigger] residual(m[i], nums2, den2, n)
            == 0 by {
            assert(residual(m[i], nums, den, n) == 0);
            lemma_dot_scale(m[i], nums, nums2, g, n);
            lemma_scaled_residual(g, dot(m[i], nums, n), dot(m[i], nums2, n), den2, m[i][n]);
            lemma_cancel(g, residual(m[i], nums2, den2, n));
        }
    }
    assert forall|p: Seq<int>, q: int| #[trigger] agrees(p, q, nums, den, n) implies agrees(
        p,
        q,
        nums2,
        den2,
        n,
    ) by {
        assert forall|i: int| 0 <= i < n implies #[trigger] p[i] * den2 == q * nums2[i] by {
            assert(p[i] * den == q * nums[i]);
            assert(nums[i] == g * nums2[i]);
            lemma_scaled_proportion(g, p[i], q, nums2[i], den2);
        }
    }
}

/// Row `i` combined with the pivot row `k` so that its entry in column `k`
/// vanishes.
pub open spec fn cleared_row(m: Seq<Seq<int>>, i: int, k: int, n: int) -> Seq<int> {
    Seq::new((n + 1) as nat, |j: int| m[k][k] * m[i][j] - m[i][k] * m[k][j])
}

/// Having the same solutions is transitive.
pub proof fn lemma_same_solutions_chain(
    m1: Seq<Seq<int>>,
    m2: Seq<Seq<int>>,
    m3: Seq<Seq<int>>,
    n: int,
)
    requires
        same_solutions(m1, m2, n),
        same_solutions(m2, m3, n),
    ensures
        same_solutions(m1, m3, n),
{
    assert forall|p: Seq<int>, q: int| annihilates(m1, p, q, n) == annihilates(m3, p, q, n) by {
        assert(annihilates(m1, p, q, n) == annihilates(m2, p, q, n));
        assert(annihilates(m2, p, q, n) == annihilates(m3, p, q, n));
    }
}

/// Clearing column `k` in the rows from `i` on, one after the other, reduces
/// that column, keeps the solutions and leaves alone every row that holds a
/// zero in the column.
proof fn lemma_clear_rows(m: Seq<Seq<int>>, n: int, k: int, i: int) -> (m2: Seq<Seq<int>>)
    requires
        shaped(m, n),
        0 <= k < n,
        0 <= i <= n,
        reduced(m, n, k),
        m[k][k] != 0,
        forall|t: int| 0 <= t < i && t != k ==> (#[trigger] m[t])[k] == 0,
    ensures
        shaped(m2, n),
        reduced(m2, n, k + 1),
        same_solutions(m, m2, n),
        forall|t: int| 0 <= t < n && t != k && (#[trigger] m[t])[k] == 0 ==> m2[t] == m[t],
    decreases n - i,
{
    if i == n {
        assert forall|a: int, j: int| 0 <= a < n && 0 <= j < k + 1 && a != j implies (
        #[trigger] m[a][j]) == 0 by {
            if j == k {
                assert(m[a][k] == 0);
            }
        }
        assert forall|j: int| 0 <= j < k + 1 implies (#[trigger] m[j])[j] != 0 by {}
        m
    } else if i == k || m[i][k] == 0 {
        lemma_clear_rows(m, n, k, i + 1)
    } else {
        let r = cleared_row(m, i, k, n);
        assert forall|j: int| 0 <= j <= n implies m[k][k] * m[i][j] - m[i][k] * m[k][j] == 1
            * #[trigger] r[j] by {}
        lemma_eliminate(m, r, 1, i, k, n);
        let m1 = m.update(i, r);
        assert forall|t: int| 0 <= t < i + 1 && t != k implies (#[trigger] m1[t])[k] == 0 by {
            if t < i {
                assert(m[t][k] == 0);
            }
        }
        let m2 = lemma_clear_rows(m1, n, k, i + 1);
        lemma_same_solutions_chain(m, m1, m2, n);
        assert forall|t: int| 0 <= t < n && t != k && (#[trigger] m[t])[k] == 0 implies m2[t]
            == m[t] by {
            assert(t != i);
            assert(m1[t] == m[t]);
            assert(m1[t][k] == 0);
        }
        m2
    }
}

/// A system with a row of zero coefficients at or below the reduced columns
/// maps a vector other than zero to zero.
proof fn lemma_zero_row(m: Seq<Seq<int>>, n: int, k: int, z: int) -> (v: Seq<int>)
    requires
        shaped(m, n),
        0 <= k <= z < n,
        reduced(m, n, k),
        forall|j: int| 0 <= j < n ==> #[trigger] m[z][j] == 0,
    ensures
        v.len() == n,
        nonzero(v),
        annihilates(m, v, 0, n),
    decreases n - k,
{
    if exists|p: int| k <= p < n && (#[trigger] m[p])[k] != 0 {
        let p = choose|p: int| k <= p < n && (#[trigger] m[p])[k] != 0;
        assert(m[z][k] == 0);
        lemma_exchange(m, k, p, k, n);
        let m1 = m.update(k, m[p]).update(p, m[k]);
        let z1 = if z == k {
            p
        } else {
            z
        };
        assert(m1[k] == m[p]);
        assert(m1[z1] == m[z]);
        let m2 = lemma_clear_rows(m1, n, k, 0);
        assert(m1[z1][k] == 0);
        assert(m2[z1] == m1[z1]);
        assert forall|j: int| 0 <= j < n implies #[trigger] m2[z1][j] == 0 by {
            assert(m[z][j] == 0);
        }
        let v = lemma_zero_row(m2, n, k + 1, z1);
        lemma_same_solutions_chain(m, m1, m2, n);
        assert(annihilates(m, v, 0, n) == annihilates(m2, v, 0, n));
        v
    } else {
        lemma_no_pivot(m, n, k)
    }
}

/// A matrix with a row of zeros is singular.
pub proof fn lemma_zero_row_singular(a: Seq<Seq<int>>, z: int)
    requires
        crate::linear::square(a),
        0 <= z < a.len(),
        forall|j: int| 0 <= j < a.len() ==> #[trigger] a[z][j] == 0,
    ensures
        crate::linear::singular(a),
{
    let n = a.len() as int;
    let b = Seq::new(a.len(), |i: int| 0int);
    lemma_augment(a, b, b, 0);
    let m = augment(a, b);
    assert forall|j: int| 0 <= j < n implies #[trigger] m[z][j] == 0 by {
        assert(a[z][j] == 0);
    }
    let v = lemma_zero_row(m, n, 0, z);
    lemma_augment(a, b, v, 0);
    assert(in_kernel(a, v) && nonzero(v));
}

} // verus!
