//! The exact solver: elimination over integers of any size.

use crate::bigint::BigInt;
use crate::bignat::BigNat;
use crate::divisibility::{
    divides, divides_all, divides_both, is_content, lemma_content_zero, lemma_divided_by_content,
    lemma_divides_chain, lemma_divides_self, lemma_lowest_terms_unique, lemma_primitive_negated,
    lowest_terms, primitive,
};
use crate::elimination::{
    agrees, annihilates, augment, diagonal_product, lemma_augment, lemma_common_factor,
    lemma_eliminate, lemma_exchange, lemma_no_pivot, lemma_product_split,
    lemma_reduced_solution, lemma_same_solutions_chain, reduced, same_solutions, shaped,
};
use crate::linear::{
    in_kernel, lemma_one_solution, nonzero, proportional, satisfies, singular, square,
};
use vstd::prelude::*;

verus! {

/// The integers that a row of big integers holds.
pub open spec fn ints(r: Seq<BigInt>) -> Seq<int> {
    Seq::new(r.len(), |j: int| r[j]@)
}

/// The integer matrix that rows of big integers hold.
pub open spec fn table(m: Seq<Vec<BigInt>>) -> Seq<Seq<int>> {
    Seq::new(m.len(), |i: int| ints(m[i]@))
}

/// A vector of machine integers as a vector of integers.
pub open spec fn vector(b: Seq<i128>) -> Seq<int> {
    Seq::new(b.len(), |j: int| b[j] as int)
}

/// Rows of machine integers as a matrix of integers.
pub open spec fn matrix(a: Seq<Vec<i128>>) -> Seq<Seq<int>> {
    Seq::new(a.len(), |i: int| vector(a[i]@))
}

/// The coefficient matrix is not invertible: the system has no solution, or
/// more than one.
#[derive(Clone, Copy, Debug, PartialEq, Eq)]
pub struct SingularSystemError;

/// The solution of a linear system: a rational vector, written as numerators
/// over one common denominator.
#[derive(Debug)]
pub struct SolutionVector {
    numerators: Vec<BigInt>,
    denominator: BigInt,
}

impl SolutionVector {
    /// The numerators.
    pub closed spec fn nums(&self) -> Seq<int> {
        ints(self.numerators@)
    }

    /// The common denominator.
    pub closed spec fn den(&self) -> int {
        self.denominator@
    }

    /// The number of entries.
    pub fn len(&self) -> (n: usize)
        ensures
            n == self.nums().len(),
    {
        self.numerators.len()
    }

    /// The numerator of entry `i`.
    pub fn numerator(&self, i: usize) -> (num: BigInt)
        requires
            i < self.nums().len(),
        ensures
            num@ == self.nums()[i as int],
    {
        self.numerators[i].copy()
    }

    /// The common denominator.
    pub fn denominator(&self) -> (den: BigInt)
        ensures
            den@ == self.den(),
    {
        self.denominator.copy()
    }

    /// Entry `i` rounded up to a whole number: the least integer that is not
    /// below `numerator / denominator`.
    pub fn units(&self, i: usize) -> (count: BigInt)
        requires
            i < self.nums().len(),
            self.den() > 0,
        ensures
            count@ * self.den() >= self.nums()[i as int],
            (count@ - 1) * self.den() < self.nums()[i as int],
    {
        let d = self.denominator.abs();
        self.numerators[i].ceil_div(&d)
    }
}

proof fn lemma_positive_factor(g: int, x: int)
    by (nonlinear_arith)
    requires
        g > 0,
        g * x > 0,
    ensures
        x > 0,
{
}

proof fn lemma_negation(x: int, y: int)
    by (nonlinear_arith)
    ensures
        x == (-1) * (-x),
        (-1) * y == -y,
{
}

fn copy_row(r: &Vec<BigInt>) -> (copy: Vec<BigInt>)
    ensures
        ints(copy@) == ints(r@),
{
    let mut copy: Vec<BigInt> = Vec::new();
    let mut j: usize = 0;
    while j < r.len()
        invariant
            j <= r@.len(),
            copy@.len() == j,
            forall|t: int| 0 <= t < j ==> copy@[t]@ == r@[t]@,
        decreases r@.len() - j,
    {
        copy.push(r[j].copy());
        j = j + 1;
    }
    assert(ints(copy@) =~= ints(r@));
    copy
}

fn widen_row(a: &Vec<i128>, constant: i128) -> (row: Vec<BigInt>)
    ensures
        ints(row@) == vector(a@).push(constant as int),
{
    let mut row: Vec<BigInt> = Vec::new();
    let mut j: usize = 0;
    while j < a.len()
        invariant
            j <= a@.len(),
            row@.len() == j,
            forall|t: int| 0 <= t < j ==> row@[t]@ == a@[t] as int,
        decreases a@.len() - j,
    {
        row.push(BigInt::from_i128(a[j]));
        j = j + 1;
    }
    row.push(BigInt::from_i128(constant));
    assert(ints(row@) =~= vector(a@).push(constant as int));
    row
}

fn augmented(a: &Vec<Vec<i128>>, b: &Vec<i128>) -> (m: Vec<Vec<BigInt>>)
    requires
        b@.len() == a@.len(),
    ensures
        table(m@) == augment(matrix(a@), vector(b@)),
{
    let mut m: Vec<Vec<BigInt>> = Vec::new();
    let mut i: usize = 0;
    while i < a.len()
        invariant
            b@.len() == a@.len(),
            i <= a@.len(),
            m@.len() == i,
            forall|t: int| 0 <= t < i ==> ints(m@[t]@) == vector(a@[t]@).push(b@[t] as int),
        decreases a@.len() - i,
    {
        m.push(widen_row(&a[i], b[i]));
        i = i + 1;
    }
    assert(table(m@) =~= augment(matrix(a@), vector(b@)));
    m
}

fn combine_rows(x: &Vec<BigInt>, w: &Vec<BigInt>, alpha: &BigInt, beta: &BigInt) -> (row: Vec<
    BigInt,
>)
    requires
        x@.len() == w@.len(),
    ensures
        row@.len() == x@.len(),
        forall|j: int| 0 <= j < row@.len() ==> #[trigger] row@[j]@ == alpha@ * x@[j]@ - beta@ * w@[j]@,
{
    let mut row: Vec<BigInt> = Vec::new();
    let mut j: usize = 0;
    while j < x.len()
        invariant
            x@.len() == w@.len(),
            j <= x@.len(),
            row@.len() == j,
            forall|t: int| 0 <= t < j ==> #[trigger] row@[t]@ == alpha@ * x@[t]@ - beta@ * w@[t]@,
        decreases x@.len() - j,
    {
        let left = alpha.mul(&x[j]);
        let right = beta.mul(&w[j]);
        row.push(left.sub(&right));
        j = j + 1;
    }
    row
}

/// The content of the row: the greatest common divisor of its entries.
fn row_content(r: &Vec<BigInt>) -> (g: BigNat)
    ensures
        is_content(g@ as int, ints(r@)),
{
    let mut g = BigNat::zero();
    let mut j: usize = 0;
    proof {
        assert forall|c: int| #[trigger] divides_all(c, ints(r@).take(0)) implies divides(
            c,
            0,
        ) by {
            lemma_divides_self(c);
        }
    }
    while j < r.len()
        invariant
            j <= r@.len(),
            is_content(g@ as int, ints(r@).take(j as int)),
        decreases r@.len() - j,
    {
        let e = r[j].abs();
        let next = g.gcd(&e);
        proof {
            let x = ints(r@);
            let before = x.take(j as int);
            let after = x.take(j + 1);
            assert(divides_both(next@ as int, g@ as int, e@ as int));
            lemma_divides_self(e@ as int);
            lemma_divides_chain(next@ as int, e@ as int, e@ as int);
            assert forall|t: int| 0 <= t < after.len() implies divides(
                next@ as int,
                #[trigger] after[t],
            ) by {
                if t < j {
                    assert(divides(g@ as int, before[t]));
                    lemma_divides_chain(next@ as int, g@ as int, before[t]);
                }
            }
            assert forall|c: int| #[trigger] divides_all(c, after) implies divides(
                c,
                next@ as int,
            ) by {
                assert forall|t: int| 0 <= t < before.len() implies divides(
                    c,
                    #[trigger] before[t],
                ) by {
                    assert(divides(c, after[t]));
                }
                assert(divides_all(c, before));
                assert(divides(c, after[j as int]));
                lemma_divides_self(x[j as int]);
                lemma_divides_chain(c, x[j as int], x[j as int]);
                assert(divides_both(c, g@ as int, e@ as int));
            }
        }
        g = next;
        j = j + 1;
    }
    assert(ints(r@).take(r@.len() as int) =~= ints(r@));
    g
}

/// The row divided by its content, with the content; a row of zeros as it
/// is, with one.
fn reduce_row(r: Vec<BigInt>) -> (out: (Vec<BigInt>, Ghost<int>))
    ensures
        out.0@.len() == r@.len(),
        out.1@ > 0,
        forall|j: int| 0 <= j < r@.len() ==> r@[j]@ == out.1@ * #[trigger] out.0@[j]@,
        nonzero(ints(r@)) ==> primitive(ints(out.0@)),
{
    let g = row_content(&r);
    if g.is_zero() {
        proof {
            assert forall|j: int| 0 <= j < r@.len() implies r@[j]@ == 1 * #[trigger] r@[j]@ by {}
            lemma_content_zero(ints(r@));
        }
        return (r, Ghost(1));
    }
    let mut row: Vec<BigInt> = Vec::new();
    let mut j: usize = 0;
    while j < r.len()
        invariant
            g@ > 0,
            j <= r@.len(),
            row@.len() == j,
            divides_all(g@ as int, ints(r@)),
            forall|t: int| 0 <= t < j ==> r@[t]@ == g@ * #[trigger] row@[t]@,
        decreases r@.len() - j,
    {
        assert(divides(g@ as int, ints(r@)[j as int]));
        let q = r[j].div_exact(&g);
        proof {
            assert(q@ * g@ == g@ * q@) by (nonlinear_arith);
        }
        row.push(q);
        j = j + 1;
    }
    proof {
        assert forall|t: int| 0 <= t < r@.len() implies ints(r@)[t] == g@ * #[trigger] ints(
            row@,
        )[t] by {
            assert(r@[t]@ == g@ * row@[t]@);
        }
        lemma_divided_by_content(ints(r@), ints(row@), g@ as int);
    }
    (row, Ghost(g@ as int))
}

fn find_pivot(m: &Vec<Vec<BigInt>>, k: usize, n: usize) -> (found: Option<usize>)
    requires
        shaped(table(m@), n as int),
        k < n,
    ensures
        match found {
            Some(p) => k <= p < n && table(m@)[p as int][k as int] != 0,
            None => forall|i: int| k <= i < n ==> (#[trigger] table(m@)[i])[k as int] == 0,
        },
{
    let mut i: usize = k;
    while i < n
        invariant
            shaped(table(m@), n as int),
            k <= i <= n,
            forall|t: int| k <= t < i ==> (#[trigger] table(m@)[t])[k as int] == 0,
        decreases n - i,
    {
        assert(table(m@)[i as int].len() == n + 1);
        if !m[i][k].is_zero() {
            return Some(i);
        }
        i = i + 1;
    }
    None
}

fn exchange_rows(m: &mut Vec<Vec<BigInt>>, i: usize, k: usize)
    requires
        i < old(m)@.len(),
        k < old(m)@.len(),
    ensures
        table(final(m)@) == table(old(m)@).update(i as int, table(old(m)@)[k as int]).update(
            k as int,
            table(old(m)@)[i as int],
        ),
{
    let first = copy_row(&m[i]);
    let second = copy_row(&m[k]);
    m.set(i, second);
    m.set(k, first);
    assert(table(m@) =~= table(old(m)@).update(i as int, table(old(m)@)[k as int]).update(
        k as int,
        table(old(m)@)[i as int],
    ));
}

/// Clears column `k` in every row but the pivot row `k`.
fn eliminate_column(m: &mut Vec<Vec<BigInt>>, k: usize, n: usize)
    requires
        shaped(table(old(m)@), n as int),
        k < n,
        reduced(table(old(m)@), n as int, k as int),
        table(old(m)@)[k as int][k as int] != 0,
    ensures
        shaped(table(final(m)@), n as int),
        reduced(table(final(m)@), n as int, k + 1),
        same_solutions(table(old(m)@), table(final(m)@), n as int),
{
    let ghost start = table(m@);
    let mut i: usize = 0;
    while i < n
        invariant
            k < n,
            i <= n,
            shaped(table(m@), n as int),
            reduced(table(m@), n as int, k as int),
            table(m@)[k as int][k as int] != 0,
            same_solutions(start, table(m@), n as int),
            forall|t: int| 0 <= t < i && t != k ==> (#[trigger] table(m@)[t])[k as int] == 0,
        decreases n - i,
    {
        let ghost t0 = table(m@);
        assert(t0[i as int].len() == n + 1);
        assert(t0[k as int].len() == n + 1);
        if i != k && !m[i][k].is_zero() {
            let combined = combine_rows(&m[i], &m[k], &m[k][k], &m[i][k]);
            let (row, Ghost(g)) = reduce_row(combined);
            proof {
                assert forall|j: int| 0 <= j <= n implies t0[k as int][k as int] * t0[i as int][j]
                    - t0[i as int][k as int] * t0[k as int][j] == g * #[trigger] ints(row@)[j] by {
                    assert(combined@[j]@ == g * row@[j]@);
                }
                lemma_eliminate(t0, ints(row@), g, i as int, k as int, n as int);
                lemma_same_solutions_chain(start, t0, t0.update(i as int, ints(row@)), n as int);
            }
            m.set(i, row);
            proof {
                assert(table(m@) =~= t0.update(i as int, ints(row@)));
                assert forall|t: int| 0 <= t < i + 1 && t != k implies (#[trigger] table(
                    m@,
                )[t])[k as int] == 0 by {
                    if t < i {
                        assert(t0[t][k as int] == 0);
                    }
                }
            }
        }
        i = i + 1;
    }
    proof {
        let t = table(m@);
        assert forall|a: int, j: int| 0 <= a < n && 0 <= j < k + 1 && a != j implies (
        #[trigger] t[a][j]) == 0 by {
            if j == k {
                assert(t[a][k as int] == 0);
            }
        }
        assert forall|j: int| 0 <= j < k + 1 implies (#[trigger] t[j])[j] != 0 by {}
    }
}

fn diagonal(m: &Vec<Vec<BigInt>>, skip: usize, n: usize) -> (product: BigInt)
    requires
        shaped(table(m@), n as int),
    ensures
        product@ == diagonal_product(table(m@), skip as int, n as int),
{
    let mut product = BigInt::from_i128(1);
    let mut l: usize = 0;
    while l < n
        invariant
            shaped(table(m@), n as int),
            l <= n,
            product@ == diagonal_product(table(m@), skip as int, l as int),
        decreases n - l,
    {
        assert(table(m@)[l as int].len() == n + 1);
        if l != skip {
            product = product.mul(&m[l][l]);
        }
        l = l + 1;
    }
    product
}

/// Reads the solution off a fully reduced system.
fn read_solution(m: &Vec<Vec<BigInt>>, n: usize) -> (x: SolutionVector)
    requires
        shaped(table(m@), n as int),
        reduced(table(m@), n as int, n as int),
    ensures
        x.nums().len() == n,
        lowest_terms(x.nums(), x.den()),
        annihilates(table(m@), x.nums(), x.den(), n as int),
        forall|p: Seq<int>, q: int| #[trigger]
            annihilates(table(m@), p, q, n as int) ==> agrees(p, q, x.nums(), x.den(), n as int),
{
    let ghost t = table(m@);
    let den = diagonal(m, n, n);
    let mut all: Vec<BigInt> = Vec::new();
    let mut i: usize = 0;
    while i < n
        invariant
            shaped(table(m@), n as int),
            i <= n,
            all@.len() == i,
            forall|a: int|
                0 <= a < i ==> #[trigger] all@[a]@ == table(m@)[a][n as int] * diagonal_product(
                    table(m@),
                    a,
                    n as int,
                ),
        decreases n - i,
    {
        assert(table(m@)[i as int].len() == n + 1);
        let rest = diagonal(m, i, n);
        all.push(m[i][n].mul(&rest));
        i = i + 1;
    }
    let ghost nums0 = ints(all@);
    let ghost den0 = den@;
    proof {
        lemma_product_split(t, n as int, n as int);
        assert forall|a: int| 0 <= a < n implies #[trigger] nums0[a] == t[a][n as int]
            * diagonal_product(t, a, n as int) by {
            assert(all@[a]@ == t[a][n as int] * diagonal_product(t, a, n as int));
        }
        lemma_reduced_solution(t, nums0, den0, n as int);
    }
    let flip = den.is_negative();
    all.push(den);
    proof {
        assert(ints(all@)[n as int] != 0);
    }
    let (mut reduced_all, Ghost(g)) = reduce_row(all);
    let ghost whole = ints(reduced_all@);
    let ghost nums1 = ints(reduced_all@).take(n as int);
    let ghost den1 = reduced_all@[n as int]@;
    proof {
        assert(whole =~= nums1.push(den1));
        assert forall|a: int| 0 <= a < n implies nums0[a] == g * #[trigger] nums1[a] by {
            assert(all@[a]@ == g * reduced_all@[a]@);
        }
        assert(den0 == g * den1) by {
            assert(all@[n as int]@ == g * reduced_all@[n as int]@);
        }
        lemma_common_factor(t, nums0, den0, nums1, den1, g, n as int);
    }
    let last = reduced_all.pop();
    let denominator = match last {
        Some(d) => d,
        None => BigInt::zero(),
    };
    assert(denominator@ == den1);
    assert(ints(reduced_all@) =~= nums1);
    if flip {
        let mut negated: Vec<BigInt> = Vec::new();
        let mut j: usize = 0;
        while j < n
            invariant
                reduced_all@.len() == n,
                j <= n,
                negated@.len() == j,
                forall|a: int| 0 <= a < j ==> #[trigger] negated@[a]@ == -reduced_all@[a]@,
            decreases n - j,
        {
            negated.push(reduced_all[j].neg());
            j = j + 1;
        }
        let positive = denominator.neg();
        proof {
            let nums2 = ints(negated@);
            let den2 = positive@;
            lemma_negation(den1, den2);
            assert forall|a: int| 0 <= a < n implies nums1[a] == (-1) * #[trigger] nums2[a] by {
                assert(negated@[a]@ == -reduced_all@[a]@);
                lemma_negation(nums1[a], nums2[a]);
            }
            lemma_common_factor(t, nums1, den1, nums2, den2, -1, n as int);
            lemma_primitive_negated(nums1.push(den1), nums2.push(den2));
            assert(g * den1 < 0);
            assert(den2 > 0) by (nonlinear_arith)
                requires
                    g > 0,
                    g * den1 < 0,
                    den2 == -den1,
            ;
        }
        SolutionVector { numerators: negated, denominator: positive }
    } else {
        proof {
            lemma_positive_factor(g, den1);
        }
        SolutionVector { numerators: reduced_all, denominator }
    }
}

/// Solves the square system `A x = b` exactly.
///
/// The result is the one rational vector that solves the system, where the
/// matrix is invertible, and the error where it is singular.
pub fn solve_system(a: &Vec<Vec<i128>>, b: &Vec<i128>) -> (solved: Result<
    SolutionVector,
    SingularSystemError,
>)
    requires
        square(matrix(a@)),
        b@.len() == a@.len(),
    ensures
        solved is Ok <==> !singular(matrix(a@)),
        match solved {
            Ok(x) => {
                &&& lowest_terms(x.nums(), x.den())
                &&& satisfies(matrix(a@), vector(b@), x.nums(), x.den())
                &&& forall|p: Seq<int>, q: int| #[trigger]
                    satisfies(matrix(a@), vector(b@), p, q) ==> proportional(
                        p,
                        q,
                        x.nums(),
                        x.den(),
                    )
            },
            Err(_) => true,
        },
{
    let n: usize = a.len();
    let mut m = augmented(a, b);
    let ghost start = table(m@);
    let ghost am = matrix(a@);
    let ghost bv = vector(b@);
    proof {
        lemma_augment(am, bv, Seq::empty(), 0);
    }
    let mut k: usize = 0;
    while k < n
        invariant
            am == matrix(a@),
            bv == vector(b@),
            n == am.len(),
            square(am),
            bv.len() == am.len(),
            start == augment(am, bv),
            k <= n,
            shaped(table(m@), n as int),
            reduced(table(m@), n as int, k as int),
            same_solutions(start, table(m@), n as int),
        decreases n - k,
    {
        match find_pivot(&m, k, n) {
            None => {
                proof {
                    let v = lemma_no_pivot(table(m@), n as int, k as int);
                    assert(annihilates(start, v, 0, n as int) == annihilates(
                        table(m@),
                        v,
                        0,
                        n as int,
                    ));
                    lemma_augment(am, bv, v, 0);
                    assert(in_kernel(am, v) && nonzero(v));
                }
                return Err(SingularSystemError);
            },
            Some(p) => {
                let ghost t0 = table(m@);
                if p != k {
                    exchange_rows(&mut m, k, p);
                    proof {
                        lemma_exchange(t0, k as int, p as int, k as int, n as int);
                        lemma_same_solutions_chain(start, t0, table(m@), n as int);
                    }
                }
                let ghost t1 = table(m@);
                eliminate_column(&mut m, k, n);
                proof {
                    lemma_same_solutions_chain(start, t1, table(m@), n as int);
                }
            },
        }
        k = k + 1;
    }
    let x = read_solution(&m, n);
    proof {
        let t = table(m@);
        assert(annihilates(start, x.nums(), x.den(), n as int) == annihilates(
            t,
            x.nums(),
            x.den(),
            n as int,
        ));
        lemma_augment(am, bv, x.nums(), x.den());
        assert forall|p: Seq<int>, q: int| #[trigger] satisfies(am, bv, p, q) implies proportional(
            p,
            q,
            x.nums(),
            x.den(),
        ) by {
            lemma_augment(am, bv, p, q);
            assert(annihilates(start, p, q, n as int) == annihilates(t, p, q, n as int));
            assert(agrees(p, q, x.nums(), x.den(), n as int));
        }
        if singular(am) {
            let v = choose|v: Seq<int>| #[trigger] in_kernel(am, v) && nonzero(v);
            lemma_augment(am, bv, v, 0);
            assert(annihilates(start, v, 0, n as int) == annihilates(t, v, 0, n as int));
            assert(agrees(v, 0, x.nums(), x.den(), n as int));
            let j = choose|j: int| 0 <= j < v.len() && #[trigger] v[j] != 0;
            assert(v[j] * x.den() == 0 * x.nums()[j]);
            assert(false) by (nonlinear_arith)
                requires
                    v[j] != 0,
                    x.den() > 0,
                    v[j] * x.den() == 0 * x.nums()[j],
            ;
        }
    }
    Ok(x)
}

/// Solving is determined by its inputs: two solutions in lowest terms
/// of a system with an invertible matrix have the same numerators and the
/// same denominator.
pub proof fn lemma_solution_is_determined(
    a: Seq<Seq<int>>,
    b: Seq<int>,
    p1: Seq<int>,
    q1: int,
    p2: Seq<int>,
    q2: int,
)
    requires
        !singular(a),
        satisfies(a, b, p1, q1),
        satisfies(a, b, p2, q2),
        lowest_terms(p1, q1),
        lowest_terms(p2, q2),
    ensures
        p1 == p2,
        q1 == q2,
{
    lemma_one_solution(a, b, p1, q1, p2, q2);
    lemma_lowest_terms_unique(p1, q1, p2, q2);
}

} // verus!
