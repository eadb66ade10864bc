//! From a production graph and target rates to the number of production
//! units of each resource.
//!
//! Row `i` of the system is the conservation law of resource `i`: what its
//! units produce, less what the units of other resources consume of it, is
//! the rate demanded of it.

use crate::bigint::BigInt;
use crate::graph::{Network, ProductionGraph};
use crate::divisibility::lowest_terms;
use crate::elimination::lemma_zero_row_singular;
use crate::linear::{
    dot, in_kernel, lemma_cancel, lemma_dot_agree, lemma_dot_combine, lemma_dot_single,
    lemma_one_solution, lemma_scaled_constants, lemma_zero_column_singular, nonzero,
    proportional, satisfies, scaled, singular, square,
};
use crate::solver::{matrix, solve_system, vector, SingularSystemError, SolutionVector};
use std::collections::HashMap;
use vstd::prelude::*;

verus! {

impl Network {
    /// What one unit of node `j` consumes of node `i`, over the first `k`
    /// edges.
    pub open spec fn consumed(self, i: int, j: int, k: int) -> int
        decreases k,
    {
        if k <= 0 {
            0
        } else if self.edges[k - 1].0 == i && self.edges[k - 1].1 == j {
            self.consumed(i, j, k - 1) + self.edges[k - 1].2
        } else {
            self.consumed(i, j, k - 1)
        }
    }

    /// The output rate of one unit of node `i`.
    pub open spec fn rate(self, i: int) -> int {
        self.nodes[i].1 as int
    }

    /// The coefficient of the units of node `j` in the conservation law of
    /// node `i`.
    pub open spec fn coefficient(self, i: int, j: int) -> int {
        (if i == j {
            self.rate(i)
        } else {
            0
        }) - self.consumed(i, j, self.edges.len() as int)
    }

    /// The coefficient matrix, a row for each node.
    pub open spec fn coefficients(self) -> Seq<Seq<int>> {
        Seq::new(
            self.nodes.len(),
            |i: int| Seq::new(self.nodes.len(), |j: int| self.coefficient(i, j)),
        )
    }

    /// The rate demanded of node `i`: its entry in the target rates, and zero
    /// without one.
    pub open spec fn target(self, targets: Map<u64, i64>, i: int) -> int {
        if targets.contains_key(self.nodes[i].0) {
            targets[self.nodes[i].0] as int
        } else {
            0
        }
    }

    /// The constant vector, an entry for each node.
    pub open spec fn constants(self, targets: Map<u64, i64>) -> Seq<int> {
        Seq::new(self.nodes.len(), |i: int| self.target(targets, i))
    }

    /// Whether the unit counts `p / q` meet every conservation law.
    pub open spec fn balanced(self, targets: Map<u64, i64>, p: Seq<int>, q: int) -> bool {
        satisfies(self.coefficients(), self.constants(targets), p, q)
    }

    proof fn lemma_consumed_bound(self, i: int, j: int, k: int)
        ensures
            0 <= self.consumed(i, j, k),
            0 <= k ==> self.consumed(i, j, k) <= k * 0xffff_ffff_ffff_ffff,
        decreases k,
    {
        if k > 0 {
            self.lemma_consumed_bound(i, j, k - 1);
        }
    }
}

/// The unit counts that a production graph needs for given target rates.
#[derive(Debug)]
pub struct FactoryRequirements {
    resources: Vec<u64>,
    solution: SolutionVector,
}

impl FactoryRequirements {
    /// The resources, in the order of the graph's nodes.
    pub closed spec fn resources(&self) -> Seq<u64> {
        self.resources@
    }

    /// The numerators of the unit counts, in the order of the graph's nodes.
    pub closed spec fn nums(&self) -> Seq<int> {
        self.solution.nums()
    }

    /// The common denominator of the unit counts.
    pub closed spec fn den(&self) -> int {
        self.solution.den()
    }

    /// Well-formedness: a unit count for each resource, over a positive
    /// denominator.
    pub open spec fn wf(&self) -> bool {
        &&& self.nums().len() == self.resources().len()
        &&& lowest_terms(self.nums(), self.den())
    }

    /// The number of resources.
    pub fn len(&self) -> (n: usize)
        ensures
            n == self.resources().len(),
    {
        self.resources.len()
    }

    /// The resource at position `i`.
    pub fn resource(&self, i: usize) -> (resource: u64)
        requires
            i < self.resources().len(),
        ensures
            resource == self.resources()[i as int],
    {
        self.resources[i]
    }

    /// The numerator of the unit count at position `i`.
    pub fn numerator(&self, i: usize) -> (num: BigInt)
        requires
            self.wf(),
            i < self.resources().len(),
        ensures
            num@ == self.nums()[i as int],
    {
        self.solution.numerator(i)
    }

    /// The common denominator of the unit counts.
    pub fn denominator(&self) -> (den: BigInt)
        ensures
            den@ == self.den(),
    {
        self.solution.denominator()
    }

    /// The number of production units to build at position `i`: the unit
    /// count rounded up, as partial units cannot be built.
    pub fn units(&self, i: usize) -> (count: BigInt)
        requires
            self.wf(),
            i < self.resources().len(),
        ensures
            count@ * self.den() >= self.nums()[i as int],
            (count@ - 1) * self.den() < self.nums()[i as int],
    {
        self.solution.units(i)
    }
}

/// Row `i` of the coefficient matrix.
fn coefficient_row(
    nodes: &Vec<(u64, u64)>,
    edges: &Vec<(usize, usize, u64)>,
    i: usize,
    Ghost(net): Ghost<Network>,
) -> (row: Vec<i128>)
    requires
        net.nodes == nodes@,
        net.edges == edges@,
        net.valid(),
        net.edges.len() <= u32::MAX,
        i < nodes@.len(),
    ensures
        vector(row@) == net.coefficients()[i as int],
{
    let n: usize = nodes.len();
    let mut row: Vec<i128> = Vec::new();
    let mut j: usize = 0;
    while j < n
        invariant
            n == nodes@.len(),
            net.nodes == nodes@,
            i < n,
            j <= n,
            row@.len() == j,
            forall|t: int|
                0 <= t < j ==> #[trigger] row@[t] == (if t == i {
                    net.rate(i as int)
                } else {
                    0
                }) - net.consumed(i as int, t, 0),
        decreases n - j,
    {
        if j == i {
            row.push(nodes[i].1 as i128);
        } else {
            row.push(0);
        }
        j = j + 1;
    }
    let mut e: usize = 0;
    while e < edges.len()
        invariant
            n == nodes@.len(),
            net.nodes == nodes@,
            net.edges == edges@,
            net.valid(),
            net.edges.len() <= u32::MAX,
            i < n,
            e <= edges@.len(),
            row@.len() == n,
            forall|t: int|
                0 <= t < n ==> #[trigger] row@[t] == (if t == i {
                    net.rate(i as int)
                } else {
                    0
                }) - net.consumed(i as int, t, e as int),
        decreases edges@.len() - e,
    {
        let (s, t, w) = edges[e];
        assert(net.edges[e as int].0 < n && net.edges[e as int].1 < n);
        if s == i {
            proof {
                net.lemma_consumed_bound(i as int, t as int, e as int);
                assert(e * 0xffff_ffff_ffff_ffff <= 0xffff_ffff * 0xffff_ffff_ffff_ffff)
                    by (nonlinear_arith)
                    requires
                        e <= 0xffff_ffff,
                ;
            }
            let entry: i128 = row[t] - w as i128;
            row.set(t, entry);
        }
        e = e + 1;
    }
    assert(vector(row@) =~= net.coefficients()[i as int]);
    row
}

/// The coefficient matrix of a graph: the rate of each node on the diagonal,
/// less, in row `s` and column `t`, the weight of the edge from `s` to `t`.
pub fn coefficient_matrix(graph: &ProductionGraph) -> (a: Vec<Vec<i128>>)
    requires
        graph.wf(),
    ensures
        matrix(a@) == graph@.coefficients(),
{
    proof {
        graph.lemma_valid();
    }
    let nodes = graph.nodes();
    let edges = graph.edges();
    let n: usize = nodes.len();
    let mut a: Vec<Vec<i128>> = Vec::new();
    let mut i: usize = 0;
    while i < n
        invariant
            n == nodes@.len(),
            graph@.nodes == nodes@,
            graph@.edges == edges@,
            graph@.valid(),
            graph@.edges.len() <= u32::MAX,
            i <= n,
            a@.len() == i,
            forall|t: int| 0 <= t < i ==> vector(#[trigger] a@[t]@) == graph@.coefficients()[t],
        decreases n - i,
    {
        a.push(coefficient_row(&nodes, &edges, i, Ghost(graph@)));
        i = i + 1;
    }
    assert(matrix(a@) =~= graph@.coefficients());
    a
}

/// The constant vector of a graph for given target rates: the target of each
/// node's resource, and zero for a resource without one.
pub fn constant_vector(graph: &ProductionGraph, target_rates: &HashMap<u64, i64>) -> (b: Vec<
    i128,
>)
    requires
        graph.wf(),
    ensures
        vector(b@) == graph@.constants(target_rates@),
{
    broadcast use vstd::std_specs::hash::group_hash_axioms;

    let nodes = graph.nodes();
    let n: usize = nodes.len();
    let mut b: Vec<i128> = Vec::new();
    let mut i: usize = 0;
    while i < n
        invariant
            n == nodes@.len(),
            graph@.nodes == nodes@,
            i <= n,
            b@.len() == i,
            forall|t: int| 0 <= t < i ==> #[trigger] b@[t] == graph@.target(target_rates@, t),
        decreases n - i,
    {
        let resource: u64 = nodes[i].0;
        match target_rates.get(&resource) {
            Some(rate) => {
                b.push(*rate as i128);
            },
            None => {
                b.push(0);
            },
        }
        i = i + 1;
    }
    assert(vector(b@) =~= graph@.constants(target_rates@));
    b
}

/// The number of production units of each resource that sustains the target
/// rates: the one solution of the conservation laws, or the error where the
/// laws do not determine one.
pub fn calculate_factory_requirements(
    graph: &ProductionGraph,
    target_rates: &HashMap<u64, i64>,
) -> (planned: Result<FactoryRequirements, SingularSystemError>)
    requires
        graph.wf(),
    ensures
        planned is Ok <==> !singular(graph@.coefficients()),
        match planned {
            Ok(x) => {
                &&& x.wf()
                &&& x.resources().len() == graph@.nodes.len()
                &&& forall|i: int|
                    0 <= i < graph@.nodes.len() ==> #[trigger] x.resources()[i]
                        == graph@.nodes[i].0
                &&& graph@.balanced(target_rates@, x.nums(), x.den())
                &&& forall|p: Seq<int>, q: int| #[trigger]
                    graph@.balanced(target_rates@, p, q) ==> proportional(p, q, x.nums(), x.den())
            },
            Err(_) => true,
        },
{
    let a = coefficient_matrix(graph);
    let b = constant_vector(graph, target_rates);
    let nodes = graph.nodes();
    assert(matrix(a@).len() == a@.len());
    assert(vector(b@).len() == b@.len());
    assert(square(matrix(a@)));
    match solve_system(&a, &b) {
        Err(e) => Err(e),
        Ok(solution) => {
            let mut resources: Vec<u64> = Vec::new();
            let mut i: usize = 0;
            while i < nodes.len()
                invariant
                    i <= nodes@.len(),
                    resources@.len() == i,
                    forall|t: int| 0 <= t < i ==> #[trigger] resources@[t] == nodes@[t].0,
                decreases nodes@.len() - i,
            {
                resources.push(nodes[i].0);
                i = i + 1;
            }
            Ok(FactoryRequirements { resources, solution })
        },
    }
}

impl Network {
    /// What the units `p` of the other nodes consume of node `i`, over the
    /// first `k` edges.
    pub open spec fn drawn(self, i: int, p: Seq<int>, k: int) -> int
        decreases k,
    {
        if k <= 0 {
            0
        } else if self.edges[k - 1].0 == i {
            self.drawn(i, p, k - 1) + self.edges[k - 1].2 * p[self.edges[k - 1].1 as int]
        } else {
            self.drawn(i, p, k - 1)
        }
    }

    /// Row `i` of the coefficient matrix over the first `k` edges.
    pub open spec fn partial_row(self, i: int, k: int) -> Seq<int> {
        Seq::new(
            self.nodes.len(),
            |j: int|
                (if i == j {
                    self.rate(i)
                } else {
                    0
                }) - self.consumed(i, j, k),
        )
    }

    proof fn lemma_partial_row(self, i: int, p: Seq<int>, k: int)
        requires
            self.edges_in_range(),
            0 <= i < self.nodes.len(),
            0 <= k <= self.edges.len(),
        ensures
            dot(self.partial_row(i, k), p, self.nodes.len() as int) == self.rate(i) * p[i]
                - self.drawn(i, p, k),
        decreases k,
    {
        let n = self.nodes.len() as int;
        let row = self.partial_row(i, k);
        if k == 0 {
            lemma_dot_single(row, p, n, i);
        } else {
            self.lemma_partial_row(i, p, k - 1);
            let before = self.partial_row(i, k - 1);
            let e = self.edges[k - 1];
            assert(e.0 < n && e.1 < n);
            if e.0 == i {
                let t = e.1 as int;
                let w = e.2 as int;
                let u = Seq::new(self.nodes.len(), |j: int| if j == t { 1int } else { 0int });
                assert forall|j: int| 0 <= j < n implies 1 * before[j] - w * u[j] == 1
                    * #[trigger] row[j] by {
                    if j == t {
                        assert(w * u[j] == w) by (nonlinear_arith)
                            requires
                                u[j] == 1,
                        ;
                    } else {
                        assert(w * u[j] == 0) by (nonlinear_arith)
                            requires
                                u[j] == 0,
                        ;
                    }
                }
                lemma_dot_combine(before, u, row, p, 1, w, 1, n);
                lemma_dot_single(u, p, n, t);
                assert(u[t] * p[t] == p[t]) by (nonlinear_arith)
                    requires
                        u[t] == 1,
                ;
            } else {
                lemma_dot_agree(before, row, p, p, n);
            }
        }
    }

    /// Planning is determined by its inputs: two plans in lowest terms that
    /// meet the conservation laws of the same graph and targets have the same
    /// numerators and the same denominator.
    pub proof fn lemma_plan_is_determined(
        self,
        targets: Map<u64, i64>,
        p1: Seq<int>,
        q1: int,
        p2: Seq<int>,
        q2: int,
    )
        requires
            !singular(self.coefficients()),
            self.balanced(targets, p1, q1),
            self.balanced(targets, p2, q2),
            lowest_terms(p1, q1),
            lowest_terms(p2, q2),
        ensures
            p1 == p2,
            q1 == q2,
    {
        crate::solver::lemma_solution_is_determined(
            self.coefficients(),
            self.constants(targets),
            p1,
            q1,
            p2,
            q2,
        );
    }

    /// The conservation law behind each row: what the units of node `i`
    /// produce, less what the units of the other nodes consume of it.
    pub proof fn lemma_conservation(self, i: int, p: Seq<int>)
        requires
            self.edges_in_range(),
            0 <= i < self.nodes.len(),
        ensures
            dot(self.coefficients()[i], p, self.nodes.len() as int) == self.rate(i) * p[i]
                - self.drawn(i, p, self.edges.len() as int),
    {
        self.lemma_partial_row(i, p, self.edges.len() as int);
        assert(self.coefficients()[i] =~= self.partial_row(i, self.edges.len() as int));
    }

    proof fn lemma_consumed_nothing(self, i: int, j: int, k: int)
        requires
            0 <= k <= self.edges.len(),
            forall|e: int|
                0 <= e < self.edges.len() ==> !((#[trigger] self.edges[e]).0 == i
                    && self.edges[e].1 == j),
        ensures
            self.consumed(i, j, k) == 0,
        decreases k,
    {
        if k > 0 {
            self.lemma_consumed_nothing(i, j, k - 1);
        }
    }

    /// Without edges every resource is planned alone: its unit count is its
    /// target over its rate, and zero where it has no target.
    pub proof fn lemma_independent_resources(self, targets: Map<u64, i64>, p: Seq<int>, q: int)
        requires
            self.edges.len() == 0,
            self.balanced(targets, p, q),
        ensures
            forall|i: int|
                0 <= i < self.nodes.len() ==> self.rate(i) * #[trigger] p[i] == q * self.target(
                    targets,
                    i,
                ),
            forall|i: int|
                0 <= i < self.nodes.len() && self.rate(i) != 0 && self.target(targets, i) == 0
                    ==> #[trigger] p[i] == 0,
    {
        let n = self.nodes.len() as int;
        assert forall|i: int| 0 <= i < n implies self.rate(i) * #[trigger] p[i] == q
            * self.target(targets, i) by {
            let row = self.coefficients()[i];
            assert(dot(row, p, n) == q * self.constants(targets)[i]);
            lemma_dot_single(row, p, n, i);
        }
        assert forall|i: int|
            0 <= i < n && self.rate(i) != 0 && self.target(targets, i) == 0 implies #[trigger] p[i]
            == 0 by {
            assert(self.rate(i) * p[i] == q * self.target(targets, i));
            assert(q * self.target(targets, i) == 0) by (nonlinear_arith)
                requires
                    self.target(targets, i) == 0,
            ;
            lemma_cancel(self.rate(i), p[i]);
        }
    }

    /// Without edges the system is invertible as soon as every rate is
    /// positive, so that the plan exists.
    pub proof fn lemma_independent_invertible(self)
        requires
            self.edges.len() == 0,
            forall|i: int| 0 <= i < self.nodes.len() ==> self.rate(i) != 0,
        ensures
            !singular(self.coefficients()),
    {
        let a = self.coefficients();
        let n = self.nodes.len() as int;
        if singular(a) {
            let v = choose|v: Seq<int>| #[trigger] in_kernel(a, v) && nonzero(v);
            let j = choose|j: int| 0 <= j < v.len() && #[trigger] v[j] != 0;
            assert(dot(a[j], v, n) == 0);
            lemma_dot_single(a[j], v, n, j);
            assert(self.rate(j) != 0);
            lemma_cancel(self.rate(j), v[j]);
        }
    }

    /// A resource without output whose resource nothing consumes, or which
    /// itself consumes nothing, makes the system singular, whatever the
    /// targets are.
    pub proof fn lemma_idle_resource(self, i: int)
        requires
            0 <= i < self.nodes.len(),
            self.rate(i) == 0,
            (forall|e: int| 0 <= e < self.edges.len() ==> (#[trigger] self.edges[e]).0 != i) || (
            forall|e: int| 0 <= e < self.edges.len() ==> (#[trigger] self.edges[e]).1 != i),
        ensures
            singular(self.coefficients()),
    {
        let a = self.coefficients();
        let n = self.nodes.len() as int;
        if forall|e: int| 0 <= e < self.edges.len() ==> (#[trigger] self.edges[e]).0 != i {
            assert forall|j: int| 0 <= j < n implies #[trigger] a[i][j] == 0 by {
                self.lemma_consumed_nothing(i, j, self.edges.len() as int);
            }
            lemma_zero_row_singular(a, i);
        } else {
            assert forall|t: int| 0 <= t < n implies (#[trigger] a[t])[i] == 0 by {
                self.lemma_consumed_nothing(t, i, self.edges.len() as int);
            }
            lemma_zero_column_singular(a, i);
        }
    }

    /// Linearity in the targets: where every target is multiplied by the
    /// positive factor `ka / kb`, so is every unit count.
    pub proof fn lemma_scaled_targets(
        self,
        targets: Map<u64, i64>,
        targets2: Map<u64, i64>,
        p: Seq<int>,
        q: int,
        ka: int,
        kb: int,
    )
        requires
            ka > 0,
            kb > 0,
            self.balanced(targets, p, q),
            targets2.dom() == targets.dom(),
            forall|r: u64| #[trigger]
                targets.contains_key(r) ==> kb * targets2[r] == ka * targets[r],
        ensures
            self.balanced(targets2, scaled(p, ka), kb * q),
    {
        let b = self.constants(targets);
        let b2 = self.constants(targets2);
        assert forall|i: int| 0 <= i < self.nodes.len() implies kb * #[trigger] b2[i] == ka
            * b[i] by {
            let r = self.nodes[i].0;
            assert(targets2.contains_key(r) == targets.contains_key(r));
            if targets.contains_key(r) {
                assert(kb * targets2[r] == ka * targets[r]);
            }
        }
        lemma_scaled_constants(self.coefficients(), b, b2, p, q, ka, kb);
    }

    /// The unit counts are determined by the graph and the targets: any two
    /// plans that meet the conservation laws are the same rational vector.
    pub proof fn lemma_plan_is_unique(
        self,
        targets: Map<u64, i64>,
        p1: Seq<int>,
        q1: int,
        p2: Seq<int>,
        q2: int,
    )
        requires
            !singular(self.coefficients()),
            self.balanced(targets, p1, q1),
            self.balanced(targets, p2, q2),
        ensures
            proportional(p1, q1, p2, q2),
    {
        lemma_one_solution(self.coefficients(), self.constants(targets), p1, q1, p2, q2);
    }
}

} // verus!
