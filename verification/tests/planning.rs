use satisfactory::graph::ProductionGraph;
use satisfactory::planner::{
    calculate_factory_requirements, coefficient_matrix, constant_vector, FactoryRequirements,
};
use satisfactory::solver::SingularSystemError;
use std::collections::HashMap;

fn fractions(x: &FactoryRequirements) -> (Vec<i64>, i64) {
    let mut nums: Vec<i64> = Vec::new();
    for i in 0..x.len() {
        nums.push(x.numerator(i).to_i64().unwrap());
    }
    (nums, x.denominator().to_i64().unwrap())
}

fn units(x: &FactoryRequirements) -> Vec<i64> {
    let mut counts: Vec<i64> = Vec::new();
    for i in 0..x.len() {
        counts.push(x.units(i).to_i64().unwrap());
    }
    counts
}

fn chain() -> ProductionGraph {
    let mut graph = ProductionGraph::new();
    graph.add_node(1, 30).unwrap();
    graph.add_node(2, 20).unwrap();
    graph.add_edge(1, 2, 30).unwrap();
    graph
}

fn cycle() -> ProductionGraph {
    let mut graph = ProductionGraph::new();
    graph.add_node(1, 10).unwrap();
    graph.add_node(2, 20).unwrap();
    graph.add_node(3, 30).unwrap();
    graph.add_edge(1, 2, 2).unwrap();
    graph.add_edge(2, 3, 3).unwrap();
    graph.add_edge(3, 1, 5).unwrap();
    graph
}

#[test]
fn matrix_holds_rates_and_negated_weights() {
    let graph = cycle();
    assert_eq!(
        coefficient_matrix(&graph),
        vec![vec![10, -2, 0], vec![0, 20, -3], vec![-5, 0, 30]]
    );
    let graph = chain();
    assert_eq!(coefficient_matrix(&graph), vec![vec![30, -30], vec![0, 20]]);
    assert_eq!(coefficient_matrix(&ProductionGraph::new()), Vec::<Vec<i128>>::new());
}

#[test]
fn matrix_subtracts_a_self_loop_from_the_rate() {
    let mut graph = ProductionGraph::new();
    graph.add_node(1, 10).unwrap();
    graph.add_edge(1, 1, 4).unwrap();
    assert_eq!(coefficient_matrix(&graph), vec![vec![6]]);
}

#[test]
fn matrix_takes_the_largest_rates_and_weights() {
    let mut graph = ProductionGraph::new();
    graph.add_node(1, u64::MAX).unwrap();
    graph.add_node(2, 0).unwrap();
    graph.add_edge(2, 1, u64::MAX).unwrap();
    graph.add_edge(2, 2, u64::MAX).unwrap();
    let max = u64::MAX as i128;
    assert_eq!(coefficient_matrix(&graph), vec![vec![max, 0], vec![-max, -max]]);
}

#[test]
fn constants_are_the_targets_and_zero_elsewhere() {
    let graph = cycle();
    let targets = HashMap::from([(3, 7), (1, -2), (99, 5)]);
    assert_eq!(constant_vector(&graph, &targets), vec![-2, 0, 7]);
    assert_eq!(constant_vector(&graph, &HashMap::new()), vec![0, 0, 0]);
    let limits = HashMap::from([(1, i64::MAX), (2, i64::MIN)]);
    assert_eq!(constant_vector(&graph, &limits), vec![i64::MAX as i128, i64::MIN as i128, 0]);
}

#[test]
fn independent_resources_need_target_over_rate() {
    let mut graph = ProductionGraph::new();
    graph.add_node(1, 30).unwrap();
    graph.add_node(2, 20).unwrap();
    graph.add_node(3, 7).unwrap();
    let x = calculate_factory_requirements(&graph, &HashMap::from([(2, 5)])).unwrap();
    assert_eq!(fractions(&x), (vec![0, 1, 0], 4));
    assert_eq!(units(&x), vec![0, 1, 0]);
    let x = calculate_factory_requirements(&graph, &HashMap::from([(1, 45), (3, 3)])).unwrap();
    // 45 / 30 = 3 / 2 = 21 / 14 and 3 / 7 = 6 / 14
    assert_eq!(fractions(&x), (vec![21, 0, 6], 14));
    assert_eq!(units(&x), vec![2, 0, 1]);
}

#[test]
fn two_node_chain_needs_one_unit_of_each() {
    let graph = chain();
    let x = calculate_factory_requirements(&graph, &HashMap::from([(2, 20)])).unwrap();
    assert_eq!(x.len(), 2);
    assert_eq!(x.resource(0), 1);
    assert_eq!(x.resource(1), 2);
    assert_eq!(fractions(&x), (vec![1, 1], 1));
    assert_eq!(units(&x), vec![1, 1]);
}

#[test]
fn solving_a_graph_twice_gives_the_same_result() {
    let graph = cycle();
    let targets = HashMap::from([(1, 6), (3, 1)]);
    let first = calculate_factory_requirements(&graph, &targets).unwrap();
    let second = calculate_factory_requirements(&graph, &targets).unwrap();
    assert_eq!(fractions(&first), fractions(&second));
    assert_eq!(graph.nodes(), vec![(1, 10), (2, 20), (3, 30)]);
    assert_eq!(graph.edges(), vec![(0, 1, 2), (1, 2, 3), (2, 0, 5)]);
}

#[test]
fn resource_without_rate_and_without_target_is_singular() {
    let mut graph = ProductionGraph::new();
    graph.add_node(1, 30).unwrap();
    graph.add_node(2, 0).unwrap();
    let planned = calculate_factory_requirements(&graph, &HashMap::from([(1, 30)]));
    assert_eq!(planned.err(), Some(SingularSystemError));
    // the same where the idle resource is consumed, or consumes
    let mut graph = ProductionGraph::new();
    graph.add_node(1, 30).unwrap();
    graph.add_node(2, 0).unwrap();
    graph.add_edge(2, 1, 3).unwrap();
    let planned = calculate_factory_requirements(&graph, &HashMap::from([(1, 30)]));
    assert_eq!(planned.err(), Some(SingularSystemError));
    let mut graph = ProductionGraph::new();
    graph.add_node(1, 30).unwrap();
    graph.add_node(2, 0).unwrap();
    graph.add_edge(1, 2, 3).unwrap();
    let planned = calculate_factory_requirements(&graph, &HashMap::from([(1, 30)]));
    assert_eq!(planned.err(), Some(SingularSystemError));
}

#[test]
fn resource_without_rate_inside_a_cycle_can_be_solved() {
    let mut graph = ProductionGraph::new();
    graph.add_node(1, 0).unwrap();
    graph.add_node(2, 5).unwrap();
    graph.add_edge(1, 2, 1).unwrap();
    graph.add_edge(2, 1, 2).unwrap();
    // -y = 0 and 5y - 2x = 4
    let x = calculate_factory_requirements(&graph, &HashMap::from([(2, 4)])).unwrap();
    assert_eq!(fractions(&x), (vec![-2, 0], 1));
}

#[test]
fn self_loop_that_consumes_the_whole_rate_is_singular() {
    let mut graph = ProductionGraph::new();
    graph.add_node(1, 10).unwrap();
    graph.add_edge(1, 1, 10).unwrap();
    let planned = calculate_factory_requirements(&graph, &HashMap::from([(1, 5)]));
    assert_eq!(planned.err(), Some(SingularSystemError));
}

#[test]
fn scaling_the_targets_scales_the_solution() {
    let graph = cycle();
    let once = calculate_factory_requirements(&graph, &HashMap::from([(1, 6), (2, 4)])).unwrap();
    let thrice =
        calculate_factory_requirements(&graph, &HashMap::from([(1, 18), (2, 12)])).unwrap();
    let (p, q) = fractions(&once);
    let (p3, q3) = fractions(&thrice);
    for i in 0..3 {
        assert_eq!(p3[i] * q, 3 * p[i] * q3);
    }
    assert_ne!(p, vec![0, 0, 0]);
}

#[test]
fn three_node_cycle_is_solved() {
    // 10a - 2b = 6, 20b - 3c = 0, 30c - 5a = 0
    let graph = cycle();
    let x = calculate_factory_requirements(&graph, &HashMap::from([(1, 6)])).unwrap();
    assert_eq!(fractions(&x), (vec![120, 3, 20], 199));
    assert_eq!(units(&x), vec![1, 1, 1]);
}

#[test]
fn empty_graph_needs_nothing() {
    let graph = ProductionGraph::new();
    let x = calculate_factory_requirements(&graph, &HashMap::from([(1, 6)])).unwrap();
    assert_eq!(x.len(), 0);
    assert_eq!(x.denominator().to_i64(), Some(1));
}

#[test]
fn sample_production_chain() {
    let rates: [u64; 21] =
        [30, 30, 20, 15, 40, 5, 2, 4, 2, 30, 10, 30, 30, 30, 30, 30, 45, 60, 15, 20, 2];
    let edges: [(u64, u64, u64); 23] = [
        (2, 5, 30),
        (4, 5, 60),
        (5, 6, 3),
        (3, 6, 12),
        (3, 7, 20),
        (4, 7, 100),
        (5, 8, 2),
        (7, 8, 2),
        (1, 2, 30),
        (1, 3, 15),
        (3, 4, 10),
        (9, 10, 20),
        (9, 11, 15),
        (11, 12, 60),
        (13, 14, 45),
        (0, 1, 30),
        (15, 9, 30),
        (0, 16, 45),
        (17, 16, 45),
        (16, 18, 60),
        (16, 19, 60),
        (6, 20, 12),
        (18, 20, 60),
    ];
    let mut graph = ProductionGraph::new();
    for (resource, rate) in rates.iter().enumerate() {
        graph.add_node(resource as u64, *rate).unwrap();
    }
    for (source, target, weight) in edges {
        graph.add_edge(source, target, weight).unwrap();
    }
    let x = calculate_factory_requirements(&graph, &HashMap::from([(20, 2)])).unwrap();
    assert_eq!(
        fractions(&x),
        (vec![264, 144, 81, 126, 81, 54, 90, 0, 0, 0, 0, 0, 0, 0, 0, 0, 80, 60, 60, 0, 15], 15)
    );
    assert_eq!(units(&x), vec![18, 10, 6, 9, 6, 4, 6, 0, 0, 0, 0, 0, 0, 0, 0, 0, 6, 4, 4, 0, 1]);
}
