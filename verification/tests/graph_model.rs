use satisfactory::graph::{GraphError, ProductionGraph};

#[test]
fn new_graph_is_empty() {
    let graph = ProductionGraph::new();
    assert_eq!(graph.node_count(), 0);
    assert_eq!(graph.edge_count(), 0);
    assert!(graph.nodes().is_empty());
    assert!(graph.edges().is_empty());
}

#[test]
fn add_node_numbers_nodes_densely() {
    let mut graph = ProductionGraph::new();
    assert_eq!(graph.add_node(7, 30), Ok(0));
    assert_eq!(graph.add_node(3, 20), Ok(1));
    assert_eq!(graph.add_node(9, 0), Ok(2));
    assert_eq!(graph.node_count(), 3);
    assert_eq!(graph.nodes(), vec![(7, 30), (3, 20), (9, 0)]);
    assert_eq!(graph.index_of(7), Some(0));
    assert_eq!(graph.index_of(3), Some(1));
    assert_eq!(graph.index_of(9), Some(2));
    assert_eq!(graph.index_of(4), None);
}

#[test]
fn add_node_refuses_a_registered_resource() {
    let mut graph = ProductionGraph::new();
    assert_eq!(graph.add_node(7, 30), Ok(0));
    assert_eq!(graph.add_node(7, 45), Err(GraphError::DuplicateResource));
    assert_eq!(graph.node_count(), 1);
    assert_eq!(graph.nodes(), vec![(7, 30)]);
}

#[test]
fn add_edge_records_source_target_and_weight() {
    let mut graph = ProductionGraph::new();
    graph.add_node(10, 30).unwrap();
    graph.add_node(20, 20).unwrap();
    graph.add_node(30, 5).unwrap();
    assert_eq!(graph.add_edge(10, 20, 30), Ok(()));
    assert_eq!(graph.add_edge(20, 30, 60), Ok(()));
    assert_eq!(graph.add_edge(30, 10, 1), Ok(()));
    assert_eq!(graph.edge_count(), 3);
    assert_eq!(graph.edges(), vec![(0, 1, 30), (1, 2, 60), (2, 0, 1)]);
    assert_eq!(graph.node_count(), 3);
}

#[test]
fn add_edge_refuses_an_unknown_endpoint() {
    let mut graph = ProductionGraph::new();
    graph.add_node(10, 30).unwrap();
    assert_eq!(graph.add_edge(10, 11, 5), Err(GraphError::UnknownResource));
    assert_eq!(graph.add_edge(11, 10, 5), Err(GraphError::UnknownResource));
    assert_eq!(graph.add_edge(11, 12, 0), Err(GraphError::UnknownResource));
    assert_eq!(graph.edge_count(), 0);
}

#[test]
fn add_edge_refuses_weight_zero() {
    let mut graph = ProductionGraph::new();
    graph.add_node(10, 30).unwrap();
    graph.add_node(20, 20).unwrap();
    assert_eq!(graph.add_edge(10, 20, 0), Err(GraphError::ZeroWeight));
    assert_eq!(graph.edge_count(), 0);
    assert_eq!(graph.add_edge(10, 20, 4), Ok(()));
}

#[test]
fn add_edge_refuses_a_second_edge_between_the_same_pair() {
    let mut graph = ProductionGraph::new();
    graph.add_node(10, 30).unwrap();
    graph.add_node(20, 20).unwrap();
    assert_eq!(graph.add_edge(10, 20, 4), Ok(()));
    assert_eq!(graph.add_edge(10, 20, 9), Err(GraphError::DuplicateEdge));
    assert_eq!(graph.edges(), vec![(0, 1, 4)]);
    // the opposite direction is another pair
    assert_eq!(graph.add_edge(20, 10, 9), Ok(()));
    assert_eq!(graph.edges(), vec![(0, 1, 4), (1, 0, 9)]);
}

#[test]
fn add_edge_accepts_a_self_loop_once() {
    let mut graph = ProductionGraph::new();
    graph.add_node(10, 30).unwrap();
    assert_eq!(graph.add_edge(10, 10, 4), Ok(()));
    assert_eq!(graph.add_edge(10, 10, 4), Err(GraphError::DuplicateEdge));
    assert_eq!(graph.edges(), vec![(0, 0, 4)]);
}
