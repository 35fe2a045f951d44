use cppn_develop::SCALE;
use cppn_develop::graph::{Edge, Graph, Neuron, NodeCount, NodeLabel};
use cppn_develop::normalize::{determine_edge_value_range, normalize_to_closed01};
use cppn_develop::similarity::GraphSimilarity;

fn simple_graph(nodes: Vec<Neuron>, edges: Vec<(usize, usize, i64)>) -> Graph {
    Graph {
        nodes,
        edges: edges
            .into_iter()
            .map(|(source, target, weight)| Edge { source, target, weight })
            .collect(),
    }
}

#[test]
fn role_counting() {
    let g = simple_graph(
        vec![
            Neuron::Input,
            Neuron::Hidden,
            Neuron::Output,
            Neuron::Hidden,
            Neuron::Input,
            Neuron::Hidden,
        ],
        vec![],
    );
    let cnt = NodeCount::from_graph(&g);
    assert_eq!(cnt.inputs, 2);
    assert_eq!(cnt.outputs, 1);
    assert_eq!(cnt.hidden, 3);
}

#[test]
fn node_label_defaults() {
    let n = Neuron::Hidden;
    assert_eq!(n.node_label(0), None);
    assert_eq!(n.node_shape(), "circle");
}

#[test]
fn degenerate_normalization_maps_to_zero() {
    assert_eq!(normalize_to_closed01(7, (7, 7)), 0);
    assert_eq!(normalize_to_closed01(-3, (-3, -3)), 0);
}

#[test]
fn normalization_is_linear_rescaling() {
    assert_eq!(normalize_to_closed01(0, (0, 10)), 0);
    assert_eq!(normalize_to_closed01(5, (0, 10)), SCALE / 2);
    assert_eq!(normalize_to_closed01(10, (0, 10)), SCALE);
    assert_eq!(normalize_to_closed01(-1, (-1, 3)), 0);
    assert_eq!(normalize_to_closed01(3, (-1, 3)), SCALE);
}

#[test]
fn edge_value_range_observes_min_and_max() {
    assert_eq!(determine_edge_value_range(&vec![3, -1, 7, 0]), (-1, 7));
    assert_eq!(determine_edge_value_range(&vec![5]), (5, 5));
}

#[test]
fn fitness_bounds_with_and_without_edge_score() {
    let target = simple_graph(
        vec![Neuron::Input, Neuron::Hidden, Neuron::Output],
        vec![(0, 1, SCALE), (1, 2, SCALE / 2)],
    );
    let candidate = simple_graph(
        vec![Neuron::Input, Neuron::Output],
        vec![(0, 1, SCALE / 4)],
    );
    for edge_score in [false, true] {
        let sim = GraphSimilarity { target_graph: target.clone(), edge_score, iters: 10, eps: 1 };
        let f = sim.fitness(&candidate);
        assert!(0 <= f && f <= SCALE, "fitness {} out of range", f);
        let self_f = sim.fitness(&target);
        assert!(0 <= self_f && self_f <= SCALE);
    }
}

#[test]
fn self_similarity_is_maximal() {
    let target = simple_graph(
        vec![Neuron::Input, Neuron::Hidden, Neuron::Output],
        vec![(0, 1, SCALE), (1, 2, SCALE / 3), (0, 2, 0)],
    );
    for edge_score in [false, true] {
        let sim = GraphSimilarity { target_graph: target.clone(), edge_score, iters: 5, eps: 0 };
        let f = sim.fitness(&target);
        assert_eq!(f, SCALE);
    }
}

#[test]
fn mismatched_roles_score_zero() {
    let target = simple_graph(vec![Neuron::Input], vec![]);
    let candidate = simple_graph(vec![Neuron::Output], vec![]);
    let sim = GraphSimilarity { target_graph: target, edge_score: false, iters: 3, eps: 1 };
    assert_eq!(sim.fitness(&candidate), 0);
}

#[test]
fn fitness_normalizes_by_larger_node_count() {
    // One fully compatible node against a two-node target: the assignment
    // covers one pair at full scale, normalized by the larger node count.
    let target = simple_graph(vec![Neuron::Input, Neuron::Input], vec![]);
    let candidate = simple_graph(vec![Neuron::Input], vec![]);
    let sim = GraphSimilarity { target_graph: target, edge_score: false, iters: 4, eps: 0 };
    assert_eq!(sim.fitness(&candidate), SCALE / 2);
}

#[test]
fn edge_score_multiplies_weight_similarity() {
    // Identical structure but maximally different edge weights: the node
    // score saturates while the edge-weight factor drops to zero.
    let target = simple_graph(vec![Neuron::Input], vec![(0, 0, SCALE)]);
    let candidate = simple_graph(vec![Neuron::Input], vec![(0, 0, 0)]);
    let with_edges = GraphSimilarity { target_graph: target.clone(), edge_score: true, iters: 3, eps: 0 };
    assert_eq!(with_edges.fitness(&candidate), 0);
    let without_edges = GraphSimilarity { target_graph: target, edge_score: false, iters: 3, eps: 0 };
    assert_eq!(without_edges.fitness(&candidate), SCALE);
}
