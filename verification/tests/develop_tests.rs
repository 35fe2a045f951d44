use cppn_develop::builders::{CoordinateDeltaEvaluator, RecordingBuilder};
use cppn_develop::develop::{develop_network, behavioral_bitvec};
use cppn_develop::fingerprint::BehavioralBitvec;
use cppn_develop::substrate::{Link, Node, Position};

fn pos(coords: [i64; 4]) -> Position {
    Position::new(vec![coords[0], coords[1], coords[2], coords[3]])
}

fn node(coords: [i64; 4]) -> Node<()> {
    Node { position: pos(coords), node_info: () }
}

fn bits_of(bv: &BehavioralBitvec) -> Vec<bool> {
    let mut out = Vec::new();
    let mut i = 0;
    while let Some(b) = bv.get(i) {
        out.push(b);
        i += 1;
    }
    out
}

#[test]
fn fingerprint_push_records_sign_bits() {
    let mut bv = BehavioralBitvec::new(3);
    assert_eq!(bv.len(), 3);
    assert_eq!(bv.position(), 0);
    bv.push(-1);
    bv.push(0);
    bv.push(5);
    assert_eq!(bv.position(), 3);
    assert_eq!(bits_of(&bv), vec![false, true, true]);
    assert_eq!(bv.get(3), None);
}

#[test]
fn development_is_deterministic() {
    let nodes = vec![node([1, -2, 3, -4]), node([-5, 6, -7, 8])];
    let links = vec![Link { source: 0, target: 1 }, Link { source: 1, target: 0 }];
    let null = pos([0, 0, 0, 0]);

    let mut e1 = CoordinateDeltaEvaluator::new(4);
    let mut v1: RecordingBuilder<()> = RecordingBuilder::new();
    let (f1, c1) = develop_network(&mut e1, &null, &nodes, &links, &mut v1, 0);

    let mut e2 = CoordinateDeltaEvaluator::new(4);
    let mut v2: RecordingBuilder<()> = RecordingBuilder::new();
    let (f2, c2) = develop_network(&mut e2, &null, &nodes, &links, &mut v2, 0);

    assert_eq!(bits_of(&f1), bits_of(&f2));
    assert_eq!(c1, c2);
    assert_eq!(v1.node_params, v2.node_params);
    assert_eq!(v1.link_params, v2.link_params);
}

#[test]
fn fingerprint_shape_and_bits() {
    // Outputs for a node are its own coordinates (null position is zero), so
    // each sign bit is re-derivable by hand.
    let nodes = vec![node([1, -2, 3, -4]), node([0, 5, -6, 7])];
    let links = vec![Link { source: 0, target: 1 }];
    let null = pos([0, 0, 0, 0]);
    let mut e = CoordinateDeltaEvaluator::new(4);
    let mut v: RecordingBuilder<()> = RecordingBuilder::new();
    let (f, _) = develop_network(&mut e, &null, &nodes, &links, &mut v, 0);
    assert_eq!(f.len(), 4 * (2 + 1));
    let expected = vec![
        // node 0: [1, -2, 3, -4]
        true, false, true, false,
        // node 1: [0, 5, -6, 7]
        true, true, false, true,
        // link 0 -> 1: [1, -7, 9, -11]
        true, false, true, false,
    ];
    assert_eq!(bits_of(&f), expected);
}

#[test]
fn expression_threshold_is_exclusive() {
    // With a threshold standing for 0.5, an expression output of exactly 0.5
    // is not expressed; 0.500001 is.
    let threshold: i64 = 500_000;
    let nodes = vec![
        node([0, 0, 500_000, 0]),
        node([0, 0, 0, 0]),
        node([0, 0, 500_001, 0]),
    ];
    let links = vec![Link { source: 0, target: 1 }, Link { source: 2, target: 1 }];
    let null = pos([0, 0, 0, 0]);
    let mut e = CoordinateDeltaEvaluator::new(4);
    let mut v: RecordingBuilder<()> = RecordingBuilder::new();
    let (_, cost) = develop_network(&mut e, &null, &nodes, &links, &mut v, threshold);
    // only the second link is expressed
    assert_eq!(v.link_params.len(), 1);
    assert_eq!(v.link_params[0], (0, 0));
    // wiring cost is the squared distance of the expressed link alone
    assert_eq!(cost, 500_001i128 * 500_001i128);
}

#[test]
fn wiring_cost_zero_without_expressed_links() {
    let nodes = vec![node([9, 9, 9, 9]), node([1, 1, 1, 1])];
    let links = vec![Link { source: 0, target: 1 }, Link { source: 1, target: 0 }];
    let null = pos([0, 0, 0, 0]);
    let mut e = CoordinateDeltaEvaluator::new(4);
    let mut v: RecordingBuilder<()> = RecordingBuilder::new();
    // threshold higher than any expression output: nothing is expressed
    let (_, cost) = develop_network(&mut e, &null, &nodes, &links, &mut v, 1_000_000);
    assert_eq!(cost, 0);
    assert_eq!(v.link_params.len(), 0);
}

#[test]
fn every_node_is_added_in_order() {
    let nodes = vec![
        node([0, 0, 0, 11]),
        node([0, 0, 0, -22]),
        node([0, 0, 0, 33]),
    ];
    let links: Vec<Link> = Vec::new();
    let null = pos([0, 0, 0, 0]);
    let mut e = CoordinateDeltaEvaluator::new(4);
    let mut v: RecordingBuilder<()> = RecordingBuilder::new();
    let (f, _) = develop_network(&mut e, &null, &nodes, &links, &mut v, 0);
    // add-node once per node, in input order, with the node-weight output
    assert_eq!(v.node_params, vec![11, -22, 33]);
    assert_eq!(f.position(), 12);
}

#[test]
fn behavioral_bitvec_over_position_pairs() {
    let pairs = vec![
        (pos([1, -1, 2, -2]), pos([0, 0, 0, 0])),
        (pos([0, 0, 0, 0]), pos([1, -1, 2, -2])),
    ];
    let mut e = CoordinateDeltaEvaluator::new(4);
    let bv = behavioral_bitvec(&mut e, &pairs);
    assert_eq!(bv.len(), 8);
    let expected = vec![true, false, true, false, false, true, false, true];
    assert_eq!(bits_of(&bv), expected);
}

#[test]
fn wiring_cost_sums_expressed_links_only() {
    let nodes = vec![node([1, 0, 2, 0]), node([0, 0, 0, 0])];
    let links = vec![Link { source: 0, target: 1 }, Link { source: 1, target: 0 }];
    let null = pos([0, 0, 0, 0]);
    let mut e = CoordinateDeltaEvaluator::new(4);
    let mut v: RecordingBuilder<()> = RecordingBuilder::new();
    // expression output of link 0 is 2, of link 1 is -2: only link 0 counts
    let (_, cost) = develop_network(&mut e, &null, &nodes, &links, &mut v, 0);
    assert_eq!(cost, 1 + 4);
    assert_eq!(v.link_params.len(), 1);
    assert_eq!(v.link_params[0], (1, 0));
}
