use vstd::prelude::*;
use vstd::arithmetic::div_mod::lemma_fundamental_div_mod_converse;
use vstd::pervasive::unreached;
use crate::sign_bit;
use crate::substrate::{Position, Node, Link, dist_sq, lemma_dist_sq_nonneg};
use crate::fingerprint::BehavioralBitvec;

verus! {

/// Output slot order of a genotype evaluator driven by one development pass.
pub const CPPN_OUTPUT_LINK_WEIGHT1: usize = 0;

pub const CPPN_OUTPUT_LINK_WEIGHT2: usize = 1;

pub const CPPN_OUTPUT_LINK_EXPRESSION: usize = 2;

pub const CPPN_OUTPUT_NODE_WEIGHT: usize = 3;

/// A genotype evaluator: a mutable compute graph mapping two coordinate
/// vectors to a fixed set of scalar outputs.
///
/// Evaluation may mutate internal propagation state, but the input-output
/// function `outputs` it encodes is pure and unchanged by evaluation: the
/// fingerprint and wiring cost of a pass depend on nothing but that function
/// and the caller-supplied traversal order.
pub trait GenotypeEvaluator: Sized {
    /// The pure function currently encoded by the evaluator's weights.
    spec fn outputs(&self, a: Seq<i64>, b: Seq<i64>) -> Seq<i64>;

    spec fn wf(&self) -> bool;

    spec fn spec_input_count(&self) -> nat;

    spec fn spec_output_count(&self) -> nat;

    /// Readout slots as left by the most recent evaluation.
    spec fn last_outputs(&self) -> Seq<i64>;

    /// All evaluations performed so far: the input pair of each, oldest
    /// first.
    spec fn evaluations(&self) -> Seq<(Seq<i64>, Seq<i64>)>;

    fn input_count(&self) -> (r: usize)
        requires
            self.wf(),
        ensures
            r == self.spec_input_count(),
    ;

    fn output_count(&self) -> (r: usize)
        requires
            self.wf(),
        ensures
            r == self.spec_output_count(),
    ;

    /// Forward propagation with inputs `(x, y)`.
    fn evaluate(&mut self, x: &Position, y: &Position)
        requires
            old(self).wf(),
            x.wf(),
            y.wf(),
            2 * x@.len() == old(self).spec_input_count(),
            2 * y@.len() == old(self).spec_input_count(),
        ensures
            final(self).wf(),
            final(self).spec_input_count() == old(self).spec_input_count(),
            final(self).spec_output_count() == old(self).spec_output_count(),
            forall|a: Seq<i64>, b: Seq<i64>|
                #[trigger] final(self).outputs(a, b) == old(self).outputs(a, b),
            final(self).last_outputs() == old(self).outputs(x@, y@),
            final(self).last_outputs().len() == old(self).spec_output_count(),
            final(self).evaluations() == old(self).evaluations().push((x@, y@)),
    ;

    /// Indexed readout of the most recent evaluation, `None` out of range.
    fn read_output(&self, index: usize) -> (r: Option<i64>)
        requires
            self.wf(),
        ensures
            r == if index < self.last_outputs().len() {
                Some(self.last_outputs()[index as int])
            } else {
                None::<i64>
            },
    ;
}

/// Inputs of the node phase: one evaluation per node, in node order,
/// against the null position.
pub open spec fn node_evaluations<T>(null: Seq<i64>, nodes: Seq<Node<T>>, n: int) -> Seq<
    (Seq<i64>, Seq<i64>),
>
    decreases n,
{
    if n <= 0 {
        Seq::empty()
    } else {
        node_evaluations(null, nodes, n - 1).push((nodes[n - 1].position@, null))
    }
}

/// Inputs of the link phase: one evaluation per candidate link, expressed or
/// not, in link order.
pub open spec fn link_evaluations<T>(nodes: Seq<Node<T>>, links: Seq<Link>, n: int) -> Seq<
    (Seq<i64>, Seq<i64>),
>
    decreases n,
{
    if n <= 0 {
        Seq::empty()
    } else {
        link_evaluations(nodes, links, n - 1).push(
            (
                nodes[links[n - 1].source as int].position@,
                nodes[links[n - 1].target as int].position@,
            ),
        )
    }
}

/// All evaluator inputs of one development pass: exactly one evaluation per
/// node and one per candidate link, and nothing else.
pub open spec fn develop_evaluations<T>(
    null: Seq<i64>,
    nodes: Seq<Node<T>>,
    links: Seq<Link>,
) -> Seq<(Seq<i64>, Seq<i64>)> {
    node_evaluations(null, nodes, nodes.len() as int) + link_evaluations(
        nodes,
        links,
        links.len() as int,
    )
}

/// One evaluation per position pair, in order.
pub open spec fn pair_evaluations(pairs: Seq<(Position, Position)>, n: int) -> Seq<
    (Seq<i64>, Seq<i64>),
>
    decreases n,
{
    if n <= 0 {
        Seq::empty()
    } else {
        pair_evaluations(pairs, n - 1).push((pairs[n - 1].0@, pairs[n - 1].1@))
    }
}

/// One notification handed to a phenotype builder during a development pass.
pub enum BuildEvent<T> {
    AddNode { node: Node<T>, param: i64 },
    AddLink { source_node: Node<T>, target_node: Node<T>, weight1: i64, weight2: i64 },
}

/// A phenotype builder: receives add-node / add-link notifications and
/// materializes the phenotype in whatever representation it chooses.  The
/// ghost event log pins down exactly which notifications were issued, and in
/// which order.
pub trait NetworkBuilderVisitor<T>: Sized {
    /// All notifications received so far, oldest first.
    spec fn events(&self) -> Seq<BuildEvent<T>>;

    fn add_node(&mut self, node: &Node<T>, param: i64)
        ensures
            final(self).events() == old(self).events().push(
                BuildEvent::AddNode { node: *node, param },
            ),
    ;

    fn add_link(&mut self, source_node: &Node<T>, target_node: &Node<T>, weight1: i64, weight2: i64)
        ensures
            final(self).events() == old(self).events().push(
                BuildEvent::AddLink {
                    source_node: *source_node,
                    target_node: *target_node,
                    weight1,
                    weight2,
                },
            ),
    ;
}

/// The four outputs the evaluator yields for node `i` (second input is the
/// null position).
pub open spec fn node_outputs<T, E: GenotypeEvaluator>(
    e: E,
    null: Seq<i64>,
    nodes: Seq<Node<T>>,
    i: int,
) -> Seq<i64> {
    e.outputs(nodes[i].position@, null)
}

/// The four outputs the evaluator yields for candidate link `i`.
pub open spec fn link_outputs<T, E: GenotypeEvaluator>(
    e: E,
    nodes: Seq<Node<T>>,
    links: Seq<Link>,
    i: int,
) -> Seq<i64> {
    e.outputs(nodes[links[i].source as int].position@, nodes[links[i].target as int].position@)
}

/// Outputs of traversal unit `u`: nodes first, then links, in caller order.
pub open spec fn unit_outputs<T, E: GenotypeEvaluator>(
    e: E,
    null: Seq<i64>,
    nodes: Seq<Node<T>>,
    links: Seq<Link>,
    u: int,
) -> Seq<i64> {
    if u < nodes.len() {
        node_outputs(e, null, nodes, u)
    } else {
        link_outputs(e, nodes, links, u - nodes.len())
    }
}

/// Bit `k` of the behavioral fingerprint: the sign of the `k % 4`-th output
/// of traversal unit `k / 4`.
pub open spec fn developed_bit<T, E: GenotypeEvaluator>(
    e: E,
    null: Seq<i64>,
    nodes: Seq<Node<T>>,
    links: Seq<Link>,
    k: int,
) -> bool {
    sign_bit(unit_outputs(e, null, nodes, links, k / 4)[k % 4])
}

/// A candidate link is expressed exactly when its expression output strictly
/// exceeds the threshold.
pub open spec fn link_expressed<T, E: GenotypeEvaluator>(
    e: E,
    nodes: Seq<Node<T>>,
    links: Seq<Link>,
    threshold: i64,
    i: int,
) -> bool {
    link_outputs(e, nodes, links, i)[CPPN_OUTPUT_LINK_EXPRESSION as int] > threshold
}

/// Sum of squared endpoint distances over the expressed links among the
/// first `n` candidates.
pub open spec fn wiring_cost<T, E: GenotypeEvaluator>(
    e: E,
    nodes: Seq<Node<T>>,
    links: Seq<Link>,
    threshold: i64,
    n: int,
) -> int
    decreases n,
{
    if n <= 0 {
        0
    } else {
        wiring_cost(e, nodes, links, threshold, n - 1) + if link_expressed(
            e,
            nodes,
            links,
            threshold,
            n - 1,
        ) {
            dist_sq(
                nodes[links[n - 1].source as int].position@,
                nodes[links[n - 1].target as int].position@,
            )
        } else {
            0
        }
    }
}

/// Builder notifications of the node phase: one add-node per node, in node
/// order, unconditionally.
pub open spec fn node_events<T, E: GenotypeEvaluator>(
    e: E,
    null: Seq<i64>,
    nodes: Seq<Node<T>>,
    n: int,
) -> Seq<BuildEvent<T>>
    decreases n,
{
    if n <= 0 {
        Seq::empty()
    } else {
        node_events(e, null, nodes, n - 1).push(
            BuildEvent::AddNode {
                node: nodes[n - 1],
                param: node_outputs(e, null, nodes, n - 1)[CPPN_OUTPUT_NODE_WEIGHT as int],
            },
        )
    }
}

/// Builder notifications of the link phase: one add-link per expressed link,
/// in link order.
pub open spec fn link_events<T, E: GenotypeEvaluator>(
    e: E,
    nodes: Seq<Node<T>>,
    links: Seq<Link>,
    threshold: i64,
    n: int,
) -> Seq<BuildEvent<T>>
    decreases n,
{
    if n <= 0 {
        Seq::empty()
    } else {
        let pre = link_events(e, nodes, links, threshold, n - 1);
        if link_expressed(e, nodes, links, threshold, n - 1) {
            pre.push(
                BuildEvent::AddLink {
                    source_node: nodes[links[n - 1].source as int],
                    target_node: nodes[links[n - 1].target as int],
                    weight1: link_outputs(e, nodes, links, n - 1)[CPPN_OUTPUT_LINK_WEIGHT1 as int],
                    weight2: link_outputs(e, nodes, links, n - 1)[CPPN_OUTPUT_LINK_WEIGHT2 as int],
                },
            )
        } else {
            pre
        }
    }
}

/// All builder notifications of one development pass.
pub open spec fn develop_events<T, E: GenotypeEvaluator>(
    e: E,
    null: Seq<i64>,
    nodes: Seq<Node<T>>,
    links: Seq<Link>,
    threshold: i64,
) -> Seq<BuildEvent<T>> {
    node_events(e, null, nodes, nodes.len() as int) + link_events(
        e,
        nodes,
        links,
        threshold,
        links.len() as int,
    )
}

/// Develops a phenotype network out of a genotype evaluator and a substrate.
///
/// Drives the evaluator once per node (against the null position) and once
/// per candidate link, in the caller-supplied order, appending the sign bit
/// of every output to the behavioral fingerprint.  Every node is reported to
/// the builder; a link is reported, and its squared endpoint distance added
/// to the wiring cost, exactly when its expression output strictly exceeds
/// the threshold.  Returns the fingerprint and the wiring cost.
pub fn develop_network<T, E: GenotypeEvaluator, V: NetworkBuilderVisitor<T>>(
    evaluator: &mut E,
    null_position: &Position,
    nodes: &Vec<Node<T>>,
    links: &Vec<Link>,
    visitor: &mut V,
    link_expression_threshold: i64,
) -> (r: (BehavioralBitvec, i128))
    requires
        old(evaluator).wf(),
        old(evaluator).spec_output_count() == 4,
        old(evaluator).spec_input_count() == 2 * null_position@.len(),
        null_position.wf(),
        forall|i: int|
            0 <= i < nodes@.len() ==> (#[trigger] nodes@[i]).position.wf()
                && nodes@[i].position@.len() == null_position@.len(),
        forall|i: int|
            0 <= i < links@.len() ==> (#[trigger] links@[i]).source < nodes@.len()
                && links@[i].target < nodes@.len(),
        4 * (nodes@.len() + links@.len()) <= usize::MAX,
    ensures
        final(evaluator).wf(),
        final(evaluator).spec_input_count() == old(evaluator).spec_input_count(),
        final(evaluator).spec_output_count() == old(evaluator).spec_output_count(),
        forall|a: Seq<i64>, b: Seq<i64>|
            #[trigger] final(evaluator).outputs(a, b) == old(evaluator).outputs(a, b),
        r.0.wf(),
        r.0.bits().len() == 4 * (nodes@.len() + links@.len()),
        r.0.pos() == r.0.bits().len(),
        forall|k: int|
            0 <= k < r.0.bits().len() ==> #[trigger] r.0.bits()[k] == developed_bit(
                *old(evaluator),
                null_position@,
                nodes@,
                links@,
                k,
            ),
        r.1 as int == wiring_cost(
            *old(evaluator),
            nodes@,
            links@,
            link_expression_threshold,
            links@.len() as int,
        ),
        0 <= r.1,
        final(visitor).events() == old(visitor).events() + develop_events(
            *old(evaluator),
            null_position@,
            nodes@,
            links@,
            link_expression_threshold,
        ),
        final(evaluator).evaluations() == old(evaluator).evaluations() + develop_evaluations(
            null_position@,
            nodes@,
            links@,
        ),
{
    let n_nodes: usize = nodes.len();
    let n_links: usize = links.len();
    let total: usize = 4 * (n_nodes + n_links);
    let mut bitvec = BehavioralBitvec::new(total);
    let mut connection_cost: i128 = 0;
    let ghost e0: E = *evaluator;
    let ghost ev0: Seq<BuildEvent<T>> = visitor.events();
    let ghost ec0: Seq<(Seq<i64>, Seq<i64>)> = evaluator.evaluations();
    let ghost nullv: Seq<i64> = null_position@;

    let mut i: usize = 0;
    while i < n_nodes
        invariant
            0 <= i <= n_nodes,
            n_nodes == nodes@.len(),
            n_links == links@.len(),
            total == 4 * (n_nodes + n_links),
            evaluator.wf(),
            evaluator.spec_input_count() == e0.spec_input_count(),
            evaluator.spec_output_count() == e0.spec_output_count(),
            e0.spec_output_count() == 4,
            e0.spec_input_count() == 2 * nullv.len(),
            forall|a: Seq<i64>, b: Seq<i64>|
                #[trigger] evaluator.outputs(a, b) == e0.outputs(a, b),
            nullv == null_position@,
            null_position.wf(),
            forall|k: int|
                0 <= k < nodes@.len() ==> (#[trigger] nodes@[k]).position.wf()
                    && nodes@[k].position@.len() == nullv.len(),
            bitvec.wf(),
            bitvec.bits().len() == total,
            bitvec.pos() == 4 * (i as int),
            forall|k: int|
                0 <= k < 4 * (i as int) ==> #[trigger] bitvec.bits()[k] == developed_bit(
                    e0,
                    nullv,
                    nodes@,
                    links@,
                    k,
                ),
            visitor.events() == ev0 + node_events(e0, nullv, nodes@, i as int),
            evaluator.evaluations() == ec0 + node_evaluations(nullv, nodes@, i as int),
        decreases n_nodes - i,
    {
        evaluator.evaluate(&nodes[i].position, null_position);
        proof {
            let c = (nodes@[i as int].position@, nullv);
            assert((ec0 + node_evaluations(nullv, nodes@, i as int)).push(c) =~= ec0
                + node_evaluations(nullv, nodes@, i as int).push(c));
            assert(node_evaluations(nullv, nodes@, i as int + 1) == node_evaluations(
                nullv,
                nodes@,
                i as int,
            ).push(c));
        }
        let link_weight1 = match evaluator.read_output(CPPN_OUTPUT_LINK_WEIGHT1) {
            Some(v) => v,
            None => unreached(),
        };
        let link_weight2 = match evaluator.read_output(CPPN_OUTPUT_LINK_WEIGHT2) {
            Some(v) => v,
            None => unreached(),
        };
        let link_expression = match evaluator.read_output(CPPN_OUTPUT_LINK_EXPRESSION) {
            Some(v) => v,
            None => unreached(),
        };
        let node_weight = match evaluator.read_output(CPPN_OUTPUT_NODE_WEIGHT) {
            Some(v) => v,
            None => unreached(),
        };
        bitvec.push(link_weight1);
        bitvec.push(link_weight2);
        bitvec.push(link_expression);
        bitvec.push(node_weight);
        proof {
            let outs = e0.outputs(nodes@[i as int].position@, nullv);
            lemma_unit_index(i as int, 0, 4);
            lemma_unit_index(i as int, 1, 4);
            lemma_unit_index(i as int, 2, 4);
            lemma_unit_index(i as int, 3, 4);
            assert forall|k: int| 0 <= k < 4 * (i as int) + 4 implies #[trigger] bitvec.bits()[k]
                == developed_bit(e0, nullv, nodes@, links@, k) by {
                if k == 4 * (i as int) {
                    assert(developed_bit(e0, nullv, nodes@, links@, k) == sign_bit(outs[0]));
                } else if k == 4 * (i as int) + 1 {
                    assert(developed_bit(e0, nullv, nodes@, links@, k) == sign_bit(outs[1]));
                } else if k == 4 * (i as int) + 2 {
                    assert(developed_bit(e0, nullv, nodes@, links@, k) == sign_bit(outs[2]));
                } else if k == 4 * (i as int) + 3 {
                    assert(developed_bit(e0, nullv, nodes@, links@, k) == sign_bit(outs[3]));
                }
            }
        }
        visitor.add_node(&nodes[i], node_weight);
        proof {
            let x = BuildEvent::AddNode {
                node: nodes@[i as int],
                param: node_outputs(e0, nullv, nodes@, i as int)[CPPN_OUTPUT_NODE_WEIGHT as int],
            };
            assert((ev0 + node_events(e0, nullv, nodes@, i as int)).push(x) =~= ev0 + node_events(
                e0,
                nullv,
                nodes@,
                i as int,
            ).push(x));
            assert(node_events(e0, nullv, nodes@, i as int + 1) == node_events(
                e0,
                nullv,
                nodes@,
                i as int,
            ).push(x));
        }
        i = i + 1;
    }

    let mut j: usize = 0;
    while j < n_links
        invariant
            0 <= j <= n_links,
            n_nodes == nodes@.len(),
            n_links == links@.len(),
            total == 4 * (n_nodes + n_links),
            evaluator.wf(),
            evaluator.spec_input_count() == e0.spec_input_count(),
            evaluator.spec_output_count() == e0.spec_output_count(),
            e0.spec_output_count() == 4,
            e0.spec_input_count() == 2 * nullv.len(),
            forall|a: Seq<i64>, b: Seq<i64>|
                #[trigger] evaluator.outputs(a, b) == e0.outputs(a, b),
            nullv == null_position@,
            forall|k: int|
                0 <= k < nodes@.len() ==> (#[trigger] nodes@[k]).position.wf()
                    && nodes@[k].position@.len() == nullv.len(),
            forall|k: int|
                0 <= k < links@.len() ==> (#[trigger] links@[k]).source < nodes@.len()
                    && links@[k].target < nodes@.len(),
            bitvec.wf(),
            bitvec.bits().len() == total,
            bitvec.pos() == 4 * (n_nodes as int) + 4 * (j as int),
            forall|k: int|
                0 <= k < 4 * (n_nodes as int) + 4 * (j as int) ==> #[trigger] bitvec.bits()[k]
                    == developed_bit(e0, nullv, nodes@, links@, k),
            connection_cost as int == wiring_cost(
                e0,
                nodes@,
                links@,
                link_expression_threshold,
                j as int,
            ),
            0 <= connection_cost as int <= (j as int) * 256_000_000_000_000,
            visitor.events() == ev0 + node_events(e0, nullv, nodes@, n_nodes as int) + link_events(
                e0,
                nodes@,
                links@,
                link_expression_threshold,
                j as int,
            ),
            evaluator.evaluations() == ec0 + node_evaluations(nullv, nodes@, n_nodes as int)
                + link_evaluations(nodes@, links@, j as int),
        decreases n_links - j,
    {
        let l: Link = links[j];
        evaluator.evaluate(&nodes[l.source].position, &nodes[l.target].position);
        proof {
            let c = (
                nodes@[links@[j as int].source as int].position@,
                nodes@[links@[j as int].target as int].position@,
            );
            assert((ec0 + node_evaluations(nullv, nodes@, n_nodes as int) + link_evaluations(
                nodes@,
                links@,
                j as int,
            )).push(c) =~= ec0 + node_evaluations(nullv, nodes@, n_nodes as int)
                + link_evaluations(nodes@, links@, j as int).push(c));
            assert(link_evaluations(nodes@, links@, j as int + 1) == link_evaluations(
                nodes@,
                links@,
                j as int,
            ).push(c));
        }
        let link_weight1 = match evaluator.read_output(CPPN_OUTPUT_LINK_WEIGHT1) {
            Some(v) => v,
            None => unreached(),
        };
        let link_weight2 = match evaluator.read_output(CPPN_OUTPUT_LINK_WEIGHT2) {
            Some(v) => v,
            None => unreached(),
        };
        let link_expression = match evaluator.read_output(CPPN_OUTPUT_LINK_EXPRESSION) {
            Some(v) => v,
            None => unreached(),
        };
        let node_weight = match evaluator.read_output(CPPN_OUTPUT_NODE_WEIGHT) {
            Some(v) => v,
            None => unreached(),
        };
        bitvec.push(link_weight1);
        bitvec.push(link_weight2);
        bitvec.push(link_expression);
        bitvec.push(node_weight);
        proof {
            let u = n_nodes as int + j as int;
            let outs = link_outputs(e0, nodes@, links@, j as int);
            lemma_unit_index(u, 0, 4);
            lemma_unit_index(u, 1, 4);
            lemma_unit_index(u, 2, 4);
            lemma_unit_index(u, 3, 4);
            assert forall|k: int| 0 <= k < 4 * u + 4 implies #[trigger] bitvec.bits()[k]
                == developed_bit(e0, nullv, nodes@, links@, k) by {
                if k == 4 * u {
                    assert(developed_bit(e0, nullv, nodes@, links@, k) == sign_bit(outs[0]));
                } else if k == 4 * u + 1 {
                    assert(developed_bit(e0, nullv, nodes@, links@, k) == sign_bit(outs[1]));
                } else if k == 4 * u + 2 {
                    assert(developed_bit(e0, nullv, nodes@, links@, k) == sign_bit(outs[2]));
                } else if k == 4 * u + 3 {
                    assert(developed_bit(e0, nullv, nodes@, links@, k) == sign_bit(outs[3]));
                }
            }
        }
        let ghost evs_before = visitor.events();
        if link_expression > link_expression_threshold {
            let distance_sq: i64 = nodes[l.source].position.distance_square(
                &nodes[l.target].position,
            );
            proof {
                assert((j as int) * 256_000_000_000_000 + 256_000_000_000_000 == (j as int + 1)
                    * 256_000_000_000_000) by (nonlinear_arith);
                assert((j as int + 1) * 256_000_000_000_000 < i128::MAX) by (nonlinear_arith)
                    requires 0 <= j as int + 1 <= 0x1_0000_0000_0000_0000,
                {}
            }
            connection_cost = connection_cost + distance_sq as i128;
            visitor.add_link(&nodes[l.source], &nodes[l.target], link_weight1, link_weight2);
            proof {
                let x = BuildEvent::AddLink {
                    source_node: nodes@[links@[j as int].source as int],
                    target_node: nodes@[links@[j as int].target as int],
                    weight1: link_outputs(e0, nodes@, links@, j as int)[
                        CPPN_OUTPUT_LINK_WEIGHT1 as int
                    ],
                    weight2: link_outputs(e0, nodes@, links@, j as int)[
                        CPPN_OUTPUT_LINK_WEIGHT2 as int
                    ],
                };
                assert(evs_before.push(x) =~= ev0 + node_events(e0, nullv, nodes@, n_nodes as int)
                    + link_events(e0, nodes@, links@, link_expression_threshold, j as int).push(x));
                assert(link_events(e0, nodes@, links@, link_expression_threshold, j as int + 1)
                    == link_events(e0, nodes@, links@, link_expression_threshold, j as int).push(x));
            }
        } else {
            proof {
                assert(!link_expressed(e0, nodes@, links@, link_expression_threshold, j as int));
                assert(link_events(e0, nodes@, links@, link_expression_threshold, j as int + 1)
                    == link_events(e0, nodes@, links@, link_expression_threshold, j as int));
                assert((j as int) * 256_000_000_000_000 + 256_000_000_000_000 == (j as int + 1)
                    * 256_000_000_000_000) by (nonlinear_arith);
            }
        }
        j = j + 1;
    }
    (bitvec, connection_cost)
}

/// Calculates the behavioral bitvector for an evaluator over all input
/// `position_pairs`, one group of `output_count` sign bits per pair, in
/// traversal order.
pub fn behavioral_bitvec<E: GenotypeEvaluator>(
    evaluator: &mut E,
    position_pairs: &Vec<(Position, Position)>,
) -> (r: BehavioralBitvec)
    requires
        old(evaluator).wf(),
        old(evaluator).spec_output_count() >= 1,
        forall|i: int|
            0 <= i < position_pairs@.len() ==> (#[trigger] position_pairs@[i]).0.wf()
                && position_pairs@[i].1.wf()
                && 2 * position_pairs@[i].0@.len() == old(evaluator).spec_input_count()
                && 2 * position_pairs@[i].1@.len() == old(evaluator).spec_input_count(),
        old(evaluator).spec_output_count() * position_pairs@.len() <= usize::MAX,
    ensures
        final(evaluator).wf(),
        forall|a: Seq<i64>, b: Seq<i64>|
            #[trigger] final(evaluator).outputs(a, b) == old(evaluator).outputs(a, b),
        final(evaluator).evaluations() == old(evaluator).evaluations() + pair_evaluations(
            position_pairs@,
            position_pairs@.len() as int,
        ),
        r.wf(),
        r.bits().len() == old(evaluator).spec_output_count() * position_pairs@.len(),
        r.pos() == r.bits().len(),
        forall|k: int|
            0 <= k < r.bits().len() ==> #[trigger] r.bits()[k] == sign_bit(
                old(evaluator).outputs(
                    position_pairs@[k / (old(evaluator).spec_output_count() as int)].0@,
                    position_pairs@[k / (old(evaluator).spec_output_count() as int)].1@,
                )[k % (old(evaluator).spec_output_count() as int)],
            ),
{
    let outcnt: usize = evaluator.output_count();
    let n_pairs: usize = position_pairs.len();
    let total: usize = outcnt * n_pairs;
    let mut bitvec = BehavioralBitvec::new(total);
    let ghost e0: E = *evaluator;
    let ghost ec0: Seq<(Seq<i64>, Seq<i64>)> = evaluator.evaluations();
    let ghost outc: int = e0.spec_output_count() as int;

    let mut i: usize = 0;
    while i < n_pairs
        invariant
            0 <= i <= n_pairs,
            n_pairs == position_pairs@.len(),
            outcnt as int == outc,
            outc == e0.spec_output_count(),
            outc >= 1,
            total == outcnt * n_pairs,
            evaluator.wf(),
            evaluator.spec_input_count() == e0.spec_input_count(),
            evaluator.spec_output_count() == e0.spec_output_count(),
            forall|a: Seq<i64>, b: Seq<i64>|
                #[trigger] evaluator.outputs(a, b) == e0.outputs(a, b),
            forall|k: int|
                0 <= k < position_pairs@.len() ==> (#[trigger] position_pairs@[k]).0.wf()
                    && position_pairs@[k].1.wf()
                    && 2 * position_pairs@[k].0@.len() == e0.spec_input_count()
                    && 2 * position_pairs@[k].1@.len() == e0.spec_input_count(),
            evaluator.evaluations() == ec0 + pair_evaluations(position_pairs@, i as int),
            bitvec.wf(),
            bitvec.bits().len() == total,
            bitvec.pos() == outc * (i as int),
            forall|k: int|
                0 <= k < outc * (i as int) ==> #[trigger] bitvec.bits()[k] == sign_bit(
                    e0.outputs(
                        position_pairs@[k / outc].0@,
                        position_pairs@[k / outc].1@,
                    )[k % outc],
                ),
        decreases n_pairs - i,
    {
        proof {
            assert(outc * (i as int) + outc == outc * (i as int + 1)) by (nonlinear_arith);
            assert(outc * (i as int + 1) <= outc * (n_pairs as int)) by (nonlinear_arith)
                requires outc >= 1, 0 <= i as int + 1 <= n_pairs as int,
            {}
        }
        evaluator.evaluate(&position_pairs[i].0, &position_pairs[i].1);
        proof {
            let c = (position_pairs@[i as int].0@, position_pairs@[i as int].1@);
            assert((ec0 + pair_evaluations(position_pairs@, i as int)).push(c) =~= ec0
                + pair_evaluations(position_pairs@, i as int).push(c));
            assert(pair_evaluations(position_pairs@, i as int + 1) == pair_evaluations(
                position_pairs@,
                i as int,
            ).push(c));
        }
        let mut o: usize = 0;
        while o < outcnt
            invariant
                0 <= o <= outcnt,
                0 <= i < n_pairs,
                n_pairs == position_pairs@.len(),
                outcnt as int == outc,
                outc == e0.spec_output_count(),
                outc >= 1,
                total == outcnt * n_pairs,
                outc * (i as int) + outc <= total,
                evaluator.wf(),
                evaluator.spec_input_count() == e0.spec_input_count(),
                evaluator.spec_output_count() == e0.spec_output_count(),
                forall|a: Seq<i64>, b: Seq<i64>|
                    #[trigger] evaluator.outputs(a, b) == e0.outputs(a, b),
                evaluator.last_outputs() == e0.outputs(
                    position_pairs@[i as int].0@,
                    position_pairs@[i as int].1@,
                ),
                evaluator.last_outputs().len() == outc,
                evaluator.evaluations() == ec0 + pair_evaluations(
                    position_pairs@,
                    i as int + 1,
                ),
                bitvec.wf(),
                bitvec.bits().len() == total,
                bitvec.pos() == outc * (i as int) + o as int,
                forall|k: int|
                    0 <= k < outc * (i as int) + o as int ==> #[trigger] bitvec.bits()[k]
                        == sign_bit(
                        e0.outputs(
                            position_pairs@[k / outc].0@,
                            position_pairs@[k / outc].1@,
                        )[k % outc],
                    ),
            decreases outcnt - o,
        {
            let out = match evaluator.read_output(o) {
                Some(v) => v,
                None => unreached(),
            };
            bitvec.push(out);
            proof {
                lemma_unit_index(i as int, o as int, outc);
                assert(outc * (i as int) + (o as int) < total);
            }
            o = o + 1;
        }
        i = i + 1;
    }
    bitvec
}

/// Determinism of development: two evaluators that encode the same
/// input-output function yield bit-identical fingerprints, identical wiring
/// cost and identical builder notifications over the same substrate, node
/// order, link order and threshold.
pub proof fn lemma_development_deterministic<T, E1: GenotypeEvaluator, E2: GenotypeEvaluator>(
    e1: E1,
    e2: E2,
    null: Seq<i64>,
    nodes: Seq<Node<T>>,
    links: Seq<Link>,
    threshold: i64,
)
    requires
        forall|a: Seq<i64>, b: Seq<i64>| #[trigger] e1.outputs(a, b) == e2.outputs(a, b),
    ensures
        forall|k: int| #[trigger] developed_bit(e1, null, nodes, links, k) == developed_bit(
            e2,
            null,
            nodes,
            links,
            k,
        ),
        wiring_cost(e1, nodes, links, threshold, links.len() as int) == wiring_cost(
            e2,
            nodes,
            links,
            threshold,
            links.len() as int,
        ),
        develop_events(e1, null, nodes, links, threshold) == develop_events(
            e2,
            null,
            nodes,
            links,
            threshold,
        ),
{
    assert forall|k: int| #[trigger] developed_bit(e1, null, nodes, links, k) == developed_bit(
        e2,
        null,
        nodes,
        links,
        k,
    ) by {
        assert(unit_outputs(e1, null, nodes, links, k / 4) == unit_outputs(
            e2,
            null,
            nodes,
            links,
            k / 4,
        ));
    }
    lemma_wiring_cost_functional(e1, e2, nodes, links, threshold, links.len() as int);
    lemma_node_events_functional(e1, e2, null, nodes, nodes.len() as int);
    lemma_link_events_functional(e1, e2, nodes, links, threshold, links.len() as int);
}

proof fn lemma_wiring_cost_functional<T, E1: GenotypeEvaluator, E2: GenotypeEvaluator>(
    e1: E1,
    e2: E2,
    nodes: Seq<Node<T>>,
    links: Seq<Link>,
    threshold: i64,
    n: int,
)
    requires
        forall|a: Seq<i64>, b: Seq<i64>| #[trigger] e1.outputs(a, b) == e2.outputs(a, b),
    ensures
        wiring_cost(e1, nodes, links, threshold, n) == wiring_cost(e2, nodes, links, threshold, n),
    decreases n,
{
    if n > 0 {
        lemma_wiring_cost_functional(e1, e2, nodes, links, threshold, n - 1);
    }
}

proof fn lemma_node_events_functional<T, E1: GenotypeEvaluator, E2: GenotypeEvaluator>(
    e1: E1,
    e2: E2,
    null: Seq<i64>,
    nodes: Seq<Node<T>>,
    n: int,
)
    requires
        forall|a: Seq<i64>, b: Seq<i64>| #[trigger] e1.outputs(a, b) == e2.outputs(a, b),
    ensures
        node_events(e1, null, nodes, n) == node_events(e2, null, nodes, n),
    decreases n,
{
    if n > 0 {
        lemma_node_events_functional(e1, e2, null, nodes, n - 1);
    }
}

proof fn lemma_link_events_functional<T, E1: GenotypeEvaluator, E2: GenotypeEvaluator>(
    e1: E1,
    e2: E2,
    nodes: Seq<Node<T>>,
    links: Seq<Link>,
    threshold: i64,
    n: int,
)
    requires
        forall|a: Seq<i64>, b: Seq<i64>| #[trigger] e1.outputs(a, b) == e2.outputs(a, b),
    ensures
        link_events(e1, nodes, links, threshold, n) == link_events(
            e2,
            nodes,
            links,
            threshold,
            n,
        ),
    decreases n,
{
    if n > 0 {
        lemma_link_events_functional(e1, e2, nodes, links, threshold, n - 1);
    }
}

/// The node phase is complete and unconditional: the node-phase
/// notifications are exactly one add-node per substrate node, in input
/// order, each carrying that node and its node-weight output.
pub proof fn lemma_node_events_complete<T, E: GenotypeEvaluator>(
    e: E,
    null: Seq<i64>,
    nodes: Seq<Node<T>>,
    n: int,
)
    requires
        0 <= n <= nodes.len(),
    ensures
        node_events(e, null, nodes, n).len() == n,
        forall|i: int|
            0 <= i < n ==> node_events(e, null, nodes, n)[i] == (BuildEvent::AddNode {
                node: nodes[i],
                param: node_outputs(e, null, nodes, i)[CPPN_OUTPUT_NODE_WEIGHT as int],
            }),
    decreases n,
{
    if n > 0 {
        lemma_node_events_complete(e, null, nodes, n - 1);
    }
}

/// The wiring cost is never negative: it sums squared distances.
pub proof fn lemma_wiring_cost_nonneg<T, E: GenotypeEvaluator>(
    e: E,
    nodes: Seq<Node<T>>,
    links: Seq<Link>,
    threshold: i64,
    n: int,
)
    ensures
        0 <= wiring_cost(e, nodes, links, threshold, n),
    decreases n,
{
    if n > 0 {
        lemma_wiring_cost_nonneg(e, nodes, links, threshold, n - 1);
        if link_expressed(e, nodes, links, threshold, n - 1) {
            lemma_dist_sq_nonneg(
                nodes[links[n - 1].source as int].position@,
                nodes[links[n - 1].target as int].position@,
            );
        }
    }
}

/// With no expressed link the wiring cost is exactly zero.
pub proof fn lemma_wiring_cost_no_expressed_links<T, E: GenotypeEvaluator>(
    e: E,
    nodes: Seq<Node<T>>,
    links: Seq<Link>,
    threshold: i64,
    n: int,
)
    requires
        forall|i: int| 0 <= i < n ==> !link_expressed(e, nodes, links, threshold, i),
    ensures
        wiring_cost(e, nodes, links, threshold, n) == 0,
    decreases n,
{
    if n > 0 {
        lemma_wiring_cost_no_expressed_links(e, nodes, links, threshold, n - 1);
    }
}

proof fn lemma_unit_index(i: int, j: int, c: int)
    requires
        0 <= i,
        0 <= j < c,
    ensures
        (c * i + j) / c == i,
        (c * i + j) % c == j,
{
    assert(c * i + j == i * c + j) by (nonlinear_arith);
    lemma_fundamental_div_mod_converse(c * i + j, c, i, j);
}

} // verus!
