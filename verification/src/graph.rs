use vstd::prelude::*;
use crate::SCALE;

verus! {

/// Capacity bound on graphs handed to the similarity evaluator: keeps every
/// score sum inside `i64`.
pub const NODE_LIMIT: usize = 1_000_000;

pub const EDGE_LIMIT: usize = 1_000_000;

/// Role of a phenotype node, used for compatibility scoring.
#[derive(Clone, Copy, PartialEq, Eq, Structural, Debug)]
pub enum Neuron {
    Input,
    Output,
    Hidden,
}

/// A directed edge with a weight normalized into the closed unit interval
/// (fixed point: `0 ..= SCALE`).
#[derive(Clone, Copy, PartialEq, Eq, Structural, Debug)]
pub struct Edge {
    pub source: usize,
    pub target: usize,
    pub weight: i64,
}

/// A node-and-edge-attributed graph snapshot: nodes carry a role, edges a
/// normalized weight.
#[derive(Clone, Debug)]
pub struct Graph {
    pub nodes: Vec<Neuron>,
    pub edges: Vec<Edge>,
}

impl Graph {
    pub open spec fn wf(&self) -> bool {
        &&& self.nodes@.len() <= NODE_LIMIT
        &&& self.edges@.len() <= EDGE_LIMIT
        &&& forall|i: int|
            0 <= i < self.edges@.len() ==> (#[trigger] self.edges@[i]).source
                < self.nodes@.len() && self.edges@[i].target < self.nodes@.len() && 0
                <= self.edges@[i].weight <= SCALE
    }
}

/// Trait used for dot generation.
pub trait NodeLabel {
    fn node_label(&self, _idx: usize) -> (r: Option<String>) {
        None
    }

    fn node_shape(&self) -> (r: &'static str) {
        "circle"
    }
}

impl NodeLabel for Neuron {

}

/// Number of nodes with role `role` among the first `n` of `s`.
pub open spec fn count_role(s: Seq<Neuron>, role: Neuron, n: int) -> int
    decreases n,
{
    if n <= 0 {
        0
    } else {
        count_role(s, role, n - 1) + if s[n - 1] == role {
            1int
        } else {
            0int
        }
    }
}

/// Per-role node counts of a graph snapshot.
#[derive(Debug)]
pub struct NodeCount {
    pub inputs: usize,
    pub outputs: usize,
    pub hidden: usize,
}

impl NodeCount {
    pub fn from_graph(graph: &Graph) -> (r: NodeCount)
        ensures
            r.inputs as int == count_role(graph.nodes@, Neuron::Input, graph.nodes@.len() as int),
            r.outputs as int == count_role(
                graph.nodes@,
                Neuron::Output,
                graph.nodes@.len() as int,
            ),
            r.hidden as int == count_role(graph.nodes@, Neuron::Hidden, graph.nodes@.len() as int),
            r.inputs + r.outputs + r.hidden == graph.nodes@.len(),
    {
        let n: usize = graph.nodes.len();
        let mut inputs: usize = 0;
        let mut outputs: usize = 0;
        let mut hidden: usize = 0;
        let mut i: usize = 0;
        while i < n
            invariant
                0 <= i <= n,
                n == graph.nodes@.len(),
                inputs as int == count_role(graph.nodes@, Neuron::Input, i as int),
                outputs as int == count_role(graph.nodes@, Neuron::Output, i as int),
                hidden as int == count_role(graph.nodes@, Neuron::Hidden, i as int),
                inputs + outputs + hidden == i,
            decreases n - i,
        {
            match graph.nodes[i] {
                Neuron::Input => {
                    inputs = inputs + 1;
                },
                Neuron::Output => {
                    outputs = outputs + 1;
                },
                Neuron::Hidden => {
                    hidden = hidden + 1;
                },
            }
            i = i + 1;
        }
        NodeCount { inputs, outputs, hidden }
    }
}

/// The three role counts always sum to the total node count.
pub proof fn lemma_role_counts_total(s: Seq<Neuron>, n: int)
    requires
        0 <= n <= s.len(),
    ensures
        count_role(s, Neuron::Input, n) + count_role(s, Neuron::Output, n) + count_role(
            s,
            Neuron::Hidden,
            n,
        ) == n,
    decreases n,
{
    if n > 0 {
        lemma_role_counts_total(s, n - 1);
        assert(s[n - 1] == Neuron::Input || s[n - 1] == Neuron::Output || s[n - 1]
            == Neuron::Hidden);
    }
}

} // verus!
