use vstd::prelude::*;
use crate::develop::{GenotypeEvaluator, NetworkBuilderVisitor, BuildEvent};
use crate::substrate::{Position, Node, coords_bounded};

verus! {

/// A sparse-list phenotype builder: records every notification it receives.
///
/// The scalar lists expose the received parameters for callers and tests;
/// the ghost log carries the full notification sequence the contracts speak
/// of.
pub struct RecordingBuilder<T> {
    pub node_params: Vec<i64>,
    pub link_params: Vec<(i64, i64)>,
    pub log: Ghost<Seq<BuildEvent<T>>>,
}

impl<T> RecordingBuilder<T> {
    pub fn new() -> (r: RecordingBuilder<T>)
        ensures
            r.events() == Seq::<BuildEvent<T>>::empty(),
            r.node_params@.len() == 0,
            r.link_params@.len() == 0,
    {
        RecordingBuilder { node_params: Vec::new(), link_params: Vec::new(), log: Ghost(Seq::empty()) }
    }
}

impl<T> NetworkBuilderVisitor<T> for RecordingBuilder<T> {
    open spec fn events(&self) -> Seq<BuildEvent<T>> {
        self.log@
    }

    fn add_node(&mut self, node: &Node<T>, param: i64) {
        self.node_params.push(param);
        proof {
            self.log@ = self.log@.push(BuildEvent::AddNode { node: *node, param });
        }
    }

    fn add_link(
        &mut self,
        source_node: &Node<T>,
        target_node: &Node<T>,
        weight1: i64,
        weight2: i64,
    ) {
        self.link_params.push((weight1, weight2));
        proof {
            self.log@ = self.log@.push(
                BuildEvent::AddLink {
                    source_node: *source_node,
                    target_node: *target_node,
                    weight1,
                    weight2,
                },
            );
        }
    }
}

/// Output `j` of the coordinate-delta evaluator: the difference of the
/// `j`-th coordinates of its two inputs.
pub open spec fn delta_output(a: Seq<i64>, b: Seq<i64>, j: int) -> i64 {
    if 0 <= j < a.len() && j < b.len() {
        (a[j] - b[j]) as i64
    } else {
        0
    }
}

/// A small concrete genotype evaluator with the four-output shape the
/// development pass requires: output `j` is the difference of the `j`-th
/// coordinates of its two input positions.  Stateless across evaluations up
/// to its readout slots, so its input-output function never changes.
pub struct CoordinateDeltaEvaluator {
    dims: usize,
    last: Vec<i64>,
    calls: Ghost<Seq<(Seq<i64>, Seq<i64>)>>,
}

impl CoordinateDeltaEvaluator {
    /// An evaluator for positions of `dims` coordinates.
    pub fn new(dims: usize) -> (r: CoordinateDeltaEvaluator)
        requires
            4 <= dims <= 64,
        ensures
            r.wf(),
            r.spec_input_count() == 2 * dims,
            r.spec_output_count() == 4,
            forall|a: Seq<i64>, b: Seq<i64>, j: int|
                0 <= j < 4 ==> #[trigger] r.outputs(a, b)[j] == delta_output(a, b, j),
            r.evaluations() == Seq::<(Seq<i64>, Seq<i64>)>::empty(),
    {
        CoordinateDeltaEvaluator { dims, last: Vec::new(), calls: Ghost(Seq::empty()) }
    }
}

impl GenotypeEvaluator for CoordinateDeltaEvaluator {
    closed spec fn outputs(&self, a: Seq<i64>, b: Seq<i64>) -> Seq<i64> {
        Seq::new(4, |j: int| delta_output(a, b, j))
    }

    closed spec fn wf(&self) -> bool {
        4 <= self.dims <= 64
    }

    closed spec fn spec_input_count(&self) -> nat {
        2 * self.dims as nat
    }

    closed spec fn spec_output_count(&self) -> nat {
        4
    }

    closed spec fn last_outputs(&self) -> Seq<i64> {
        self.last@
    }

    closed spec fn evaluations(&self) -> Seq<(Seq<i64>, Seq<i64>)> {
        self.calls@
    }

    fn input_count(&self) -> (r: usize) {
        2 * self.dims
    }

    fn output_count(&self) -> (r: usize) {
        4
    }

    fn evaluate(&mut self, x: &Position, y: &Position) {
        let xs = x.coords();
        let ys = y.coords();
        let mut out: Vec<i64> = Vec::new();
        let mut j: usize = 0;
        while j < 4
            invariant
                0 <= j <= 4,
                xs@ == x@,
                ys@ == y@,
                x@.len() >= 4,
                y@.len() >= 4,
                coords_bounded(x@),
                coords_bounded(y@),
                out@.len() == j,
                forall|k: int| 0 <= k < j ==> #[trigger] out@[k] == delta_output(x@, y@, k),
            decreases 4 - j,
        {
            out.push(xs[j] - ys[j]);
            j = j + 1;
        }
        self.last = out;
        proof {
            self.calls@ = self.calls@.push((x@, y@));
            assert(self.last@ =~= self.outputs(x@, y@));
        }
    }

    fn read_output(&self, index: usize) -> (r: Option<i64>) {
        if index < self.last.len() {
            Some(self.last[index])
        } else {
            None
        }
    }
}

} // verus!
