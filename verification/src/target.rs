//! Targets: the units that are built.

use vstd::prelude::*;
use crate::label::{Label, LabelView};

verus! {

/// A buildable unit: the labels it reads and the labels it produces.
#[derive(Debug, PartialEq)]
pub struct Target {
    pub inputs: Vec<Label>,
    pub outputs: Vec<Label>,
}

/// What the labels hold.
pub open spec fn label_views(labels: Seq<Label>) -> Seq<LabelView> {
    Seq::new(labels.len(), |i: int| labels[i]@)
}

/// What a [`Target`] holds.
pub struct TargetView {
    pub inputs: Seq<LabelView>,
    pub outputs: Seq<LabelView>,
}

impl View for Target {
    type V = TargetView;

    open spec fn view(&self) -> TargetView {
        TargetView { inputs: label_views(self.inputs@), outputs: label_views(self.outputs@) }
    }
}

impl Target {
    /// The target that reads `inputs` and produces `outputs`.
    pub fn new(inputs: Vec<Label>, outputs: Vec<Label>) -> (target: Self)
        ensures
            target.inputs == inputs,
            target.outputs == outputs,
            target@ == (TargetView {
                inputs: label_views(inputs@),
                outputs: label_views(outputs@),
            }),
    {
        Self { inputs, outputs }
    }
}

} // verus!
