//! The steps of a path: for each transition taken, where it was taken
//! from and how much of the word was consumed before it.

use crate::afd::state_at;
use crate::model::{is_lambda, Arc};
use crate::relation::{arcs_view, Node};
use vstd::prelude::*;

verus! {

/// One transition taken: the state it leaves, its label, the state it
/// leads to, and the number of symbols consumed before it.
#[derive(Debug, PartialEq, Eq)]
pub struct Step {
    pub source: String,
    pub label: String,
    pub target: String,
    pub position: usize,
}

/// A step as the contracts see it.
pub struct StepView {
    pub source: Seq<char>,
    pub label: Seq<char>,
    pub target: Seq<char>,
    pub position: int,
}

impl View for Step {
    type V = StepView;

    open spec fn view(&self) -> StepView {
        StepView {
            source: self.source@,
            label: self.label@,
            target: self.target@,
            position: self.position as int,
        }
    }
}

/// The number of symbols that the first `i` transitions of a path
/// consume: one for each that is not a lambda transition.
pub open spec fn consumed_before(path: Seq<Arc>, i: int) -> int
    decreases i,
{
    if i <= 0 || i > path.len() {
        0
    } else if is_lambda(path[i - 1].label) {
        consumed_before(path, i - 1)
    } else {
        consumed_before(path, i - 1) + 1
    }
}

/// The `i`-th step of a path that leaves `initial`.
pub open spec fn step_at(initial: Seq<char>, path: Seq<Arc>, i: int) -> StepView {
    StepView {
        source: state_at(initial, path, i),
        label: path[i].label,
        target: path[i].target,
        position: consumed_before(path, i),
    }
}

/// The first `i` transitions of a path consume at most `i` symbols.
pub proof fn lemma_consumed_before(path: Seq<Arc>, i: int)
    ensures
        0 <= consumed_before(path, i),
        consumed_before(path, i) <= i || i < 0,
    decreases i,
{
    if 0 < i <= path.len() {
        lemma_consumed_before(path, i - 1);
    }
}

/// The steps of a path that leaves `initial`, one for each of its
/// transitions, in order.
pub fn steps(initial: &String, path: &Vec<Node>) -> (r: Vec<Step>)
    ensures
        r@.len() == path@.len(),
        forall|i: int|
            0 <= i < r@.len() ==> (#[trigger] r@[i])@ == step_at(initial@, arcs_view(path@), i),
{
    let ghost arcs = arcs_view(path@);
    let mut r: Vec<Step> = Vec::new();
    let mut position: usize = 0;
    let mut i: usize = 0;
    while i < path.len()
        invariant
            i <= path@.len(),
            arcs == arcs_view(path@),
            r@.len() == i,
            position == consumed_before(arcs, i as int),
            position <= i,
            forall|j: int| 0 <= j < i ==> (#[trigger] r@[j])@ == step_at(initial@, arcs, j),
        decreases path@.len() - i,
    {
        let source = if i == 0 {
            initial.clone()
        } else {
            path[i - 1].destination.clone()
        };
        let node = &path[i];
        assert(node@ == arcs[i as int]);
        r.push(
            Step {
                source,
                label: node.character.clone(),
                target: node.destination.clone(),
                position,
            },
        );
        if !node.is_lambda() {
            position += 1;
        }
        i += 1;
    }
    r
}

} // verus!
