//! The mathematical model that every contract of this crate speaks of:
//! transitions, transition tables and automata as plain sequences and maps.

use vstd::prelude::*;

verus! {

/// The label of a transition that is taken without consuming a symbol.
pub const LAMBDA: &'static str = "/";

/// A labeled transition: the label it carries and the state it leads to.
pub struct Arc {
    pub label: Seq<char>,
    pub target: Seq<char>,
}

/// Whether `label` is the lambda marker.
pub open spec fn is_lambda(label: Seq<char>) -> bool {
    label == seq!['/']
}

/// Whether `arc` can be taken by consuming `symbol`: its label is that one
/// symbol, and it is not a lambda transition.
pub open spec fn consumes(arc: Arc, symbol: char) -> bool {
    arc.label == seq![symbol] && !is_lambda(arc.label)
}

/// No transition of the list is a lambda transition.
pub open spec fn lambda_free(arcs: Seq<Arc>) -> bool {
    forall|i: int| 0 <= i < arcs.len() ==> !is_lambda(#[trigger] arcs[i].label)
}

/// No two transitions of the list carry the same label.
pub open spec fn distinct_labels(arcs: Seq<Arc>) -> bool {
    forall|i: int, j: int|
        0 <= i < j < arcs.len() ==> (#[trigger] arcs[i]).label != (#[trigger] arcs[j]).label
}

/// Every consuming transition of the list stands before every lambda
/// transition.
pub open spec fn consuming_first(arcs: Seq<Arc>) -> bool {
    forall|i: int, j: int|
        0 <= i < j < arcs.len() && is_lambda((#[trigger] arcs[i]).label) ==> is_lambda(
            (#[trigger] arcs[j]).label,
        )
}

/// The number of consuming transitions at the head of the list: the place
/// where the first lambda transition stands, or the length if there is none.
pub open spec fn consuming_prefix(arcs: Seq<Arc>) -> int
    decreases arcs.len(),
{
    if arcs.len() == 0 || is_lambda(arcs[0].label) {
        0
    } else {
        1 + consuming_prefix(arcs.drop_first())
    }
}

/// The list after one more transition has been recorded: a lambda
/// transition goes to the end, a consuming one behind the consuming
/// transitions that are already there.
pub open spec fn placed(arcs: Seq<Arc>, arc: Arc) -> Seq<Arc> {
    if is_lambda(arc.label) {
        arcs.push(arc)
    } else {
        arcs.insert(consuming_prefix(arcs), arc)
    }
}

/// A transition table: for each state that has outgoing transitions, the
/// list of them in the order in which they are tried.
pub type Table = Map<Seq<char>, Seq<Arc>>;

/// The transitions that leave `state`; none for a state that the table
/// does not hold.
pub open spec fn arcs_of(table: Table, state: Seq<char>) -> Seq<Arc> {
    if table.dom().contains(state) {
        table[state]
    } else {
        Seq::empty()
    }
}

/// The table after the transition `arc` out of `state` has been recorded.
pub open spec fn recorded(table: Table, state: Seq<char>, arc: Arc) -> Table {
    table.insert(state, placed(arcs_of(table, state), arc))
}

/// One transition as it is recorded: the state it leaves, and the
/// transition.
pub struct Record {
    pub state: Seq<char>,
    pub arc: Arc,
}

/// The table that recording the transitions of `records`, in their order,
/// gives.
pub open spec fn built(records: Seq<Record>) -> Table
    decreases records.len(),
{
    if records.len() == 0 {
        Map::empty()
    } else {
        recorded(built(records.drop_last()), records.last().state, records.last().arc)
    }
}

/// The table describes a deterministic automaton: no state has a lambda
/// transition or two transitions with the same label.
pub open spec fn deterministic(table: Table) -> bool {
    forall|state: Seq<char>| #[trigger]
        table.dom().contains(state) ==> lambda_free(table[state]) && distinct_labels(
            table[state],
        )
}

/// What holds of every table that this crate builds: it has finitely many
/// states, each of them has a transition, and each list tries its
/// consuming transitions first.
pub open spec fn well_formed(table: Table) -> bool {
    &&& table.dom().finite()
    &&& forall|state: Seq<char>| #[trigger]
        table.dom().contains(state) ==> table[state].len() > 0 && consuming_first(table[state])
}

/// Some transition of the table carries an empty label.
pub open spec fn has_unlabeled(table: Table) -> bool {
    exists|state: Seq<char>, i: int|
        table.dom().contains(state) && 0 <= i < table[state].len() && (
        #[trigger] table[state][i]).label.len() == 0
}

/// An automaton: one initial state, the accepting states, and the table.
pub struct Machine {
    pub initial: Seq<char>,
    pub finals: Seq<Seq<char>>,
    pub table: Table,
}

impl Machine {
    /// The transitions that leave `state`.
    pub open spec fn arcs(self, state: Seq<char>) -> Seq<Arc> {
        arcs_of(self.table, state)
    }

    /// Whether `state` is an accepting state.
    pub open spec fn accepts_in(self, state: Seq<char>) -> bool {
        self.finals.contains(state)
    }
}

/// A list of names as the contracts see it.
pub open spec fn names_view(names: Seq<String>) -> Seq<Seq<char>> {
    Seq::new(names.len(), |i: int| names[i]@)
}

/// Whether `name` stands in the list.
pub fn contains_name(names: &Vec<String>, name: &String) -> (b: bool)
    ensures
        b == names_view(names@).contains(name@),
{
    let mut i: usize = 0;
    while i < names.len()
        invariant
            i <= names@.len(),
            forall|j: int| 0 <= j < i ==> (#[trigger] names@[j])@ != name@,
        decreases names@.len() - i,
    {
        if names[i] == *name {
            assert(names_view(names@)[i as int] == name@);
            return true;
        }
        i += 1;
    }
    assert(!names_view(names@).contains(name@));
    false
}

/// Tells whether a label is the lambda marker.
pub fn is_lambda_label(label: &str) -> (b: bool)
    ensures
        b == is_lambda(label@),
{
    if label.unicode_len() == 1 {
        let c = label.get_char(0);
        assert(label@ =~= seq![c]);
        c == '/'
    } else {
        false
    }
}

/// The lambda marker is the one-symbol label `/`.
pub proof fn lemma_lambda_marker()
    ensures
        is_lambda(LAMBDA@),
{
    reveal_strlit("/");
    assert(LAMBDA@ =~= seq!['/']);
}

} // verus!
