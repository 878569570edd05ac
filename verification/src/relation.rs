//! Transitions and the transition relation: for each state the ordered list
//! of its outgoing transitions, with the classification of the whole as
//! deterministic or not.

use crate::model::{
    arcs_of, consuming_first, consuming_prefix, deterministic, distinct_labels, has_unlabeled,
    is_lambda, is_lambda_label, lambda_free, placed, recorded, well_formed, Arc, Table,
};
use vstd::prelude::*;
use vstd::std_specs::cmp::PartialEqSpecImpl;

verus! {

/// A transition: the label it carries and the state it leads to.
#[derive(Debug)]
pub struct Node {
    pub character: String,
    pub destination: String,
}

/// The transitions that a state can take, in the order in which they are
/// tried.
pub type NodeVec = Vec<Node>;

impl View for Node {
    type V = Arc;

    open spec fn view(&self) -> Arc {
        Arc { label: self.character@, target: self.destination@ }
    }
}

impl Clone for Node {
    fn clone(&self) -> (r: Node)
        ensures
            r@ == self@,
    {
        Node { character: self.character.clone(), destination: self.destination.clone() }
    }
}

impl PartialEq for Node {
    fn eq(&self, other: &Node) -> (r: bool) {
        self.character == other.character && self.destination == other.destination
    }
}

impl PartialEqSpecImpl for Node {
    open spec fn obeys_eq_spec() -> bool {
        true
    }

    open spec fn eq_spec(&self, other: &Node) -> bool {
        self@ == other@
    }
}

impl Node {
    /// Whether the transition is taken without consuming a symbol.
    pub fn is_lambda(&self) -> (b: bool)
        ensures
            b == is_lambda(self@.label),
    {
        is_lambda_label(self.character.as_str())
    }
}

/// The transitions of a list as the contracts see them.
pub open spec fn arcs_view(nodes: Seq<Node>) -> Seq<Arc> {
    Seq::new(nodes.len(), |i: int| nodes[i]@)
}

/// The verdict of the classifier.
#[derive(Debug, Clone, Copy, PartialEq, Eq, Structural)]
pub enum Kind {
    /// Deterministic: no lambda transition, and no state with two
    /// transitions for one symbol.
    Afd,
    /// Anything else.
    Afn,
}

/// Copies a list of transitions.
pub fn copy_nodes(nodes: &Vec<Node>) -> (r: Vec<Node>)
    ensures
        arcs_view(r@) == arcs_view(nodes@),
{
    let mut r: Vec<Node> = Vec::new();
    let mut i: usize = 0;
    while i < nodes.len()
        invariant
            i <= nodes.len(),
            r.len() == i,
            forall|j: int| 0 <= j < i ==> r[j]@ == nodes[j]@,
        decreases nodes.len() - i,
    {
        r.push(nodes[i].clone());
        i += 1;
    }
    assert(arcs_view(r@) =~= arcs_view(nodes@));
    r
}

/// The first place in the list at which `node` stands.
pub fn position(nodes: &Vec<Node>, node: &Node) -> (r: Option<usize>)
    ensures
        match r {
            Some(k) => k < nodes@.len() && nodes@[k as int]@ == node@ && forall|j: int|
                0 <= j < k ==> (#[trigger] nodes@[j])@ != node@,
            None => forall|j: int| 0 <= j < nodes@.len() ==> (#[trigger] nodes@[j])@ != node@,
        },
{
    let mut k: usize = 0;
    while k < nodes.len()
        invariant
            k <= nodes@.len(),
            forall|j: int| 0 <= j < k ==> (#[trigger] nodes@[j])@ != node@,
        decreases nodes@.len() - k,
    {
        if nodes[k] == *node {
            return Some(k);
        }
        k += 1;
    }
    None
}

/// Whether no transition of the list is a lambda transition and no two of
/// them carry the same label.
pub fn unambiguous(nodes: &Vec<Node>) -> (b: bool)
    ensures
        b == (lambda_free(arcs_view(nodes@)) && distinct_labels(arcs_view(nodes@))),
{
    let ghost arcs = arcs_view(nodes@);
    let mut j: usize = 0;
    while j < nodes.len()
        invariant
            j <= nodes.len(),
            arcs == arcs_view(nodes@),
            forall|b: int| 0 <= b < j ==> !is_lambda(#[trigger] arcs[b].label),
            forall|a: int, b: int|
                0 <= a < b < j ==> (#[trigger] arcs[a]).label != (#[trigger] arcs[b]).label,
        decreases nodes.len() - j,
    {
        if nodes[j].is_lambda() {
            assert(is_lambda(arcs[j as int].label));
            return false;
        }
        let mut i: usize = 0;
        while i < j
            invariant
                i <= j < nodes.len(),
                arcs == arcs_view(nodes@),
                forall|a: int| 0 <= a < i ==> (#[trigger] arcs[a]).label != arcs[j as int].label,
            decreases j - i,
        {
            if nodes[i].character == nodes[j].character {
                assert(arcs[i as int].label == arcs[j as int].label);
                return false;
            }
            i += 1;
        }
        j += 1;
    }
    true
}

/// The index at which the first lambda transition of the list stands, or
/// its length if it has none.
pub fn first_lambda(nodes: &Vec<Node>) -> (k: usize)
    ensures
        k == consuming_prefix(arcs_view(nodes@)),
        k <= nodes.len(),
{
    let ghost arcs = arcs_view(nodes@);
    let mut k: usize = 0;
    while k < nodes.len() && !nodes[k].is_lambda()
        invariant
            k <= nodes.len(),
            arcs == arcs_view(nodes@),
            forall|j: int| 0 <= j < k ==> !is_lambda(#[trigger] arcs[j].label),
        decreases nodes.len() - k,
    {
        k += 1;
    }
    proof {
        lemma_consuming_prefix(arcs, k as int);
    }
    k
}

/// The consuming prefix ends at the first lambda transition.
pub proof fn lemma_consuming_prefix(arcs: Seq<Arc>, k: int)
    requires
        0 <= k <= arcs.len(),
        forall|j: int| 0 <= j < k ==> !is_lambda(#[trigger] arcs[j].label),
        k < arcs.len() ==> is_lambda(arcs[k].label),
    ensures
        consuming_prefix(arcs) == k,
    decreases k,
{
    if k > 0 {
        let rest = arcs.drop_first();
        assert(!is_lambda(arcs[0].label));
        assert forall|j: int| 0 <= j < k - 1 implies !is_lambda(#[trigger] rest[j].label) by {
            assert(rest[j] == arcs[j + 1]);
        }
        lemma_consuming_prefix(rest, k - 1);
    }
}

/// Before the end of the consuming prefix no transition is a lambda
/// transition, and the one that stands at its end is.
pub proof fn lemma_consuming_prefix_bounds(arcs: Seq<Arc>)
    ensures
        0 <= consuming_prefix(arcs) <= arcs.len(),
        forall|j: int| 0 <= j < consuming_prefix(arcs) ==> !is_lambda(#[trigger] arcs[j].label),
        consuming_prefix(arcs) < arcs.len() ==> is_lambda(arcs[consuming_prefix(arcs)].label),
    decreases arcs.len(),
{
    if arcs.len() > 0 && !is_lambda(arcs[0].label) {
        let rest = arcs.drop_first();
        lemma_consuming_prefix_bounds(rest);
        let k = consuming_prefix(arcs);
        assert forall|j: int| 0 <= j < k implies !is_lambda(#[trigger] arcs[j].label) by {
            if j > 0 {
                assert(arcs[j] == rest[j - 1]);
            }
        }
        if k < arcs.len() {
            assert(arcs[k] == rest[k - 1]);
        }
    }
}

/// One state with the transitions that leave it.
#[derive(Debug)]
struct Row {
    state: String,
    arcs: Vec<Node>,
}

/// The table that a list of rows stands for; of two rows for one state the
/// earlier one counts.
spec fn table_of(rows: Seq<Row>) -> Table
    decreases rows.len(),
{
    if rows.len() == 0 {
        Map::empty()
    } else {
        table_of(rows.drop_first()).insert(rows[0].state@, arcs_view(rows[0].arcs@))
    }
}

/// No two rows are for the same state.
spec fn distinct_states(rows: Seq<Row>) -> bool {
    forall|i: int, j: int|
        0 <= i < j < rows.len() ==> (#[trigger] rows[i]).state@ != (#[trigger] rows[j]).state@
}

/// The table of a list of rows holds exactly the states of the rows, each
/// with the transitions of its row.
proof fn lemma_table_of(rows: Seq<Row>)
    requires
        distinct_states(rows),
    ensures
        table_of(rows).dom().finite(),
        forall|state: Seq<char>| #[trigger]
            table_of(rows).dom().contains(state) <==> exists|i: int|
                0 <= i < rows.len() && (#[trigger] rows[i]).state@ == state,
        forall|i: int|
            0 <= i < rows.len() ==> table_of(rows)[(#[trigger] rows[i]).state@] == arcs_view(
                rows[i].arcs@,
            ),
    decreases rows.len(),
{
    if rows.len() > 0 {
        let rest = rows.drop_first();
        assert forall|i: int, j: int| 0 <= i < j < rest.len() implies (#[trigger] rest[i]).state@
            != (#[trigger] rest[j]).state@ by {
            assert(rest[i] == rows[i + 1] && rest[j] == rows[j + 1]);
        }
        lemma_table_of(rest);
        assert forall|state: Seq<char>| #[trigger]
            table_of(rows).dom().contains(state) implies exists|i: int|
            0 <= i < rows.len() && (#[trigger] rows[i]).state@ == state by {
            if state != rows[0].state@ {
                let i = choose|i: int| 0 <= i < rest.len() && (#[trigger] rest[i]).state@ == state;
                assert(rows[i + 1] == rest[i]);
            }
        }
        assert forall|state: Seq<char>|
            (exists|i: int|
                0 <= i < rows.len() && (#[trigger] rows[i]).state@ == state) implies #[trigger]
            table_of(rows).dom().contains(state) by {
            let i = choose|i: int| 0 <= i < rows.len() && (#[trigger] rows[i]).state@ == state;
            if i > 0 {
                assert(rest[i - 1] == rows[i]);
            }
        }
        assert forall|i: int| 0 <= i < rows.len() implies table_of(rows)[(
        #[trigger] rows[i]).state@] == arcs_view(rows[i].arcs@) by {
            if i > 0 {
                assert(rest[i - 1] == rows[i]);
                assert(rows[i].state@ != rows[0].state@);
            }
        }
    }
}

/// The transition relation of an automaton: for each state that has
/// outgoing transitions, the list of them in the order in which they are
/// tried. In every list the consuming transitions stand before the lambda
/// transitions, each group in the order in which it was recorded.
#[derive(Debug)]
pub struct Relation {
    rows: Vec<Row>,
    none: Vec<Node>,
}

impl View for Relation {
    type V = Table;

    closed spec fn view(&self) -> Table {
        table_of(self.rows@)
    }
}

impl Relation {
    #[verifier::type_invariant]
    spec fn inv(&self) -> bool {
        &&& self.none@.len() == 0
        &&& distinct_states(self.rows@)
        &&& forall|i: int|
            0 <= i < self.rows@.len() ==> (#[trigger] self.rows@[i]).arcs@.len() > 0
                && consuming_first(arcs_view(self.rows@[i].arcs@))
    }

    /// The states of the rows, in the order of the rows.
    pub closed spec fn order(&self) -> Seq<Seq<char>> {
        Seq::new(self.rows@.len(), |i: int| self.rows@[i].state@)
    }

    /// The invariant in terms of the view.
    proof fn lemma_inv(&self)
        requires
            self.inv(),
        ensures
            well_formed(self@),
            self.order().no_duplicates(),
            forall|state: Seq<char>| self@.dom().contains(state) <==> self.order().contains(state),
    {
        let rows = self.rows@;
        lemma_table_of(rows);
        assert forall|state: Seq<char>| #[trigger] self@.dom().contains(state) implies self@[state].len()
            > 0 && consuming_first(self@[state]) by {
            let i = choose|i: int| 0 <= i < rows.len() && (#[trigger] rows[i]).state@ == state;
            assert(self@[rows[i].state@] == arcs_view(rows[i].arcs@));
        }
        assert forall|state: Seq<char>| self@.dom().contains(state) implies self.order().contains(
            state,
        ) by {
            let i = choose|i: int| 0 <= i < rows.len() && (#[trigger] rows[i]).state@ == state;
            assert(self.order()[i] == state);
        }
        assert forall|state: Seq<char>| self.order().contains(state) implies self@.dom().contains(
            state,
        ) by {
            let i = choose|i: int| 0 <= i < self.order().len() && self.order()[i] == state;
            assert(rows[i].state@ == state);
        }
    }

    /// A relation without transitions.
    pub fn new() -> (r: Relation)
        ensures
            r@ == Map::<Seq<char>, Seq<Arc>>::empty(),
            r.order() == Seq::<Seq<char>>::empty(),
    {
        let r = Relation { rows: Vec::new(), none: Vec::new() };
        assert(r.order() =~= Seq::<Seq<char>>::empty());
        r
    }

    /// What holds of every relation: finitely many states, each with at
    /// least one transition, and in each list the consuming transitions
    /// first.
    pub fn well_formed(&self)
        ensures
            well_formed(self@),
            self.order().no_duplicates(),
            forall|state: Seq<char>| self@.dom().contains(state) <==> self.order().contains(state),
    {
        proof {
            use_type_invariant(self);
            self.lemma_inv();
        }
    }

    /// The row of `state`, if it has one.
    fn find(&self, state: &String) -> (r: Option<usize>)
        ensures
            match r {
                Some(k) => k < self.rows@.len() && self.rows@[k as int].state@ == state@,
                None => forall|i: int|
                    0 <= i < self.rows@.len() ==> (#[trigger] self.rows@[i]).state@ != state@,
            },
    {
        let mut i: usize = 0;
        while i < self.rows.len()
            invariant
                i <= self.rows@.len(),
                forall|j: int| 0 <= j < i ==> (#[trigger] self.rows@[j]).state@ != state@,
            decreases self.rows@.len() - i,
        {
            if self.rows[i].state == *state {
                return Some(i);
            }
            i += 1;
        }
        None
    }

    /// Whether `state` has outgoing transitions.
    pub fn contains_key(&self, state: &String) -> (b: bool)
        ensures
            b == self@.dom().contains(state@),
    {
        proof {
            use_type_invariant(self);
            lemma_table_of(self.rows@);
        }
        self.find(state).is_some()
    }

    /// The transitions that leave `state`, in the order in which they are
    /// tried; an empty list for a state without transitions.
    pub fn get(&self, state: &String) -> (r: &Vec<Node>)
        ensures
            arcs_view(r@) == arcs_of(self@, state@),
    {
        proof {
            use_type_invariant(self);
            lemma_table_of(self.rows@);
        }
        match self.find(state) {
            Some(k) => &self.rows[k].arcs,
            None => {
                assert(arcs_view(self.none@) =~= Seq::<Arc>::empty());
                &self.none
            },
        }
    }

    /// Whether the relation has no transition at all.
    pub fn is_empty(&self) -> (b: bool)
        ensures
            b == (self@ == Map::<Seq<char>, Seq<Arc>>::empty()),
    {
        proof {
            use_type_invariant(self);
            lemma_table_of(self.rows@);
            if self.rows@.len() == 0 {
                assert(self@ =~= Map::<Seq<char>, Seq<Arc>>::empty());
            } else {
                assert(self@.dom().contains(self.rows@[0].state@));
            }
        }
        self.rows.len() == 0
    }

    /// The states that have outgoing transitions, each once, in the order
    /// in which they first got one.
    pub fn keys(&self) -> (r: Vec<String>)
        ensures
            r@.len() == self.order().len(),
            forall|i: int| 0 <= i < r@.len() ==> (#[trigger] r@[i])@ == self.order()[i],
    {
        let mut r: Vec<String> = Vec::new();
        let mut i: usize = 0;
        while i < self.rows.len()
            invariant
                i <= self.rows@.len(),
                r@.len() == i,
                forall|j: int| 0 <= j < i ==> (#[trigger] r@[j])@ == self.rows@[j].state@,
            decreases self.rows@.len() - i,
        {
            r.push(self.rows[i].state.clone());
            i += 1;
        }
        r
    }

    /// Records the transition from `state` to `destination` under the label
    /// `character`: a lambda transition goes to the end of the state's
    /// list, a consuming one behind the consuming transitions that the
    /// list already holds.
    pub fn insert(&mut self, state: String, character: String, destination: String)
        ensures
            final(self)@ == recorded(
                old(self)@,
                state@,
                Arc { label: character@, target: destination@ },
            ),
            final(self).order() == if old(self)@.dom().contains(state@) {
                old(self).order()
            } else {
                old(self).order().push(state@)
            },
    {
        proof {
            use_type_invariant(&*self);
            lemma_table_of(self.rows@);
        }
        let ghost before = self.rows@;
        let ghost arc = Arc { label: character@, target: destination@ };
        let ghost name = state@;
        let node = Node { character, destination };
        let found = self.find(&state);
        let mut taken = Relation::new();
        std::mem::swap(self, &mut taken);
        let Relation { rows, none } = taken;
        let mut rows = rows;
        match found {
            Some(k) => {
                let mut arcs = copy_nodes(&rows[k].arcs);
                let ghost had = arcs_view(arcs@);
                if node.is_lambda() {
                    arcs.push(node);
                } else {
                    let at = first_lambda(&arcs);
                    arcs.insert(at, node);
                }
                proof {
                    assert(arcs_view(arcs@) =~= placed(had, arc));
                    lemma_placed(had, arc);
                }
                let row = Row { state, arcs };
                proof {
                    let after = before.update(k as int, row);
                    assert(distinct_states(after)) by {
                        assert forall|i: int, j: int| 0 <= i < j < after.len() implies (
                        #[trigger] after[i]).state@ != (#[trigger] after[j]).state@ by {
                            assert(after[i].state@ == before[i].state@);
                            assert(after[j].state@ == before[j].state@);
                        }
                    }
                    lemma_table_of(after);
                    let wanted = recorded(table_of(before), name, arc);
                    assert(table_of(before)[before[k as int].state@] == had);
                    assert forall|key: Seq<char>| #[trigger]
                        table_of(after).dom().contains(key) implies wanted.dom().contains(key) by {
                        let i = choose|i: int|
                            0 <= i < after.len() && (#[trigger] after[i]).state@ == key;
                        assert(before[i].state@ == key);
                    }
                    assert forall|key: Seq<char>| #[trigger]
                        wanted.dom().contains(key) implies table_of(after).dom().contains(key) by {
                        if key != name {
                            let i = choose|i: int|
                                0 <= i < before.len() && (#[trigger] before[i]).state@ == key;
                            assert(after[i].state@ == key);
                        } else {
                            assert(after[k as int].state@ == key);
                        }
                    }
                    assert forall|key: Seq<char>| #[trigger]
                        table_of(after).dom().contains(key) implies table_of(after)[key]
                        == wanted[key] by {
                        let i = choose|i: int|
                            0 <= i < after.len() && (#[trigger] after[i]).state@ == key;
                        assert(table_of(after)[after[i].state@] == arcs_view(after[i].arcs@));
                        if i != k {
                            assert(after[i] == before[i]);
                            assert(table_of(before)[before[i].state@] == arcs_view(
                                before[i].arcs@,
                            ));
                        }
                    }
                    assert(table_of(after) =~= wanted);
                    assert(Seq::new(after.len(), |i: int| after[i].state@) =~= Seq::new(
                        before.len(),
                        |i: int| before[i].state@,
                    ));
                }
                rows.set(k, row);
            },
            None => {
                let mut arcs: Vec<Node> = Vec::new();
                arcs.push(node);
                let row = Row { state, arcs };
                proof {
                    let after = before.push(row);
                    assert(arcs_view(arcs@) =~= placed(Seq::<Arc>::empty(), arc));
                    lemma_placed(Seq::<Arc>::empty(), arc);
                    assert(distinct_states(after)) by {
                        assert forall|i: int, j: int| 0 <= i < j < after.len() implies (
                        #[trigger] after[i]).state@ != (#[trigger] after[j]).state@ by {
                            assert(after[i] == before[i]);
                            if j < before.len() {
                                assert(after[j] == before[j]);
                            }
                        }
                    }
                    lemma_table_of(after);
                    let wanted = recorded(table_of(before), name, arc);
                    assert(!table_of(before).dom().contains(name));
                    assert forall|key: Seq<char>| #[trigger]
                        table_of(after).dom().contains(key) implies wanted.dom().contains(key) by {
                        let i = choose|i: int|
                            0 <= i < after.len() && (#[trigger] after[i]).state@ == key;
                        if i < before.len() {
                            assert(before[i].state@ == key);
                        }
                    }
                    assert forall|key: Seq<char>| #[trigger]
                        wanted.dom().contains(key) implies table_of(after).dom().contains(key) by {
                        if key != name {
                            let i = choose|i: int|
                                0 <= i < before.len() && (#[trigger] before[i]).state@ == key;
                            assert(after[i].state@ == key);
                        } else {
                            assert(after[before.len() as int].state@ == key);
                        }
                    }
                    assert forall|key: Seq<char>| #[trigger]
                        table_of(after).dom().contains(key) implies table_of(after)[key]
                        == wanted[key] by {
                        let i = choose|i: int|
                            0 <= i < after.len() && (#[trigger] after[i]).state@ == key;
                        assert(table_of(after)[after[i].state@] == arcs_view(after[i].arcs@));
                        if i < before.len() {
                            assert(after[i] == before[i]);
                            assert(table_of(before)[before[i].state@] == arcs_view(
                                before[i].arcs@,
                            ));
                        }
                    }
                    assert(table_of(after) =~= wanted);
                    assert(Seq::new(after.len(), |i: int| after[i].state@) =~= Seq::new(
                        before.len(),
                        |i: int| before[i].state@,
                    ).push(name));
                }
                rows.push(row);
            },
        }
        *self = Relation { rows, none };
    }

    /// Classifies the relation: deterministic if no state has a lambda
    /// transition or two transitions with the same label.
    pub fn classify(&self) -> (kind: Kind)
        ensures
            (kind == Kind::Afd) == deterministic(self@),
    {
        proof {
            use_type_invariant(self);
            lemma_table_of(self.rows@);
        }
        let mut i: usize = 0;
        while i < self.rows.len()
            invariant
                i <= self.rows@.len(),
                forall|state: Seq<char>| #[trigger]
                    self@.dom().contains(state) <==> exists|i: int|
                        0 <= i < self.rows@.len() && (#[trigger] self.rows@[i]).state@ == state,
                forall|i: int|
                    0 <= i < self.rows@.len() ==> self@[(#[trigger] self.rows@[i]).state@]
                        == arcs_view(self.rows@[i].arcs@),
                forall|j: int|
                    0 <= j < i ==> lambda_free(arcs_view((#[trigger] self.rows@[j]).arcs@))
                        && distinct_labels(arcs_view(self.rows@[j].arcs@)),
            decreases self.rows@.len() - i,
        {
            if !unambiguous(&self.rows[i].arcs) {
                proof {
                    let state = self.rows@[i as int].state@;
                    assert(self@.dom().contains(state));
                    assert(self@[state] == arcs_view(self.rows@[i as int].arcs@));
                }
                return Kind::Afn;
            }
            i += 1;
        }
        proof {
            assert forall|state: Seq<char>| #[trigger] self@.dom().contains(state) implies lambda_free(
                self@[state],
            ) && distinct_labels(self@[state]) by {
                let j = choose|j: int|
                    0 <= j < self.rows@.len() && (#[trigger] self.rows@[j]).state@ == state;
                assert(self@[self.rows@[j].state@] == arcs_view(self.rows@[j].arcs@));
            }
        }
        Kind::Afd
    }

    /// Whether some transition carries an empty label.
    pub fn has_unlabeled(&self) -> (b: bool)
        ensures
            b == has_unlabeled(self@),
    {
        proof {
            use_type_invariant(self);
            lemma_table_of(self.rows@);
        }
        let mut i: usize = 0;
        while i < self.rows.len()
            invariant
                i <= self.rows@.len(),
                forall|state: Seq<char>| #[trigger]
                    self@.dom().contains(state) <==> exists|i: int|
                        0 <= i < self.rows@.len() && (#[trigger] self.rows@[i]).state@ == state,
                forall|i: int|
                    0 <= i < self.rows@.len() ==> self@[(#[trigger] self.rows@[i]).state@]
                        == arcs_view(self.rows@[i].arcs@),
                forall|a: int| 0 <= a < i ==> labeled(arcs_view((#[trigger] self.rows@[a]).arcs@)),
            decreases self.rows@.len() - i,
        {
            if !all_labeled(&self.rows[i].arcs) {
                proof {
                    let state = self.rows@[i as int].state@;
                    assert(self@.dom().contains(state));
                    assert(self@[state] == arcs_view(self.rows@[i as int].arcs@));
                    let b = choose|b: int|
                        0 <= b < self@[state].len() && (#[trigger] self@[state][b]).label.len()
                            == 0;
                    assert(self@[state][b].label.len() == 0);
                }
                return true;
            }
            i += 1;
        }
        proof {
            if has_unlabeled(self@) {
                let (state, b) = choose|state: Seq<char>, b: int|
                    self@.dom().contains(state) && 0 <= b < self@[state].len() && (
                    #[trigger] self@[state][b]).label.len() == 0;
                let a = choose|a: int|
                    0 <= a < self.rows@.len() && (#[trigger] self.rows@[a]).state@ == state;
                assert(self@[self.rows@[a].state@] == arcs_view(self.rows@[a].arcs@));
                assert(self@[state][b].label.len() > 0);
            }
        }
        false
    }
}

/// Every transition of the list carries a label.
pub open spec fn labeled(arcs: Seq<Arc>) -> bool {
    forall|i: int| 0 <= i < arcs.len() ==> (#[trigger] arcs[i]).label.len() > 0
}

/// Whether every transition of the list carries a label.
pub fn all_labeled(nodes: &Vec<Node>) -> (b: bool)
    ensures
        b == labeled(arcs_view(nodes@)),
{
    let ghost arcs = arcs_view(nodes@);
    let mut j: usize = 0;
    while j < nodes.len()
        invariant
            j <= nodes@.len(),
            arcs == arcs_view(nodes@),
            forall|b: int| 0 <= b < j ==> (#[trigger] arcs[b]).label.len() > 0,
        decreases nodes@.len() - j,
    {
        if nodes[j].character.as_str().is_empty() {
            assert(arcs[j as int].label.len() == 0);
            return false;
        }
        j += 1;
    }
    true
}

/// Recording one more transition keeps the consuming transitions first.
pub proof fn lemma_placed(arcs: Seq<Arc>, arc: Arc)
    requires
        consuming_first(arcs),
    ensures
        consuming_first(placed(arcs, arc)),
        placed(arcs, arc).len() == arcs.len() + 1,
{
    lemma_consuming_prefix_bounds(arcs);
    let k = consuming_prefix(arcs);
    let new = placed(arcs, arc);
    assert forall|i: int, j: int|
        0 <= i < j < new.len() && is_lambda((#[trigger] new[i]).label) implies is_lambda(
        (#[trigger] new[j]).label,
    ) by {
        if is_lambda(arc.label) {
            if j < arcs.len() {
                assert(new[i] == arcs[i] && new[j] == arcs[j]);
            }
        } else {
            if i < k {
                assert(new[i] == arcs[i]);
            } else {
                assert(i > k);
                assert(new[i] == arcs[i - 1] && new[j] == arcs[j - 1]);
                if k < i - 1 {
                    assert(is_lambda(arcs[k].label));
                }
            }
        }
    }
}

} // verus!
