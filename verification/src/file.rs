//! The description of one run: the automaton, classified, and the word to
//! test against it.

use crate::model::{
    contains_name, deterministic, has_unlabeled, names_view, well_formed, Arc, Machine,
};
use crate::relation::{Kind, Relation};
use vstd::prelude::*;

verus! {

/// Why a description is refused.
#[derive(Debug, Clone, Copy, PartialEq, Eq, Structural)]
pub enum DescriptorError {
    /// There is no accepting state.
    NoFinishState,
    /// There are transitions, but none leaves the initial state.
    InitialStateWithoutTransitions,
    /// A transition carries an empty label.
    UnlabeledTransition,
}

/// The first reason, if any, for which the automaton is refused.
pub open spec fn defect(m: Machine) -> Option<DescriptorError> {
    if m.finals.len() == 0 {
        Some(DescriptorError::NoFinishState)
    } else if m.table != Map::<Seq<char>, Seq<Arc>>::empty() && !m.table.dom().contains(m.initial) {
        Some(DescriptorError::InitialStateWithoutTransitions)
    } else if has_unlabeled(m.table) {
        Some(DescriptorError::UnlabeledTransition)
    } else {
        None
    }
}

/// An automaton with the word to test: the initial state, the accepting
/// states, the transition relation and its classification. It is checked
/// when it is built and does not change afterwards.
#[derive(Debug)]
pub struct ParsedFile {
    initial_states: String,
    finish_states: Vec<String>,
    states: Relation,
    word: String,
    is_afd: bool,
}

impl View for ParsedFile {
    type V = Machine;

    closed spec fn view(&self) -> Machine {
        Machine {
            initial: self.initial_states@,
            finals: names_view(self.finish_states@),
            table: self.states@,
        }
    }
}

impl ParsedFile {
    #[verifier::type_invariant]
    spec fn inv(&self) -> bool {
        &&& defect(self@) is None
        &&& well_formed(self.states@)
        &&& self.is_afd == deterministic(self.states@)
    }

    /// The word to test.
    pub closed spec fn word(&self) -> Seq<char> {
        self.word@
    }

    /// The states that have transitions, in the order in which they first
    /// got one.
    pub closed spec fn order(&self) -> Seq<Seq<char>> {
        self.states.order()
    }

    /// Builds the description of a run, classifying the relation. It is
    /// refused if it names no accepting state, if it has transitions but
    /// none from the initial state, or if one of its transitions has an
    /// empty label; of several reasons the first in this order is given.
    pub fn new(initial: String, finish: Vec<String>, states: Relation, word: String) -> (r: Result<
        ParsedFile,
        DescriptorError,
    >)
        ensures
            match r {
                Ok(infos) => {
                    &&& defect(infos@) is None
                    &&& infos@.initial == initial@
                    &&& infos@.finals == names_view(finish@)
                    &&& infos@.table == states@
                    &&& infos.word() == word@
                    &&& infos.order() == states.order()
                },
                Err(e) => defect(
                    Machine { initial: initial@, finals: names_view(finish@), table: states@ },
                ) == Some(e),
            },
    {
        if finish.len() == 0 {
            return Err(DescriptorError::NoFinishState);
        }
        if !states.is_empty() && !states.contains_key(&initial) {
            return Err(DescriptorError::InitialStateWithoutTransitions);
        }
        if states.has_unlabeled() {
            return Err(DescriptorError::UnlabeledTransition);
        }
        states.well_formed();
        let is_afd = states.classify() == Kind::Afd;
        Ok(ParsedFile { initial_states: initial, finish_states: finish, states, word, is_afd })
    }

    /// What holds of every description: it has passed the checks of
    /// [`ParsedFile::new`], and its relation is well formed.
    pub fn well_formed(&self)
        ensures
            defect(self@) is None,
            well_formed(self@.table),
    {
        proof {
            use_type_invariant(self);
        }
    }

    /// The initial state.
    pub fn get_initial_state(&self) -> (r: &String)
        ensures
            r@ == self@.initial,
    {
        &self.initial_states
    }

    /// The accepting states.
    pub fn get_finish_state(&self) -> (r: &Vec<String>)
        ensures
            names_view(r@) == self@.finals,
    {
        &self.finish_states
    }

    /// The word to test.
    pub fn get_word(&self) -> (r: &String)
        ensures
            r@ == self.word(),
    {
        &self.word
    }

    /// Whether the automaton is deterministic.
    pub fn is_afd(&self) -> (r: &bool)
        ensures
            *r == deterministic(self@.table),
    {
        proof {
            use_type_invariant(self);
        }
        &self.is_afd
    }

    /// The transition relation.
    pub fn states(&self) -> (r: &Relation)
        ensures
            r@ == self@.table,
            r.order() == self.order(),
    {
        &self.states
    }

    /// Whether `state` is an accepting state.
    pub fn is_finish_state(&self, state: &String) -> (b: bool)
        ensures
            b == self@.accepts_in(state@),
    {
        contains_name(&self.finish_states, state)
    }
}

} // verus!
