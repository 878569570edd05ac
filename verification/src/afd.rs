//! The deterministic walk: the word is consumed symbol by symbol along the
//! first transition that consumes each.

use crate::file::ParsedFile;
use crate::model::{consumes, Arc, Machine};
use crate::relation::{arcs_view, Node};
use vstd::prelude::*;

verus! {

/// The first transition of the list, from index `from` on, that consumes
/// `symbol`.
pub open spec fn first_consuming(arcs: Seq<Arc>, symbol: char, from: int) -> Option<Arc>
    decreases arcs.len() - from,
{
    if from < 0 || from >= arcs.len() {
        None
    } else if consumes(arcs[from], symbol) {
        Some(arcs[from])
    } else {
        first_consuming(arcs, symbol, from + 1)
    }
}

/// No transition out of `state` consumes `symbol`.
pub open spec fn stuck(m: Machine, state: Seq<char>, symbol: char) -> bool {
    forall|i: int| 0 <= i < m.arcs(state).len() ==> !consumes(#[trigger] m.arcs(state)[i], symbol)
}

/// The transitions that the walk takes from `state` on the symbols of
/// `word` from `pos` on: for each symbol the first transition that
/// consumes it, until the word ends or no transition consumes the next
/// symbol.
pub open spec fn walk_path(m: Machine, word: Seq<char>, state: Seq<char>, pos: int) -> Seq<Arc>
    decreases word.len() - pos,
{
    if pos < 0 || pos >= word.len() {
        Seq::empty()
    } else {
        match first_consuming(m.arcs(state), word[pos], 0) {
            None => Seq::empty(),
            Some(arc) => seq![arc] + walk_path(m, word, arc.target, pos + 1),
        }
    }
}

/// The state in which a path that leaves `state` ends.
pub open spec fn end_state(state: Seq<char>, path: Seq<Arc>) -> Seq<char> {
    if path.len() == 0 {
        state
    } else {
        path.last().target
    }
}

/// The state in which a path that leaves `state` is after `i` of its
/// transitions.
pub open spec fn state_at(state: Seq<char>, path: Seq<Arc>, i: int) -> Seq<char> {
    if i <= 0 {
        state
    } else {
        path[i - 1].target
    }
}

/// The path leaves `state` and takes one transition of the automaton for
/// each of the first symbols of `word`, consuming that symbol.
pub open spec fn walks(m: Machine, word: Seq<char>, state: Seq<char>, path: Seq<Arc>) -> bool {
    &&& path.len() <= word.len()
    &&& forall|i: int|
        0 <= i < path.len() ==> m.arcs(state_at(state, path, i)).contains(#[trigger] path[i])
            && consumes(path[i], word[i])
}

/// How a walk ends, as the contracts see it.
pub enum Verdict {
    Accepted,
    Rejected { prefix: Seq<char>, offending_symbol: Option<char> },
}

/// How the walk of `word` from the initial state ends: accepted if the
/// whole word is consumed and the state reached is accepting; else
/// rejected, with the part of the word that was consumed and the symbol
/// that no transition consumed (none if the word was consumed).
pub open spec fn verdict(m: Machine, word: Seq<char>) -> Verdict {
    let path = walk_path(m, word, m.initial, 0);
    if path.len() < word.len() {
        Verdict::Rejected {
            prefix: word.take(path.len() as int),
            offending_symbol: Some(word[path.len() as int]),
        }
    } else if m.accepts_in(end_state(m.initial, path)) {
        Verdict::Accepted
    } else {
        Verdict::Rejected { prefix: word, offending_symbol: None }
    }
}

/// How a walk ends.
#[derive(Debug, PartialEq, Eq)]
pub enum Outcome {
    /// The word was consumed and the walk ended in an accepting state.
    Accepted,
    /// The walk stopped: `prefix` is the part of the word that was
    /// consumed, `offending_symbol` the symbol that no transition consumed,
    /// or nothing if the word was consumed and the state is not accepting.
    Rejected { prefix: String, offending_symbol: Option<char> },
}

impl View for Outcome {
    type V = Verdict;

    open spec fn view(&self) -> Verdict {
        match self {
            Outcome::Accepted => Verdict::Accepted,
            Outcome::Rejected { prefix, offending_symbol } => Verdict::Rejected {
                prefix: prefix@,
                offending_symbol: *offending_symbol,
            },
        }
    }
}

impl Clone for Outcome {
    fn clone(&self) -> (r: Outcome)
        ensures
            r@ == self@,
    {
        match self {
            Outcome::Accepted => Outcome::Accepted,
            Outcome::Rejected { prefix, offending_symbol } => Outcome::Rejected {
                prefix: prefix.clone(),
                offending_symbol: *offending_symbol,
            },
        }
    }
}

/// A walk: how it ended, and the transitions it took, in order.
#[derive(Debug)]
pub struct Walk {
    pub outcome: Outcome,
    pub path: Vec<Node>,
}

/// The walk takes a transition for each symbol it consumes, never more
/// than the word has, and where it stops before the end of the word, no
/// transition out of the state reached consumes the next symbol.
pub proof fn lemma_walk_path(m: Machine, word: Seq<char>, state: Seq<char>, pos: int)
    requires
        0 <= pos <= word.len(),
    ensures
        walks(m, word.skip(pos), state, walk_path(m, word, state, pos)),
        walk_path(m, word, state, pos).len() < word.len() - pos ==> stuck(
            m,
            end_state(state, walk_path(m, word, state, pos)),
            word[pos + walk_path(m, word, state, pos).len()],
        ),
    decreases word.len() - pos,
{
    let path = walk_path(m, word, state, pos);
    let rest = word.skip(pos);
    if pos < word.len() {
        lemma_first_consuming(m.arcs(state), word[pos], 0);
        match first_consuming(m.arcs(state), word[pos], 0) {
            None => {},
            Some(arc) => {
                let tail = walk_path(m, word, arc.target, pos + 1);
                lemma_walk_path(m, word, arc.target, pos + 1);
                assert(path == seq![arc] + tail);
                assert forall|i: int| 0 <= i < path.len() implies m.arcs(
                    state_at(state, path, i),
                ).contains(#[trigger] path[i]) && consumes(path[i], rest[i]) by {
                    if i > 0 {
                        assert(path[i] == tail[i - 1]);
                        assert(state_at(state, path, i) == state_at(arc.target, tail, i - 1));
                        assert(word.skip(pos + 1)[i - 1] == rest[i]);
                    }
                }
                if tail.len() > 0 {
                    assert(path.last() == tail.last());
                }
            },
        }
    }
}

/// What the first consuming transition is: it consumes the symbol, stands
/// in the list, and no transition between `from` and it consumes the
/// symbol; there is none only if no transition from `from` on does.
pub proof fn lemma_first_consuming(arcs: Seq<Arc>, symbol: char, from: int)
    requires
        0 <= from,
    ensures
        match first_consuming(arcs, symbol, from) {
            Some(arc) => exists|k: int|
                {
                    &&& from <= k < arcs.len()
                    &&& #[trigger] arcs[k] == arc
                    &&& consumes(arc, symbol)
                    &&& forall|j: int| from <= j < k ==> !consumes(#[trigger] arcs[j], symbol)
                },
            None => forall|j: int| from <= j < arcs.len() ==> !consumes(#[trigger] arcs[j], symbol),
        },
    decreases arcs.len() - from,
{
    if from < arcs.len() && !consumes(arcs[from], symbol) {
        lemma_first_consuming(arcs, symbol, from + 1);
        match first_consuming(arcs, symbol, from + 1) {
            Some(arc) => {
                let k = choose|k: int|
                    {
                        &&& from + 1 <= k < arcs.len()
                        &&& #[trigger] arcs[k] == arc
                        &&& consumes(arc, symbol)
                        &&& forall|j: int|
                            from + 1 <= j < k ==> !consumes(#[trigger] arcs[j], symbol)
                    };
                assert(from <= k < arcs.len() && arcs[k] == arc);
            },
            None => {},
        }
    } else if from < arcs.len() {
        assert(arcs[from] == arcs[from]);
    }
}

impl Node {
    /// Whether the transition can be taken by consuming `symbol`.
    pub fn consumes(&self, symbol: char) -> (b: bool)
        ensures
            b == consumes(self@, symbol),
    {
        let label = self.character.as_str();
        if symbol != '/' && label.unicode_len() == 1 {
            let c = label.get_char(0);
            assert(label@ =~= seq![c]);
            c == symbol
        } else {
            false
        }
    }
}

/// The place of the first transition of the list that consumes `symbol`.
pub fn pick(nodes: &Vec<Node>, symbol: char) -> (r: Option<usize>)
    ensures
        match r {
            Some(k) => k < nodes@.len() && first_consuming(arcs_view(nodes@), symbol, 0) == Some(
                nodes@[k as int]@,
            ),
            None => first_consuming(arcs_view(nodes@), symbol, 0) is None,
        },
{
    let ghost arcs = arcs_view(nodes@);
    let mut k: usize = 0;
    while k < nodes.len()
        invariant
            k <= nodes@.len(),
            arcs == arcs_view(nodes@),
            first_consuming(arcs, symbol, 0) == first_consuming(arcs, symbol, k as int),
        decreases nodes@.len() - k,
    {
        if nodes[k].consumes(symbol) {
            return Some(k);
        }
        k += 1;
    }
    None
}

/// The symbols of a word.
pub fn symbols(word: &str) -> (r: Vec<char>)
    ensures
        r@ == word@,
{
    let mut r: Vec<char> = Vec::new();
    for c in it: word.chars()
        invariant
            it.seq() == word@,
            r@ == it.seq().take(it.index() as int),
    {
        r.push(c);
        assert(r@ =~= it.seq().take(it.index() + 1));
    }
    assert(word@.take(word@.len() as int) =~= word@);
    r
}

/// Walks the automaton on `word` from its initial state: for each symbol
/// the first transition of the current state that consumes it is taken.
/// The walk stops at the first symbol that no transition consumes, and
/// reports the part of the word consumed so far and that symbol; at the
/// end of the word it accepts if the state reached is accepting.
pub fn walk(infos: &ParsedFile, word: &str) -> (r: Walk)
    ensures
        arcs_view(r.path@) == walk_path(infos@, word@, infos@.initial, 0),
        r.outcome@ == verdict(infos@, word@),
        walks(infos@, word@, infos@.initial, arcs_view(r.path@)),
        r.outcome is Accepted ==> r.path@.len() == word@.len() && infos@.accepts_in(
            end_state(infos@.initial, arcs_view(r.path@)),
        ),
        r.outcome matches Outcome::Rejected { prefix, offending_symbol } ==> {
            &&& prefix@ == word@.take(r.path@.len() as int)
            &&& match offending_symbol {
                Some(symbol) => r.path@.len() < word@.len() && symbol == word@[r.path@.len() as int]
                    && stuck(infos@, end_state(infos@.initial, arcs_view(r.path@)), symbol),
                None => r.path@.len() == word@.len() && !infos@.accepts_in(
                    end_state(infos@.initial, arcs_view(r.path@)),
                ),
            }
        },
{
    let ghost m = infos@;
    let ghost w = word@;
    proof {
        lemma_walk_path(m, w, m.initial, 0);
        assert(w.skip(0) =~= w);
    }
    let letters = symbols(word);
    let mut path: Vec<Node> = Vec::new();
    let mut current: &String = infos.get_initial_state();
    let mut pos: usize = 0;
    assert(arcs_view(path@) =~= Seq::<Arc>::empty());
    while pos < letters.len()
        invariant
            m == infos@,
            w == word@,
            letters@ == w,
            pos <= w.len(),
            path@.len() == pos,
            current@ == end_state(m.initial, arcs_view(path@)),
            walk_path(m, w, m.initial, 0) == arcs_view(path@) + walk_path(m, w, current@, pos as int),
        decreases w.len() - pos,
    {
        let nodes = infos.states().get(current);
        match pick(nodes, letters[pos]) {
            None => {
                let prefix = word.substring_char(0, pos).to_owned();
                proof {
                    assert(arcs_view(nodes@) == m.arcs(current@));
                    assert(letters@[pos as int] == w[pos as int]);
                    assert(first_consuming(m.arcs(current@), w[pos as int], 0) is None);
                    assert(walk_path(m, w, current@, pos as int) =~= Seq::<Arc>::empty());
                    assert(arcs_view(path@) + Seq::<Arc>::empty() =~= arcs_view(path@));
                    assert(w.take(pos as int) =~= w.subrange(0, pos as int));
                    lemma_walk_path(m, w, m.initial, 0);
                    assert(w.skip(0) =~= w);
                }
                return Walk {
                    outcome: Outcome::Rejected { prefix, offending_symbol: Some(letters[pos]) },
                    path,
                };
            },
            Some(k) => {
                let ghost before = arcs_view(path@);
                let ghost arc = nodes@[k as int]@;
                path.push(nodes[k].clone());
                proof {
                    assert(arcs_view(path@) =~= before.push(arc));
                    assert(before + (seq![arc] + walk_path(m, w, arc.target, pos + 1))
                        =~= before.push(arc) + walk_path(m, w, arc.target, pos + 1));
                }
                current = &nodes[k].destination;
                pos += 1;
            },
        }
    }
    proof {
        assert(walk_path(m, w, current@, pos as int) =~= Seq::<Arc>::empty());
        assert(arcs_view(path@) + Seq::<Arc>::empty() =~= arcs_view(path@));
        assert(w.take(pos as int) =~= w);
    }
    if infos.is_finish_state(current) {
        Walk { outcome: Outcome::Accepted, path }
    } else {
        Walk { outcome: Outcome::Rejected { prefix: word.to_owned(), offending_symbol: None }, path }
    }
}

/// Whether the automaton accepts its word by the deterministic walk.
pub fn run(infos: &ParsedFile) -> (accepted: bool)
    ensures
        accepted == (verdict(infos@, infos.word()) is Accepted),
{
    let walked = walk(infos, infos.get_word().as_str());
    match walked.outcome {
        Outcome::Accepted => true,
        Outcome::Rejected { .. } => false,
    }
}

} // verus!
