//! Reading the description of a run from text.
//!
//! The first line names the initial state and, behind a `;`, the accepting
//! states. Each line after it, but for the last, holds one transition:
//! the state it leaves, its label, and at the end of the line the state
//! it leads to. The last line holds the word to test, behind a `:` if it
//! has one.
//!
//! ```text
//! s0 ; s2
//! s0 a > s0
//! s0 b > s1
//! s1 b > s2
//! wrd : aabb
//! ```

use crate::file::{defect, DescriptorError, ParsedFile};
use crate::model::{built, names_view, Arc, Machine, Record};
use crate::relation::Relation;
use crate::text::{fields, split, split_whitespace, tokens, trim, trimmed};
use vstd::prelude::*;

verus! {

/// Why a text is refused.
#[derive(Debug, Clone, Copy, PartialEq, Eq, Structural)]
pub enum ParseError {
    /// The first line has no `;`.
    NoSeparator,
    /// The line with this number, counted from 0, should hold a transition
    /// and has fewer than two words.
    BadTransition { line: usize },
    /// The first line names no initial state.
    NoInitialState,
    /// The text was read, and the automaton it describes is refused.
    Descriptor(DescriptorError),
}

/// What a text describes, before it is checked.
pub struct Draft {
    pub initial: Seq<char>,
    pub finals: Seq<Seq<char>>,
    pub records: Seq<Record>,
    pub word: Seq<char>,
}

/// The transition that a line holds: its first word is the state it
/// leaves, its second the label, its last the state it leads to.
pub open spec fn record_of(line: Seq<char>) -> Option<Record> {
    let words = tokens(line);
    if words.len() < 2 {
        None
    } else {
        Some(Record { state: words[0], arc: Arc { label: words[1], target: words.last() } })
    }
}

/// The transitions that the lines from the second up to, but without,
/// line `to` hold, or the number of the first of these lines that holds
/// none.
pub open spec fn records_of(lines: Seq<Seq<char>>, to: int) -> Result<Seq<Record>, int>
    decreases to,
{
    if to <= 1 {
        Ok(Seq::empty())
    } else {
        match records_of(lines, to - 1) {
            Err(line) => Err(line),
            Ok(records) => match record_of(lines[to - 1]) {
                None => Err(to - 1),
                Some(record) => Ok(records.push(record)),
            },
        }
    }
}

/// The word that a line holds: what stands behind its last `:`, or all of
/// it, without the white space around it.
pub open spec fn word_of(line: Seq<char>) -> Seq<char> {
    trimmed(fields(trimmed(line), ':').last())
}

/// What `text` describes, or why it describes nothing.
pub open spec fn layout(text: Seq<char>) -> Result<Draft, ParseError> {
    let lines = fields(text, '\n');
    let header = fields(lines[0], ';');
    if header.len() < 2 {
        Err(ParseError::NoSeparator)
    } else {
        match records_of(lines, lines.len() - 1) {
            Err(line) => Err(ParseError::BadTransition { line: line as usize }),
            Ok(records) => if tokens(header[0]).len() == 0 {
                Err(ParseError::NoInitialState)
            } else {
                Ok(
                    Draft {
                        initial: tokens(header[0])[0],
                        finals: tokens(header[1]),
                        records,
                        word: word_of(lines.last()),
                    },
                )
            },
        }
    }
}

/// The automaton that a draft describes.
pub open spec fn machine_of(draft: Draft) -> Machine {
    Machine { initial: draft.initial, finals: draft.finals, table: built(draft.records) }
}

/// Once a line holds no transition, it stays the first such line however
/// many lines follow.
proof fn lemma_first_bad_line(lines: Seq<Seq<char>>, bad: int, to: int)
    requires
        1 <= bad < to,
        records_of(lines, bad + 1) == Err::<Seq<Record>, int>(bad),
    ensures
        records_of(lines, to) == Err::<Seq<Record>, int>(bad),
    decreases to,
{
    if to > bad + 1 {
        lemma_first_bad_line(lines, bad, to - 1);
    }
}

/// Reads the description of a run from `text`. The text is refused if its
/// first line has no `;`, if a line between the first and the last has
/// fewer than two words, or if no state stands before the `;`; and the
/// automaton it describes may be refused in turn. Of several reasons the
/// first in this order is given.
pub fn parse(text: &str) -> (r: Result<ParsedFile, ParseError>)
    ensures
        match layout(text@) {
            Err(e) => r matches Err(given) && given == e,
            Ok(draft) => match defect(machine_of(draft)) {
                Some(e) => r matches Err(given) && given == ParseError::Descriptor(e),
                None => r matches Ok(infos) && infos@ == machine_of(draft) && infos.word()
                    == draft.word,
            },
        },
{
    let lines = split(text, '\n');
    let ghost shown = names_view(lines@);
    let header = split(lines[0].as_str(), ';');
    assert(shown[0] == lines@[0]@);
    if header.len() < 2 {
        return Err(ParseError::NoSeparator);
    }
    let last = lines.len() - 1;
    let mut states = Relation::new();
    let ghost mut records: Seq<Record> = Seq::empty();
    let mut i: usize = 1;
    while i < last
        invariant
            shown == names_view(lines@),
            shown == fields(text@, '\n'),
            fields(shown[0], ';').len() >= 2,
            last == lines@.len() - 1,
            1 <= i,
            i <= last || (last == 0 && i == 1),
            records_of(shown, i as int) == Ok::<Seq<Record>, int>(records),
            states@ == built(records),
        decreases last - i,
    {
        let words = split_whitespace(lines[i].as_str());
        assert(shown[i as int] == lines@[i as int]@);
        if words.len() < 2 {
            proof {
                lemma_first_bad_line(shown, i as int, last as int);
            }
            return Err(ParseError::BadTransition { line: i });
        }
        let ghost shown_words = names_view(words@);
        let state = words[0].clone();
        let label = words[1].clone();
        let target = words[words.len() - 1].clone();
        proof {
            let record = Record { state: state@, arc: Arc { label: label@, target: target@ } };
            assert(state@ == shown_words[0]);
            assert(label@ == shown_words[1]);
            assert(target@ == shown_words.last());
            assert(record_of(shown[i as int]) == Some(record));
            assert(records.push(record).drop_last() =~= records);
            records = records.push(record);
        }
        states.insert(state, label, target);
        i += 1;
    }
    proof {
        assert(records_of(shown, 1) == Ok::<Seq<Record>, int>(Seq::empty()));
        assert(records_of(shown, 0) == Ok::<Seq<Record>, int>(Seq::empty()));
        assert(records_of(shown, last as int) == Ok::<Seq<Record>, int>(records));
    }
    let initial = split_whitespace(header[0].as_str());
    assert(names_view(header@)[0] == header@[0]@);
    assert(names_view(header@)[1] == header@[1]@);
    if initial.len() == 0 {
        return Err(ParseError::NoInitialState);
    }
    assert(names_view(initial@)[0] == initial@[0]@);
    let finals = split_whitespace(header[1].as_str());
    let line = trim(lines[last].as_str());
    assert(shown.last() == lines@[last as int]@);
    let parts = split(line.as_str(), ':');
    assert(names_view(parts@).last() == parts@[parts@.len() - 1]@);
    let word = trim(parts[parts.len() - 1].as_str());
    match ParsedFile::new(initial[0].clone(), finals, states, word) {
        Ok(infos) => Ok(infos),
        Err(e) => Err(ParseError::Descriptor(e)),
    }
}

} // verus!
