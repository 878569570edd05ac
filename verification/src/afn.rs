//! The non-deterministic search: a depth-first exploration of the
//! transitions that can be taken, lambda transitions included, which gives
//! the first accepting path in the order of the relation.

use crate::afd::symbols;
use crate::file::ParsedFile;
use crate::model::{consumes, contains_name, is_lambda, names_view, Arc, Machine};
use crate::relation::{arcs_view, Node};
use vstd::prelude::*;
use vstd::string::StringExecFns;

verus! {

/// How many states with transitions are not in `seen`.
pub open spec fn unseen(m: Machine, seen: Set<Seq<char>>) -> nat {
    m.table.dom().difference(seen).len()
}

/// The path that the search finds from `state` with the symbols of `word`
/// from `pos` on still to consume; `seen` holds the states entered since
/// the last symbol was consumed.
///
/// At the end of the word the search succeeds, with the empty path, if and
/// only if `state` is accepting. Before the end it fails in a state that
/// it has entered since the last symbol was consumed, and in a state
/// without transitions; else it tries the transitions of `state` in their
/// order.
pub open spec fn first_path(
    m: Machine,
    word: Seq<char>,
    state: Seq<char>,
    pos: int,
    seen: Set<Seq<char>>,
) -> Option<Seq<Arc>>
    decreases word.len() - pos, 2 * unseen(m, seen), 0int,
    when m.table.dom().finite()
{
    if pos >= word.len() {
        if m.accepts_in(state) {
            Some(Seq::empty())
        } else {
            None
        }
    } else if seen.contains(state) || !m.table.dom().contains(state) {
        None
    } else {
        proof {
            m.table.dom().lemma_set_insert_diff_decreases(seen, state);
        }
        first_path_from(m, word, state, pos, seen.insert(state), 0)
    }
}

/// The path that the search finds through one of the transitions of
/// `state` from the `i`-th on, tried in their order: a lambda transition
/// is followed without consuming, a transition that consumes the symbol at
/// `pos` is followed to the next symbol, and any other is passed over. The
/// first transition from which the search succeeds heads the path.
pub open spec fn first_path_from(
    m: Machine,
    word: Seq<char>,
    state: Seq<char>,
    pos: int,
    seen: Set<Seq<char>>,
    i: int,
) -> Option<Seq<Arc>>
    decreases word.len() - pos, 2 * unseen(m, seen) + 1, m.arcs(state).len() - i,
    when m.table.dom().finite()
{
    if pos >= word.len() || i < 0 || i >= m.arcs(state).len() {
        None
    } else {
        let arc = m.arcs(state)[i];
        let onward = if is_lambda(arc.label) {
            first_path(m, word, arc.target, pos, seen)
        } else if consumes(arc, word[pos]) {
            first_path(m, word, arc.target, pos + 1, Set::empty())
        } else {
            None
        };
        match onward {
            Some(rest) => Some(seq![arc] + rest),
            None => first_path_from(m, word, state, pos, seen, i + 1),
        }
    }
}

/// The path that the search finds for `word` from the initial state.
pub open spec fn found_path(m: Machine, word: Seq<char>) -> Option<Seq<Arc>> {
    first_path(m, word, m.initial, 0, Set::empty())
}

/// Following `path` from `state` consumes the symbols of `word` from `pos`
/// on, all of them and in order, and ends in an accepting state: each of
/// its transitions leaves the state reached so far; a lambda transition
/// consumes nothing, any other consumes the next symbol.
pub open spec fn replays(
    m: Machine,
    word: Seq<char>,
    state: Seq<char>,
    pos: int,
    path: Seq<Arc>,
) -> bool
    decreases path.len(),
{
    if path.len() == 0 {
        pos == word.len() && m.accepts_in(state)
    } else {
        let arc = path[0];
        &&& m.arcs(state).contains(arc)
        &&& if is_lambda(arc.label) {
            replays(m, word, arc.target, pos, path.drop_first())
        } else {
            &&& 0 <= pos < word.len()
            &&& consumes(arc, word[pos])
            &&& replays(m, word, arc.target, pos + 1, path.drop_first())
        }
    }
}

/// `path` is an accepting path for `word`: followed from the initial
/// state it consumes the word exactly and ends in an accepting state.
pub open spec fn accepting_path(m: Machine, word: Seq<char>, path: Seq<Arc>) -> bool {
    replays(m, word, m.initial, 0, path)
}

/// The path is empty, or its last transition consumes a symbol.
pub open spec fn ends_on_symbol(path: Seq<Arc>) -> bool {
    path.len() > 0 ==> !is_lambda(path.last().label)
}

/// What the search finds is an accepting path: followed from `state` it
/// consumes the rest of the word exactly and ends in an accepting state.
/// It takes no lambda transition once the word is consumed.
pub proof fn lemma_first_path_replays(
    m: Machine,
    word: Seq<char>,
    state: Seq<char>,
    pos: int,
    seen: Set<Seq<char>>,
)
    requires
        m.table.dom().finite(),
        0 <= pos <= word.len(),
        first_path(m, word, state, pos, seen) is Some,
    ensures
        replays(m, word, state, pos, first_path(m, word, state, pos, seen)->0),
        ends_on_symbol(first_path(m, word, state, pos, seen)->0),
        pos < word.len() ==> first_path(m, word, state, pos, seen)->0.len() > 0,
    decreases word.len() - pos, 2 * unseen(m, seen), 0int,
{
    if pos < word.len() {
        m.table.dom().lemma_set_insert_diff_decreases(seen, state);
        lemma_first_path_from_replays(m, word, state, pos, seen.insert(state), 0);
    }
}

/// What the search finds through the transitions of `state` from the
/// `i`-th on is an accepting path.
pub proof fn lemma_first_path_from_replays(
    m: Machine,
    word: Seq<char>,
    state: Seq<char>,
    pos: int,
    seen: Set<Seq<char>>,
    i: int,
)
    requires
        m.table.dom().finite(),
        0 <= pos <= word.len(),
        first_path_from(m, word, state, pos, seen, i) is Some,
    ensures
        replays(m, word, state, pos, first_path_from(m, word, state, pos, seen, i)->0),
        ends_on_symbol(first_path_from(m, word, state, pos, seen, i)->0),
        first_path_from(m, word, state, pos, seen, i)->0.len() > 0,
    decreases word.len() - pos, 2 * unseen(m, seen) + 1, m.arcs(state).len() - i,
{
    let arc = m.arcs(state)[i];
    let onward = if is_lambda(arc.label) {
        first_path(m, word, arc.target, pos, seen)
    } else if consumes(arc, word[pos]) {
        first_path(m, word, arc.target, pos + 1, Set::empty())
    } else {
        None
    };
    match onward {
        Some(rest) => {
            if is_lambda(arc.label) {
                lemma_first_path_replays(m, word, arc.target, pos, seen);
            } else {
                lemma_first_path_replays(m, word, arc.target, pos + 1, Set::empty());
            }
            let path = seq![arc] + rest;
            assert(path[0] == arc);
            assert(path.drop_first() =~= rest);
            if rest.len() > 0 {
                assert(path.last() == rest.last());
            }
        },
        None => {
            lemma_first_path_from_replays(m, word, state, pos, seen, i + 1);
        },
    }
}

/// Following `path` from `state` is what the search itself may do: it is
/// an accepting path on which no state is entered twice without a symbol
/// consumed in between, none of the states in `seen` is entered before
/// the first symbol is consumed, and no lambda transition is taken once
/// the word is consumed.
pub open spec fn direct(
    m: Machine,
    word: Seq<char>,
    state: Seq<char>,
    pos: int,
    seen: Set<Seq<char>>,
    path: Seq<Arc>,
) -> bool
    decreases path.len(),
{
    if path.len() == 0 {
        pos == word.len() && m.accepts_in(state)
    } else {
        let arc = path[0];
        &&& 0 <= pos < word.len()
        &&& !seen.contains(state)
        &&& m.arcs(state).contains(arc)
        &&& if is_lambda(arc.label) {
            direct(m, word, arc.target, pos, seen.insert(state), path.drop_first())
        } else {
            &&& consumes(arc, word[pos])
            &&& direct(m, word, arc.target, pos + 1, Set::empty(), path.drop_first())
        }
    }
}

/// Where one transition of `state` leads the search to a path, the search
/// through the transitions of `state` finds one, from that transition or
/// from an earlier one.
proof fn lemma_found_from(
    m: Machine,
    word: Seq<char>,
    state: Seq<char>,
    pos: int,
    seen: Set<Seq<char>>,
    i: int,
    k: int,
)
    requires
        m.table.dom().finite(),
        0 <= pos < word.len(),
        0 <= i <= k < m.arcs(state).len(),
        if is_lambda(m.arcs(state)[k].label) {
            first_path(m, word, m.arcs(state)[k].target, pos, seen) is Some
        } else {
            consumes(m.arcs(state)[k], word[pos]) && first_path(
                m,
                word,
                m.arcs(state)[k].target,
                pos + 1,
                Set::empty(),
            ) is Some
        },
    ensures
        first_path_from(m, word, state, pos, seen, i) is Some,
    decreases k - i,
{
    if i < k {
        lemma_found_from(m, word, state, pos, seen, i + 1, k);
    }
}

/// Where a path exists that the search may follow, the search finds one.
pub proof fn lemma_direct_found(
    m: Machine,
    word: Seq<char>,
    state: Seq<char>,
    pos: int,
    seen: Set<Seq<char>>,
    path: Seq<Arc>,
)
    requires
        m.table.dom().finite(),
        0 <= pos <= word.len(),
        direct(m, word, state, pos, seen, path),
    ensures
        first_path(m, word, state, pos, seen) is Some,
    decreases path.len(),
{
    if path.len() > 0 {
        let arc = path[0];
        let k = choose|k: int| 0 <= k < m.arcs(state).len() && m.arcs(state)[k] == arc;
        if is_lambda(arc.label) {
            lemma_direct_found(m, word, arc.target, pos, seen.insert(state), path.drop_first());
        } else {
            lemma_direct_found(m, word, arc.target, pos + 1, Set::empty(), path.drop_first());
        }
        lemma_found_from(m, word, state, pos, seen.insert(state), 0, k);
    }
}

/// The first place from `from` on at which `arc` stands in the list, or
/// the length of the list.
pub open spec fn place(arcs: Seq<Arc>, arc: Arc, from: int) -> int
    decreases arcs.len() - from,
{
    if from < 0 || from >= arcs.len() {
        arcs.len() as int
    } else if arcs[from] == arc {
        from
    } else {
        place(arcs, arc, from + 1)
    }
}

/// The path `a` is the path `b`, or it leaves `b` to the left: where the
/// two part, the transition that `a` takes stands earlier in the list of
/// the state reached than the one that `b` takes.
pub open spec fn left_of(m: Machine, state: Seq<char>, a: Seq<Arc>, b: Seq<Arc>) -> bool
    decreases a.len(),
{
    if a.len() == 0 || b.len() == 0 {
        a.len() == b.len()
    } else {
        ||| place(m.arcs(state), a[0], 0) < place(m.arcs(state), b[0], 0)
        ||| a[0] == b[0] && left_of(m, a[0].target, a.drop_first(), b.drop_first())
    }
}

/// The place of a transition is the first at which it stands.
proof fn lemma_place(arcs: Seq<Arc>, arc: Arc, from: int, at: int)
    requires
        0 <= from <= at < arcs.len(),
        arcs[at] == arc,
    ensures
        from <= place(arcs, arc, from) <= at,
        arcs[place(arcs, arc, from)] == arc,
    decreases arcs.len() - from,
{
    if arcs[from] != arc {
        lemma_place(arcs, arc, from + 1, at);
    }
}

/// Where the transition at place `j` leads the search to a path, the
/// search through the transitions from the `i`-th on finds a path that
/// starts to the left of `j`, or starts at `j` and goes on as the search
/// from there does.
proof fn lemma_found_left(
    m: Machine,
    word: Seq<char>,
    state: Seq<char>,
    pos: int,
    seen: Set<Seq<char>>,
    i: int,
    j: int,
    onward: Seq<Arc>,
)
    requires
        m.table.dom().finite(),
        0 <= pos < word.len(),
        0 <= i <= j < m.arcs(state).len(),
        if is_lambda(m.arcs(state)[j].label) {
            first_path(m, word, m.arcs(state)[j].target, pos, seen) == Some(onward)
        } else {
            consumes(m.arcs(state)[j], word[pos]) && first_path(
                m,
                word,
                m.arcs(state)[j].target,
                pos + 1,
                Set::empty(),
            ) == Some(onward)
        },
    ensures
        first_path_from(m, word, state, pos, seen, i) is Some,
        ({
            let found = first_path_from(m, word, state, pos, seen, i)->0;
            &&& found.len() > 0
            &&& place(m.arcs(state), found[0], 0) < j || (found[0] == m.arcs(state)[j]
                && found.drop_first() == onward)
        }),
    decreases j - i,
{
    let arcs = m.arcs(state);
    let arc = arcs[i];
    let here = if is_lambda(arc.label) {
        first_path(m, word, arc.target, pos, seen)
    } else if consumes(arc, word[pos]) {
        first_path(m, word, arc.target, pos + 1, Set::empty())
    } else {
        None
    };
    match here {
        Some(rest) => {
            let found = seq![arc] + rest;
            assert(found[0] == arc);
            assert(found.drop_first() =~= rest);
            lemma_place(arcs, arc, 0, i);
        },
        None => {
            lemma_found_left(m, word, state, pos, seen, i + 1, j, onward);
        },
    }
}

/// The path that the search finds is the leftmost of those that it may
/// follow: it is to the left of every other.
pub proof fn lemma_first_path_leftmost(
    m: Machine,
    word: Seq<char>,
    state: Seq<char>,
    pos: int,
    seen: Set<Seq<char>>,
    path: Seq<Arc>,
)
    requires
        m.table.dom().finite(),
        0 <= pos <= word.len(),
        direct(m, word, state, pos, seen, path),
    ensures
        first_path(m, word, state, pos, seen) is Some,
        left_of(m, state, first_path(m, word, state, pos, seen)->0, path),
    decreases path.len(),
{
    if path.len() > 0 {
        let arcs = m.arcs(state);
        let arc = path[0];
        let rest = path.drop_first();
        let at = choose|at: int| 0 <= at < arcs.len() && arcs[at] == arc;
        lemma_place(arcs, arc, 0, at);
        let j = place(arcs, arc, 0);
        let beyond = seen.insert(state);
        if is_lambda(arc.label) {
            lemma_first_path_leftmost(m, word, arc.target, pos, beyond, rest);
            let onward = first_path(m, word, arc.target, pos, beyond)->0;
            lemma_found_left(m, word, state, pos, beyond, 0, j, onward);
        } else {
            lemma_first_path_leftmost(m, word, arc.target, pos + 1, Set::empty(), rest);
            let onward = first_path(m, word, arc.target, pos + 1, Set::empty())->0;
            lemma_found_left(m, word, state, pos, beyond, 0, j, onward);
        }
    }
}

/// An accepting path that ends on a consumed symbol starts before the end
/// of the word, and what is left of it after its first transition ends on
/// a consumed symbol too.
proof fn lemma_replays_before_end(
    m: Machine,
    word: Seq<char>,
    state: Seq<char>,
    pos: int,
    path: Seq<Arc>,
)
    requires
        replays(m, word, state, pos, path),
        ends_on_symbol(path),
        path.len() > 0,
    ensures
        0 <= pos < word.len(),
        ends_on_symbol(path.drop_first()),
    decreases path.len(),
{
    let arc = path[0];
    let rest = path.drop_first();
    if rest.len() > 0 {
        assert(rest.last() == path.last());
        if is_lambda(arc.label) {
            lemma_replays_before_end(m, word, arc.target, pos, rest);
        }
    }
}

/// An accepting path from `state` that ends on a consumed symbol can be
/// shortened to one that the search may follow, unless it passes, before
/// it consumes a symbol, through a state in `seen`. The result is such a
/// path, or a state in `seen` with an accepting path from it that is no
/// longer than the one given.
proof fn lemma_shorten(
    m: Machine,
    word: Seq<char>,
    state: Seq<char>,
    pos: int,
    seen: Set<Seq<char>>,
    path: Seq<Arc>,
) -> (r: (Seq<char>, Seq<Arc>))
    requires
        replays(m, word, state, pos, path),
        ends_on_symbol(path),
    ensures
        direct(m, word, state, pos, seen, r.1) || (seen.contains(r.0) && r.1.len() <= path.len()
            && r.1.len() > 0 && replays(m, word, r.0, pos, r.1) && ends_on_symbol(r.1)),
    decreases path.len(),
{
    if path.len() == 0 {
        return (state, path);
    }
    lemma_replays_before_end(m, word, state, pos, path);
    if seen.contains(state) {
        return (state, path);
    }
    let arc = path[0];
    let rest = path.drop_first();
    if is_lambda(arc.label) {
        let (through, short) = lemma_shorten(m, word, arc.target, pos, seen.insert(state), rest);
        if direct(m, word, arc.target, pos, seen.insert(state), short) {
            let whole = seq![arc] + short;
            assert(whole[0] == arc);
            assert(whole.drop_first() =~= short);
            (state, whole)
        } else if through == state {
            lemma_shorten(m, word, state, pos, seen, short)
        } else {
            (through, short)
        }
    } else {
        let (through, short) = lemma_shorten(m, word, arc.target, pos + 1, Set::empty(), rest);
        let whole = seq![arc] + short;
        assert(whole[0] == arc);
        assert(whole.drop_first() =~= short);
        (state, whole)
    }
}

/// The search is complete: where the word has an accepting path that ends
/// on a consumed symbol, or the empty one, the search finds a path.
pub proof fn lemma_search_complete(m: Machine, word: Seq<char>, path: Seq<Arc>)
    requires
        m.table.dom().finite(),
        accepting_path(m, word, path),
        ends_on_symbol(path),
    ensures
        found_path(m, word) is Some,
{
    let (through, short) = lemma_shorten(m, word, m.initial, 0, Set::empty(), path);
    lemma_direct_found(m, word, m.initial, 0, Set::empty(), short);
}

/// The search is sound: what it finds is an accepting path that ends on a
/// consumed symbol, or the empty one.
pub proof fn lemma_search_sound(m: Machine, word: Seq<char>)
    requires
        m.table.dom().finite(),
        found_path(m, word) is Some,
    ensures
        accepting_path(m, word, found_path(m, word)->0),
        ends_on_symbol(found_path(m, word)->0),
{
    lemma_first_path_replays(m, word, m.initial, 0, Set::empty());
}

/// The set of the names in a list.
pub open spec fn names_set(names: Seq<String>) -> Set<Seq<char>> {
    names_view(names).to_set()
}

/// One more name at the end of the list is one more name in the set.
proof fn lemma_names_pushed(names: Seq<String>, name: String)
    ensures
        names_set(names.push(name)) == names_set(names).insert(name@),
        names_view(names.push(name)) == names_view(names).push(name@),
        names_view(names.push(name)).drop_last() == names_view(names),
{
    let a = names_view(names.push(name));
    let b = names_view(names).push(name@);
    assert(a =~= b);
    assert(a.drop_last() =~= names_view(names));
    assert forall|x: Seq<char>| a.to_set().contains(x) <==> names_view(names).to_set().insert(
        name@,
    ).contains(x) by {
        if a.contains(x) {
            let i = choose|i: int| 0 <= i < a.len() && a[i] == x;
            if i < names.len() {
                assert(names_view(names)[i] == x);
            }
        }
        if names_view(names).contains(x) {
            let i = choose|i: int| 0 <= i < names.len() && names_view(names)[i] == x;
            assert(a[i] == x);
        }
        if x == name@ {
            assert(a[names.len() as int] == x);
        }
    }
    assert(a.to_set() =~= names_view(names).to_set().insert(name@));
}

/// Searches a path from `current_state` that consumes the symbols of
/// `word` from `curr_pos` on and ends in an accepting state. `seen` holds
/// the states entered since the last symbol was consumed, and `path` the
/// transitions taken so far. On success the transitions found are added
/// to `path`; on failure `path` is as before. `seen` is as before in both
/// cases.
pub fn afn_walking(
    word: &Vec<char>,
    curr_pos: usize,
    current_state: &String,
    infos: &ParsedFile,
    seen: &mut Vec<String>,
    path: &mut Vec<Node>,
) -> (found: bool)
    ensures
        found == first_path(
            infos@,
            word@,
            current_state@,
            curr_pos as int,
            names_set(old(seen)@),
        ) is Some,
        found ==> arcs_view(final(path)@) == arcs_view(old(path)@) + first_path(
            infos@,
            word@,
            current_state@,
            curr_pos as int,
            names_set(old(seen)@),
        )->0,
        !found ==> arcs_view(final(path)@) == arcs_view(old(path)@),
        names_view(final(seen)@) == names_view(old(seen)@),
    decreases word@.len() - curr_pos, 2 * unseen(infos@, names_set(old(seen)@)), 0int,
{
    let ghost m = infos@;
    let ghost w = word@;
    let ghost q = current_state@;
    let ghost pos = curr_pos as int;
    let ghost seen0 = names_set(seen@);
    let ghost names0 = names_view(seen@);
    let ghost path0 = arcs_view(path@);
    infos.well_formed();
    let n = word.len();
    if curr_pos >= n {
        let accepted = infos.is_finish_state(current_state);
        proof {
            assert(path0 + Seq::<Arc>::empty() =~= path0);
        }
        return accepted;
    }
    if contains_name(seen, current_state) || !infos.states().contains_key(current_state) {
        return false;
    }
    let nodes = infos.states().get(current_state);
    proof {
        lemma_names_pushed(seen@, *current_state);
        m.table.dom().lemma_set_insert_diff_decreases(seen0, q);
    }
    seen.push(current_state.clone());
    let ghost seen1 = seen0.insert(q);
    let mut found = false;
    let mut i: usize = 0;
    while i < nodes.len() && !found
        invariant
            m == infos@,
            w == word@,
            q == current_state@,
            pos == curr_pos as int,
            curr_pos < n == word@.len(),
            m.table.dom().finite(),
            seen0 == names_set(old(seen)@),
            i <= nodes@.len(),
            arcs_view(nodes@) == m.arcs(q),
            names_set(seen@) == seen1,
            names_view(seen@) == names0.push(q),
            unseen(m, seen1) < unseen(m, seen0),
            !found ==> arcs_view(path@) == path0 && first_path_from(m, w, q, pos, seen1, 0)
                == first_path_from(m, w, q, pos, seen1, i as int),
            found ==> first_path_from(m, w, q, pos, seen1, 0) is Some && arcs_view(path@) == path0
                + first_path_from(m, w, q, pos, seen1, 0)->0,
        decreases nodes@.len() - i + (if found { 0int } else { 1int }),
    {
        let node = &nodes[i];
        let ghost arc = node@;
        assert(arc == m.arcs(q)[i as int]);
        if node.is_lambda() {
            path.push(node.clone());
            assert(arcs_view(path@) =~= path0.push(arc));
            found = afn_walking(word, curr_pos, &node.destination, infos, seen, path);
            if !found {
                let ghost held = arcs_view(path@);
                path.pop();
                assert(arcs_view(path@) =~= held.drop_last());
                assert(arcs_view(path@) =~= path0);
            } else {
                proof {
                    let rest = first_path(m, w, arc.target, pos, seen1)->0;
                    assert(path0.push(arc) + rest =~= path0 + (seq![arc] + rest));
                }
            }
        } else if node.consumes(word[curr_pos]) {
            path.push(node.clone());
            assert(arcs_view(path@) =~= path0.push(arc));
            let mut fresh: Vec<String> = Vec::new();
            assert(names_set(fresh@) =~= Set::<Seq<char>>::empty());
            found = afn_walking(word, curr_pos + 1, &node.destination, infos, &mut fresh, path);
            if !found {
                let ghost held = arcs_view(path@);
                path.pop();
                assert(arcs_view(path@) =~= held.drop_last());
                assert(arcs_view(path@) =~= path0);
            } else {
                proof {
                    let rest = first_path(m, w, arc.target, pos + 1, Set::empty())->0;
                    assert(path0.push(arc) + rest =~= path0 + (seq![arc] + rest));
                }
            }
        }
        if !found {
            i += 1;
        }
    }
    seen.pop();
    proof {
        assert(names_view(seen@) =~= names0);
    }
    found
}

/// A run of `n` tabulators, to indent what is said of the `n`-th symbol.
pub fn pad(n: usize) -> (r: String)
    ensures
        r@ == Seq::new(n as nat, |i: int| '\t'),
{
    let mut r = String::new();
    let mut i: usize = 0;
    proof {
        reveal_strlit("\t");
    }
    while i < n
        invariant
            i <= n,
            r@ == Seq::new(i as nat, |j: int| '\t'),
            "\t"@ == seq!['\t'],
        decreases n - i,
    {
        r.append("\t");
        i += 1;
        assert(r@ =~= Seq::new(i as nat, |j: int| '\t'));
    }
    r
}

/// Searches an accepting path for `word`: the first one in the order in
/// which the relation holds the transitions, consuming transitions before
/// lambda transitions at each state.
pub fn search(infos: &ParsedFile, word: &str) -> (r: Option<Vec<Node>>)
    ensures
        match r {
            Some(path) => {
                &&& found_path(infos@, word@) == Some(arcs_view(path@))
                &&& accepting_path(infos@, word@, arcs_view(path@))
                &&& ends_on_symbol(arcs_view(path@))
                &&& forall|other: Seq<Arc>| #[trigger]
                    direct(infos@, word@, infos@.initial, 0, Set::empty(), other) ==> left_of(
                        infos@,
                        infos@.initial,
                        arcs_view(path@),
                        other,
                    )
            },
            None => {
                &&& found_path(infos@, word@) is None
                &&& forall|path: Seq<Arc>| #[trigger]
                    accepting_path(infos@, word@, path) ==> !ends_on_symbol(path)
            },
        },
{
    infos.well_formed();
    proof {
        if found_path(infos@, word@) is Some {
            lemma_search_sound(infos@, word@);
            assert forall|other: Seq<Arc>| #[trigger]
                direct(infos@, word@, infos@.initial, 0, Set::empty(), other) implies left_of(
                infos@,
                infos@.initial,
                found_path(infos@, word@)->0,
                other,
            ) by {
                lemma_first_path_leftmost(infos@, word@, infos@.initial, 0, Set::empty(), other);
            }
        } else {
            assert forall|path: Seq<Arc>| #[trigger]
                accepting_path(infos@, word@, path) implies !ends_on_symbol(path) by {
                if ends_on_symbol(path) {
                    lemma_search_complete(infos@, word@, path);
                }
            }
        }
    }
    let letters = symbols(word);
    let mut seen: Vec<String> = Vec::new();
    let mut path: Vec<Node> = Vec::new();
    assert(names_set(seen@) =~= Set::<Seq<char>>::empty());
    assert(arcs_view(path@) =~= Seq::<Arc>::empty());
    let found = afn_walking(&letters, 0, infos.get_initial_state(), infos, &mut seen, &mut path);
    if found {
        proof {
            let p = found_path(infos@, word@)->0;
            assert(Seq::<Arc>::empty() + p =~= p);
        }
        Some(path)
    } else {
        None
    }
}

/// Whether the search finds an accepting path for the word of the
/// automaton.
pub fn run(infos: &ParsedFile) -> (accepted: bool)
    ensures
        accepted == found_path(infos@, infos.word()) is Some,
        accepted ==> accepting_path(infos@, infos.word(), found_path(infos@, infos.word())->0),
        !accepted ==> forall|path: Seq<Arc>| #[trigger]
            accepting_path(infos@, infos.word(), path) ==> !ends_on_symbol(path),
{
    search(infos, infos.get_word().as_str()).is_some()
}

} // verus!
