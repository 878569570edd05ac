//! What holds of the classifier, the walk and the search taken together.

use crate::afd::{end_state, first_consuming, lemma_walk_path, verdict, walk_path};
use crate::afn::{first_path, first_path_from, found_path};
use crate::model::{
    arcs_of, built, consumes, consuming_first, consuming_prefix, deterministic, distinct_labels,
    is_lambda, lambda_free, placed, recorded, well_formed, Arc, Machine, Record, Table,
};
use crate::relation::{lemma_consuming_prefix_bounds, lemma_placed};
use vstd::multiset::Multiset;
use vstd::prelude::*;

verus! {

/// The walk from `state` consumes the rest of the word and ends in an
/// accepting state.
pub open spec fn walk_accepts(m: Machine, word: Seq<char>, state: Seq<char>, pos: int) -> bool {
    let path = walk_path(m, word, state, pos);
    path.len() == word.len() - pos && m.accepts_in(end_state(state, path))
}

/// Where no transition from the `i`-th on is a lambda transition or
/// consumes the next symbol, the search through them finds nothing.
proof fn lemma_nothing_from(
    m: Machine,
    word: Seq<char>,
    state: Seq<char>,
    pos: int,
    seen: Set<Seq<char>>,
    i: int,
)
    requires
        m.table.dom().finite(),
        0 <= pos < word.len(),
        0 <= i,
        forall|j: int|
            i <= j < m.arcs(state).len() ==> !is_lambda((#[trigger] m.arcs(state)[j]).label)
                && !consumes(m.arcs(state)[j], word[pos]),
    ensures
        first_path_from(m, word, state, pos, seen, i) is None,
    decreases m.arcs(state).len() - i,
{
    if i < m.arcs(state).len() {
        assert(!is_lambda(m.arcs(state)[i].label));
        lemma_nothing_from(m, word, state, pos, seen, i + 1);
    }
}

/// In a deterministic automaton the search from a state finds the path
/// of the walk from that state if the walk accepts, and nothing if not.
proof fn lemma_search_is_walk(m: Machine, word: Seq<char>, state: Seq<char>, pos: int)
    requires
        m.table.dom().finite(),
        deterministic(m.table),
        0 <= pos <= word.len(),
    ensures
        first_path(m, word, state, pos, Set::empty()) == if walk_accepts(m, word, state, pos) {
            Some(walk_path(m, word, state, pos))
        } else {
            None
        },
    decreases word.len() - pos, 1int, 0int,
{
    if pos < word.len() {
        if m.table.dom().contains(state) {
            assert(lambda_free(m.arcs(state)) && distinct_labels(m.arcs(state)));
            lemma_search_is_walk_from(m, word, state, pos, Set::empty().insert(state), 0);
            match first_consuming(m.arcs(state), word[pos], 0) {
                Some(arc) => {
                    let tail = walk_path(m, word, arc.target, pos + 1);
                    let path = seq![arc] + tail;
                    if tail.len() > 0 {
                        assert(path.last() == tail.last());
                    }
                    assert(end_state(state, path) == end_state(arc.target, tail));
                },
                None => {},
            }
        } else {
            assert(m.arcs(state).len() == 0);
        }
    }
}

/// In a deterministic automaton the search through the transitions of a
/// state from the `i`-th on follows the first of them that consumes the
/// next symbol, as the walk does.
proof fn lemma_search_is_walk_from(
    m: Machine,
    word: Seq<char>,
    state: Seq<char>,
    pos: int,
    seen: Set<Seq<char>>,
    i: int,
)
    requires
        m.table.dom().finite(),
        deterministic(m.table),
        0 <= pos < word.len(),
        0 <= i,
        lambda_free(m.arcs(state)),
        distinct_labels(m.arcs(state)),
    ensures
        first_path_from(m, word, state, pos, seen, i) == match first_consuming(
            m.arcs(state),
            word[pos],
            i,
        ) {
            Some(arc) => if walk_accepts(m, word, arc.target, pos + 1) {
                Some(seq![arc] + walk_path(m, word, arc.target, pos + 1))
            } else {
                None
            },
            None => None,
        },
    decreases word.len() - pos, 0int, m.arcs(state).len() - i,
{
    let arcs = m.arcs(state);
    if i < arcs.len() {
        let arc = arcs[i];
        assert(!is_lambda(arc.label));
        if consumes(arc, word[pos]) {
            lemma_search_is_walk(m, word, arc.target, pos + 1);
            if !walk_accepts(m, word, arc.target, pos + 1) {
                assert forall|j: int| i + 1 <= j < arcs.len() implies !is_lambda(
                    (#[trigger] arcs[j]).label,
                ) && !consumes(arcs[j], word[pos]) by {
                    assert(arcs[i].label != arcs[j].label);
                }
                lemma_nothing_from(m, word, state, pos, seen, i + 1);
            }
        } else {
            lemma_search_is_walk_from(m, word, state, pos, seen, i + 1);
        }
    }
}

/// On a deterministic automaton the search and the walk agree: the search
/// finds a path if and only if the walk accepts, and the path it finds is
/// the one that the walk takes.
pub proof fn lemma_search_agrees_with_walk(m: Machine, word: Seq<char>)
    requires
        m.table.dom().finite(),
        deterministic(m.table),
    ensures
        found_path(m, word) is Some <==> verdict(m, word) is Accepted,
        found_path(m, word) is Some ==> found_path(m, word) == Some(
            walk_path(m, word, m.initial, 0),
        ),
{
    lemma_search_is_walk(m, word, m.initial, 0);
    lemma_walk_path(m, word, m.initial, 0);
    assert(word.skip(0) =~= word);
}

/// Recording a transition keeps a table well formed: it still has
/// finitely many states, each with a transition, and each list still
/// tries its consuming transitions first.
pub proof fn lemma_recorded_well_formed(table: Table, state: Seq<char>, arc: Arc)
    requires
        well_formed(table),
    ensures
        well_formed(recorded(table, state, arc)),
{
    let had = arcs_of(table, state);
    lemma_placed(had, arc);
    let after = recorded(table, state, arc);
    assert forall|other: Seq<char>| #[trigger] after.dom().contains(other) implies after[other].len()
        > 0 && consuming_first(after[other]) by {
        if other != state {
            assert(table.dom().contains(other));
        }
    }
}

/// Every table that is built by recording transitions is well formed.
pub proof fn lemma_built_well_formed(records: Seq<Record>)
    ensures
        well_formed(built(records)),
    decreases records.len(),
{
    if records.len() > 0 {
        lemma_built_well_formed(records.drop_last());
        lemma_recorded_well_formed(
            built(records.drop_last()),
            records.last().state,
            records.last().arc,
        );
    }
}

/// The transitions among `records` that leave `state`, without their
/// order.
pub open spec fn leaving(records: Seq<Record>, state: Seq<char>) -> Multiset<Arc>
    decreases records.len(),
{
    if records.len() == 0 {
        Multiset::empty()
    } else if records.last().state == state {
        leaving(records.drop_last(), state).insert(records.last().arc)
    } else {
        leaving(records.drop_last(), state)
    }
}

/// The two tables hold the same states, and for each state the same
/// transitions, in whatever order.
pub open spec fn same_transitions(a: Table, b: Table) -> bool {
    &&& forall|state: Seq<char>| a.dom().contains(state) <==> b.dom().contains(state)
    &&& forall|state: Seq<char>| #[trigger]
        a.dom().contains(state) ==> a[state].to_multiset() == b[state].to_multiset()
}

/// A transition that stands twice in a list counts twice in it.
proof fn lemma_twice(arcs: Seq<Arc>, i: int, j: int)
    requires
        0 <= i < j < arcs.len(),
        arcs[i] == arcs[j],
    ensures
        arcs.to_multiset().count(arcs[i]) >= 2,
{
    broadcast use vstd::multiset::group_multiset_axioms;

    arcs.to_multiset_ensures();
    let rest = arcs.remove(j);
    rest.to_multiset_ensures();
    assert(rest[i] == arcs[i]);
    assert(rest.contains(arcs[i]));
    assert(rest.to_multiset().count(arcs[i]) > 0);
    assert(rest.to_multiset() =~= arcs.to_multiset().remove(arcs[j]));
}

/// A transition that counts twice in a list stands at two places in it.
proof fn lemma_two_places(arcs: Seq<Arc>, arc: Arc) -> (r: (int, int))
    requires
        arcs.to_multiset().count(arc) >= 2,
    ensures
        0 <= r.0 < r.1 < arcs.len(),
        arcs[r.0] == arc,
        arcs[r.1] == arc,
{
    broadcast use vstd::multiset::group_multiset_axioms;

    arcs.to_multiset_ensures();
    assert(arcs.to_multiset().count(arc) > 0);
    assert(arcs.contains(arc));
    let p = choose|p: int| 0 <= p < arcs.len() && arcs[p] == arc;
    let rest = arcs.remove(p);
    rest.to_multiset_ensures();
    assert(rest.to_multiset() =~= arcs.to_multiset().remove(arcs[p]));
    assert(rest.to_multiset().count(arc) > 0);
    assert(rest.contains(arc));
    let q = choose|q: int| 0 <= q < rest.len() && rest[q] == arc;
    if q < p {
        assert(arcs[q] == rest[q]);
        (q, p)
    } else {
        assert(arcs[q + 1] == rest[q]);
        (p, q + 1)
    }
}

/// A list that is free of lambda transitions and of repeated labels stays
/// so when its transitions are put in another order.
proof fn lemma_reordered(a: Seq<Arc>, b: Seq<Arc>)
    requires
        a.to_multiset() == b.to_multiset(),
        lambda_free(a),
        distinct_labels(a),
    ensures
        lambda_free(b),
        distinct_labels(b),
{
    a.to_multiset_ensures();
    b.to_multiset_ensures();
    assert forall|j: int| 0 <= j < b.len() implies !is_lambda(#[trigger] b[j].label) by {
        assert(b.contains(b[j]));
        assert(b.to_multiset().count(b[j]) > 0);
        assert(a.to_multiset().count(b[j]) > 0);
        assert(a.contains(b[j]));
        let i = choose|i: int| 0 <= i < a.len() && a[i] == b[j];
        assert(!is_lambda(a[i].label));
    }
    assert forall|i: int, j: int| 0 <= i < j < b.len() implies (#[trigger] b[i]).label != (
    #[trigger] b[j]).label by {
        if b[i].label == b[j].label {
            if b[i] == b[j] {
                lemma_twice(b, i, j);
                let (p, q) = lemma_two_places(a, b[i]);
                assert(a[p].label == a[q].label);
            } else {
                assert(b.contains(b[i]) && b.contains(b[j]));
                assert(b.to_multiset().count(b[i]) > 0 && b.to_multiset().count(b[j]) > 0);
                assert(a.to_multiset().count(b[i]) > 0 && a.to_multiset().count(b[j]) > 0);
                assert(a.contains(b[i]) && a.contains(b[j]));
                let p = choose|p: int| 0 <= p < a.len() && a[p] == b[i];
                let q = choose|q: int| 0 <= q < a.len() && a[q] == b[j];
                if p < q {
                    assert(a[p].label == a[q].label);
                } else {
                    assert(a[q].label == a[p].label);
                }
            }
        }
    }
}

/// The verdict of the classifier does not depend on the order in which a
/// state holds its transitions.
pub proof fn lemma_classification_ignores_order(a: Table, b: Table)
    requires
        same_transitions(a, b),
    ensures
        deterministic(a) == deterministic(b),
{
    if deterministic(a) {
        assert forall|state: Seq<char>| #[trigger] b.dom().contains(state) implies lambda_free(
            b[state],
        ) && distinct_labels(b[state]) by {
            assert(a.dom().contains(state));
            lemma_reordered(a[state], b[state]);
        }
    }
    if deterministic(b) {
        assert forall|state: Seq<char>| #[trigger] a.dom().contains(state) implies lambda_free(
            a[state],
        ) && distinct_labels(a[state]) by {
            assert(b.dom().contains(state));
            lemma_reordered(b[state], a[state]);
        }
    }
}

/// A table that is built by recording transitions holds, for each state,
/// the transitions recorded for it; it holds a state if and only if a
/// transition was recorded for it.
pub proof fn lemma_built(records: Seq<Record>, state: Seq<char>)
    ensures
        arcs_of(built(records), state).to_multiset() == leaving(records, state),
        built(records).dom().contains(state) <==> leaving(records, state).len() > 0,
    decreases records.len(),
{
    broadcast use vstd::multiset::group_multiset_axioms;

    if records.len() == 0 {
        Seq::<Arc>::empty().to_multiset_ensures();
        assert(Seq::<Arc>::empty().to_multiset() =~= Multiset::empty());
    } else {
        let before = built(records.drop_last());
        let last = records.last();
        lemma_built(records.drop_last(), state);
        if last.state == state {
            let had = arcs_of(before, state);
            lemma_consuming_prefix_bounds(had);
            had.to_multiset_ensures();
            vstd::seq_lib::to_multiset_insert(had, consuming_prefix(had), last.arc);
            assert(placed(had, last.arc).to_multiset() =~= had.to_multiset().insert(last.arc));
        }
    }
}

/// Taking one record out of the list takes its transition out of those
/// that leave its state, and nothing else.
proof fn lemma_leaving_remove(records: Seq<Record>, p: int, state: Seq<char>)
    requires
        0 <= p < records.len(),
    ensures
        leaving(records, state) == if records[p].state == state {
            leaving(records.remove(p), state).insert(records[p].arc)
        } else {
            leaving(records.remove(p), state)
        },
    decreases records.len(),
{
    broadcast use vstd::multiset::group_multiset_axioms;

    if p == records.len() - 1 {
        assert(records.remove(p) =~= records.drop_last());
    } else {
        let front = records.drop_last();
        lemma_leaving_remove(front, p, state);
        assert(records.remove(p).drop_last() =~= front.remove(p));
        assert(records.remove(p).last() == records.last());
        assert(front[p] == records[p]);
        let m = leaving(front.remove(p), state);
        if records[p].state == state && records.last().state == state {
            assert(m.insert(records[p].arc).insert(records.last().arc) =~= m.insert(
                records.last().arc,
            ).insert(records[p].arc));
        }
    }
}

/// The transitions that leave a state do not depend on the order of the
/// records.
proof fn lemma_leaving_ignores_order(a: Seq<Record>, b: Seq<Record>, state: Seq<char>)
    requires
        a.to_multiset() == b.to_multiset(),
    ensures
        leaving(a, state) == leaving(b, state),
    decreases a.len(),
{
    broadcast use vstd::multiset::group_multiset_axioms;

    a.to_multiset_ensures();
    b.to_multiset_ensures();
    if a.len() == 0 {
        assert(b.len() == 0);
    } else {
        let x = a.last();
        assert(a.contains(x));
        assert(a.to_multiset().count(x) > 0);
        assert(b.to_multiset().count(x) > 0);
        assert(b.contains(x));
        let p = choose|p: int| 0 <= p < b.len() && b[p] == x;
        assert(a.remove(a.len() - 1) =~= a.drop_last());
        assert(a.drop_last().to_multiset() =~= a.to_multiset().remove(x));
        assert(b.remove(p).to_multiset() =~= b.to_multiset().remove(x));
        lemma_leaving_ignores_order(a.drop_last(), b.remove(p), state);
        lemma_leaving_remove(b, p, state);
    }
}

/// The same transitions recorded in two orders give tables that hold the
/// same states, each with the same transitions.
pub proof fn lemma_built_ignores_order(a: Seq<Record>, b: Seq<Record>)
    requires
        a.to_multiset() == b.to_multiset(),
    ensures
        same_transitions(built(a), built(b)),
{
    assert forall|state: Seq<char>| built(a).dom().contains(state) <==> built(b).dom().contains(
        state,
    ) by {
        lemma_built(a, state);
        lemma_built(b, state);
        lemma_leaving_ignores_order(a, b, state);
    }
    assert forall|state: Seq<char>| #[trigger] built(a).dom().contains(state) implies built(
        a,
    )[state].to_multiset() == built(b)[state].to_multiset() by {
        lemma_built(a, state);
        lemma_built(b, state);
        lemma_leaving_ignores_order(a, b, state);
    }
}

/// The classifier gives the same verdict on two relations that were built
/// from the same transitions recorded in different orders.
pub proof fn lemma_classification_ignores_insertion_order(a: Seq<Record>, b: Seq<Record>)
    requires
        a.to_multiset() == b.to_multiset(),
    ensures
        deterministic(built(a)) == deterministic(built(b)),
{
    lemma_built_ignores_order(a, b);
    lemma_classification_ignores_order(built(a), built(b));
}

} // verus!
