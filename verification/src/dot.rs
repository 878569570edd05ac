//! The automaton as a graph description in the DOT language, with the
//! state and the transitions of one step set off by colour.

use crate::file::ParsedFile;
use crate::model::{arcs_of, names_view, Arc, Machine};
use crate::relation::{arcs_view, Node};
use vstd::prelude::*;
use vstd::string::StringExecFns;

verus! {

/// The head of every graph: its name and the looks of its nodes and edges.
pub open spec fn preamble() -> Seq<char> {
    "digraph G {\n"@
        + "\trankdir=LR;\n\toverlap=scale;\n\tsep=0.1;\n\tpad=1;\n\tnodesep=0.5;\n\tranksep=1;\n\n"@
        + "\tnode [style=\"rounded,filled\"]\n"@ + "\tedge [color=\"gray\"]\n\n"@
}

/// One line for each accepting state, which gives it a double outline.
pub open spec fn finish_lines(finals: Seq<Seq<char>>) -> Seq<char>
    decreases finals.len(),
{
    if finals.len() == 0 {
        Seq::empty()
    } else {
        finish_lines(finals.drop_last()) + "\t"@ + finals.last() + " [peripheries=2]\n"@
    }
}

/// The arrow that points to the initial state.
pub open spec fn start_lines(initial: Seq<char>) -> Seq<char> {
    "\n\tstart [label= \"\", shape=none,height=.0,width=.0]\n"@ + "\tstart -> "@ + initial
        + "\n"@
}

/// The line that colours the current state.
pub open spec fn current_line(node_to_color: Seq<char>) -> Seq<char> {
    "\n\t"@ + node_to_color + " [color=\"#467050\", fontcolor=\"white\"]\n"@
}

/// The line of one transition out of `origin`. It is coloured if it
/// leaves the current state under the label to colour.
pub open spec fn edge_line(
    origin: Seq<char>,
    arc: Arc,
    node_to_color: Seq<char>,
    edge_to_color: Seq<char>,
) -> Seq<char> {
    "\t"@ + origin + " -> "@ + arc.target + " [label=\""@ + arc.label + "\""@ + (if origin
        == node_to_color && arc.label == edge_to_color {
        ", color=\"#ad2a2a\""@
    } else {
        Seq::empty()
    }) + "]\n"@
}

/// The lines of the transitions out of `origin`, in their order.
pub open spec fn edge_lines(
    origin: Seq<char>,
    arcs: Seq<Arc>,
    node_to_color: Seq<char>,
    edge_to_color: Seq<char>,
) -> Seq<char>
    decreases arcs.len(),
{
    if arcs.len() == 0 {
        Seq::empty()
    } else {
        edge_lines(origin, arcs.drop_last(), node_to_color, edge_to_color) + edge_line(
            origin,
            arcs.last(),
            node_to_color,
            edge_to_color,
        )
    }
}

/// The lines of the transitions out of the states of `order`, state by
/// state.
pub open spec fn table_lines(
    m: Machine,
    order: Seq<Seq<char>>,
    node_to_color: Seq<char>,
    edge_to_color: Seq<char>,
) -> Seq<char>
    decreases order.len(),
{
    if order.len() == 0 {
        Seq::empty()
    } else {
        table_lines(m, order.drop_last(), node_to_color, edge_to_color) + edge_lines(
            order.last(),
            arcs_of(m.table, order.last()),
            node_to_color,
            edge_to_color,
        )
    }
}

/// The whole graph: the head, the accepting states, the arrow to the
/// initial state, the current state, and the transitions of the states
/// of `order`.
pub open spec fn dot_text(
    m: Machine,
    order: Seq<Seq<char>>,
    node_to_color: Seq<char>,
    edge_to_color: Seq<char>,
) -> Seq<char> {
    preamble() + finish_lines(m.finals) + start_lines(m.initial) + current_line(node_to_color)
        + table_lines(m, order, node_to_color, edge_to_color) + "}"@
}

/// Writes the line of one transition out of `origin` at the end of `out`.
fn push_edge(
    out: &mut String,
    origin: &String,
    node: &Node,
    node_to_color: &String,
    edge_to_color: &String,
)
    ensures
        final(out)@ == old(out)@ + edge_line(origin@, node@, node_to_color@, edge_to_color@),
{
    let ghost before = out@;
    out.append("\t");
    out.append(origin.as_str());
    out.append(" -> ");
    out.append(node.destination.as_str());
    out.append(" [label=\"");
    out.append(node.character.as_str());
    out.append("\"");
    if *origin == *node_to_color && node.character == *edge_to_color {
        out.append(", color=\"#ad2a2a\"");
    } else {
        assert(out@ + Seq::<char>::empty() =~= out@);
    }
    out.append("]\n");
    assert(out@ =~= before + edge_line(origin@, node@, node_to_color@, edge_to_color@));
}

/// Describes the automaton as a graph in the DOT language. The state
/// `node_to_color` is coloured, and so is each transition that leaves it
/// under the label `edge_to_color`.
pub fn dot(infos: &ParsedFile, node_to_color: &String, edge_to_color: &String) -> (out: String)
    ensures
        out@ == dot_text(infos@, infos.order(), node_to_color@, edge_to_color@),
{
    let ghost m = infos@;
    let ghost node = node_to_color@;
    let ghost edge = edge_to_color@;
    let mut out = String::new();
    out.append("digraph G {\n");
    out.append(
        "\trankdir=LR;\n\toverlap=scale;\n\tsep=0.1;\n\tpad=1;\n\tnodesep=0.5;\n\tranksep=1;\n\n",
    );
    out.append("\tnode [style=\"rounded,filled\"]\n");
    out.append("\tedge [color=\"gray\"]\n\n");
    assert(out@ =~= preamble());
    let finals = infos.get_finish_state();
    let ghost shown = names_view(finals@);
    let mut i: usize = 0;
    assert(out@ + Seq::<char>::empty() =~= out@);
    while i < finals.len()
        invariant
            i <= finals@.len(),
            shown == names_view(finals@),
            out@ == preamble() + finish_lines(shown.take(i as int)),
        decreases finals@.len() - i,
    {
        let ghost before = finish_lines(shown.take(i as int));
        out.append("\t");
        out.append(finals[i].as_str());
        out.append(" [peripheries=2]\n");
        proof {
            assert(shown.take(i + 1).drop_last() =~= shown.take(i as int));
            assert(shown.take(i + 1).last() == finals@[i as int]@);
            assert(out@ =~= preamble() + (before + "\t"@ + finals@[i as int]@
                + " [peripheries=2]\n"@));
        }
        i += 1;
    }
    assert(shown.take(i as int) =~= shown);
    out.append("\n\tstart [label= \"\", shape=none,height=.0,width=.0]\n");
    out.append("\tstart -> ");
    out.append(infos.get_initial_state().as_str());
    out.append("\n");
    out.append("\n\t");
    out.append(node_to_color.as_str());
    out.append(" [color=\"#467050\", fontcolor=\"white\"]\n");
    let ghost head = preamble() + finish_lines(m.finals) + start_lines(m.initial) + current_line(
        node,
    );
    assert(out@ =~= head);
    let states = infos.states();
    let keys = states.keys();
    let ghost order = infos.order();
    let mut k: usize = 0;
    assert(out@ + Seq::<char>::empty() =~= out@);
    while k < keys.len()
        invariant
            m == infos@,
            node == node_to_color@,
            edge == edge_to_color@,
            states@ == m.table,
            k <= keys@.len(),
            keys@.len() == order.len(),
            forall|j: int| 0 <= j < keys@.len() ==> (#[trigger] keys@[j])@ == order[j],
            out@ == head + table_lines(m, order.take(k as int), node, edge),
        decreases keys@.len() - k,
    {
        let origin = &keys[k];
        let nodes = states.get(origin);
        let ghost arcs = arcs_view(nodes@);
        let ghost rows = table_lines(m, order.take(k as int), node, edge);
        let mut j: usize = 0;
        assert(out@ + Seq::<char>::empty() =~= out@);
        while j < nodes.len()
            invariant
                j <= nodes@.len(),
                arcs == arcs_view(nodes@),
                node == node_to_color@,
                edge == edge_to_color@,
                out@ == head + rows + edge_lines(origin@, arcs.take(j as int), node, edge),
            decreases nodes@.len() - j,
        {
            let ghost lines = edge_lines(origin@, arcs.take(j as int), node, edge);
            push_edge(&mut out, origin, &nodes[j], node_to_color, edge_to_color);
            proof {
                assert(arcs.take(j + 1).drop_last() =~= arcs.take(j as int));
                assert(arcs.take(j + 1).last() == nodes@[j as int]@);
                assert(out@ =~= head + rows + (lines + edge_line(
                    origin@,
                    nodes@[j as int]@,
                    node,
                    edge,
                )));
            }
            j += 1;
        }
        proof {
            assert(arcs.take(j as int) =~= arcs);
            assert(order.take(k + 1).drop_last() =~= order.take(k as int));
            assert(order.take(k + 1).last() == origin@);
            assert(out@ =~= head + (rows + edge_lines(origin@, arcs, node, edge)));
        }
        k += 1;
    }
    assert(order.take(k as int) =~= order);
    out.append("}");
    out
}

} // verus!
