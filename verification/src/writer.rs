//! Renderers of the visual graph: GraphViz DOT, Trivial Graph Format and a
//! plain-text dependency list; and the JSON document of the call graph.

use vstd::prelude::*;

use crate::order::{
    decimal, decimal_chars, key_less, key_view, lemma_part_cases, part_less, seq_less, sort_by_key,
    KeyPart, KeyV,
};
use crate::query::texts;
use crate::text::{chars_eq, chars_to_string, join, push_all, push_str, str_to_chars};
use crate::visgraph::{VisualEdge, VisualGraph, VisualNode};
pub use crate::json::{write_json, JsonGraphMode, JsonOutputOptions};

verus! {

/// `4 * level` spaces.
pub open spec fn indent(level: nat) -> Seq<char>
    decreases level,
{
    if level == 0 {
        Seq::empty()
    } else {
        indent((level - 1) as nat) + "    "@
    }
}

/// The DOT line of a node.
pub open spec fn dot_node(v: VisualNode, level: nat) -> Seq<char> {
    indent(level) + v.id@ + " [label=\""@ + v.label@ + "\", style=\"filled\", fillcolor=\""@ + v.fill_color@
        + "\", fontcolor=\""@ + v.text_color@ + "\", group=\""@ + decimal(v.group as nat) + "\"];\n"@
}

/// The DOT lines of the nodes `vs`.
pub open spec fn dot_nodes(vs: Seq<VisualNode>, level: nat) -> Seq<char>
    decreases vs.len(),
{
    if vs.len() == 0 {
        Seq::empty()
    } else {
        dot_nodes(vs.drop_last(), level) + dot_node(vs.last(), level)
    }
}

/// The DOT text of a subgraph (a cluster) at `level`.
pub open spec fn dot_subgraph(g: VisualGraph, level: nat) -> Seq<char> {
    indent(level) + "subgraph cluster_"@ + g.id@ + " {\n"@ + indent(level + 1)
        + "graph [style=\"filled,rounded\", fillcolor=\"#80808018\", label=\""@ + g.label@ + "\"];\n"@
        + dot_nodes(g.nodes@, level + 1) + indent(level) + "}\n"@
}

/// The DOT text of the subgraphs `gs`.
pub open spec fn dot_subgraphs(gs: Seq<VisualGraph>, level: nat) -> Seq<char>
    decreases gs.len(),
{
    if gs.len() == 0 {
        Seq::empty()
    } else {
        dot_subgraphs(gs.drop_last(), level) + dot_subgraph(gs.last(), level)
    }
}

/// The DOT line of an edge between `nodes`: dashed for defines edges,
/// solid for the others.
pub open spec fn dot_edge(e: VisualEdge, nodes: Seq<VisualNode>) -> Seq<char> {
    let style = if e.flavor@ == "defines"@ {
        "dashed"@
    } else {
        "solid"@
    };
    "    "@ + nodes[e.source_idx as int].id@ + " -> "@ + nodes[e.target_idx as int].id@ + " [style=\""@ + style
        + "\", color=\""@ + e.color@ + "\"];\n"@
}

/// The DOT lines of the edges `es`.
pub open spec fn dot_edges(es: Seq<VisualEdge>, nodes: Seq<VisualNode>) -> Seq<char>
    decreases es.len(),
{
    if es.len() == 0 {
        Seq::empty()
    } else {
        dot_edges(es.drop_last(), nodes) + dot_edge(es.last(), nodes)
    }
}

/// The graph attributes: the given options, and `clusterrank="local"` for
/// grouped graphs.
pub open spec fn dot_options(g: VisualGraph, options: Seq<Seq<char>>) -> Seq<Seq<char>> {
    if g.grouped {
        options.push("clusterrank=\"local\""@)
    } else {
        options
    }
}

/// The whole DOT text of a graph: its attributes, then its clusters (when
/// grouped and there are any) or else its nodes, then its edges.
pub open spec fn dot_text(g: VisualGraph, options: Seq<Seq<char>>) -> Seq<char> {
    let body = if g.grouped && g.subgraphs@.len() > 0 {
        dot_subgraphs(g.subgraphs@, 1)
    } else {
        dot_nodes(g.nodes@, 1)
    };
    "digraph G {\n"@ + "    graph ["@ + join(dot_options(g, options), ", "@) + "];\n"@ + body + dot_edges(
        g.edges@,
        g.nodes@,
    ) + "}\n"@
}

/// `x` occurs in `s` at position `p`.
pub open spec fn occurs_at(s: Seq<char>, x: Seq<char>, p: int) -> bool {
    0 <= p && p + x.len() <= s.len() && s.subrange(p, p + x.len()) == x
}

/// `s` is empty or ends with a newline.
pub open spec fn ends_line(s: Seq<char>) -> bool {
    s.len() == 0 || s.last() == '\n'
}

/// The start of the DOT line of edge `e`, with the newline that ends the
/// line before it: four spaces, the id of the source node, an arrow, the
/// id of the target node, and its style (dashed for a defines edge, solid
/// otherwise).
pub open spec fn arrow_line_start(e: VisualEdge, nodes: Seq<VisualNode>) -> Seq<char> {
    "\n    "@ + nodes[e.source_idx as int].id@ + " -> "@ + nodes[e.target_idx as int].id@ + " [style=\""@ + (if e.flavor@
        == "defines"@ {
        "dashed"@
    } else {
        "solid"@
    }) + "\""@
}

/// `s` holds the line of edge `e`.
pub open spec fn has_arrow_line(s: Seq<char>, e: VisualEdge, nodes: Seq<VisualNode>) -> bool {
    exists|p: int| occurs_at(s, arrow_line_start(e, nodes), p)
}

proof fn lemma_occurs_left(a: Seq<char>, b: Seq<char>, x: Seq<char>, p: int)
    requires
        occurs_at(a, x, p),
    ensures
        occurs_at(a + b, x, p),
{
    assert((a + b).subrange(p, p + x.len()) =~= a.subrange(p, p + x.len()));
}

proof fn lemma_ends_line_add(a: Seq<char>, b: Seq<char>)
    requires
        ends_line(a),
        ends_line(b),
    ensures
        ends_line(a + b),
{
    if b.len() > 0 {
        assert((a + b).last() == b.last());
    } else {
        assert(a + b =~= a);
    }
}

proof fn lemma_dot_nodes_end(vs: Seq<VisualNode>, level: nat)
    ensures
        ends_line(dot_nodes(vs, level)),
{
    if vs.len() > 0 {
        let e = dot_node(vs.last(), level);
        reveal_strlit("\"];\n");
        assert(e.last() == '\n');
        assert(dot_nodes(vs, level).last() == e.last());
    }
}

proof fn lemma_dot_subgraphs_end(gs: Seq<VisualGraph>, level: nat)
    ensures
        ends_line(dot_subgraphs(gs, level)),
{
    if gs.len() > 0 {
        let e = dot_subgraph(gs.last(), level);
        reveal_strlit("}\n");
        assert(e.last() == '\n');
        assert(dot_subgraphs(gs, level).last() == e.last());
    }
}

/// The DOT line of an edge starts with its arrow and ends the line.
proof fn lemma_dot_edge_shape(e: VisualEdge, nodes: Seq<VisualNode>)
    ensures
        ({
            let x = arrow_line_start(e, nodes);
            let d = dot_edge(e, nodes);
            &&& d.len() >= x.len() - 1
            &&& d.subrange(0, x.len() - 1) == x.subrange(1, x.len() as int)
            &&& d.last() == '\n'
        }),
{
    let src = nodes[e.source_idx as int].id@;
    let tgt = nodes[e.target_idx as int].id@;
    let style = if e.flavor@ == "defines"@ {
        "dashed"@
    } else {
        "solid"@
    };
    let head = "    "@ + src + " -> "@ + tgt + " [style=\""@ + style + "\""@;
    let rest = ", color=\""@ + e.color@ + "\"];\n"@;
    let d = dot_edge(e, nodes);
    reveal_strlit("\", color=\"");
    reveal_strlit("\"");
    reveal_strlit(", color=\"");
    assert("\", color=\""@ =~= "\""@ + ", color=\""@);
    assert(d =~= head + rest);
    reveal_strlit("\"];\n");
    reveal_strlit("\n    ");
    reveal_strlit("    ");
    let x = arrow_line_start(e, nodes);
    assert(x.subrange(1, x.len() as int) =~= head);
    assert(d.subrange(0, head.len() as int) =~= head);
    assert(d.last() == rest.last());
}

proof fn lemma_dot_edges_lines(h: Seq<char>, es: Seq<VisualEdge>, nodes: Seq<VisualNode>)
    requires
        h.len() > 0,
        h.last() == '\n',
    ensures
        (h + dot_edges(es, nodes)).len() > 0,
        (h + dot_edges(es, nodes)).last() == '\n',
        forall|k: int|
            0 <= k < es.len() ==> #[trigger] has_arrow_line(h + dot_edges(es, nodes), es[k], nodes),
    decreases es.len(),
{
    if es.len() == 0 {
        assert(h + dot_edges(es, nodes) =~= h);
    } else {
        let pre = es.drop_last();
        lemma_dot_edges_lines(h, pre, nodes);
        let xx = h + dot_edges(pre, nodes);
        let e = es.last();
        let d = dot_edge(e, nodes);
        assert(h + dot_edges(es, nodes) =~= xx + d);
        lemma_dot_edge_shape(e, nodes);
        assert((xx + d).last() == d.last());
        assert forall|k: int| 0 <= k < es.len() implies #[trigger] has_arrow_line(h + dot_edges(es, nodes), es[k], nodes) by {
            let x = arrow_line_start(es[k], nodes);
            if k < es.len() - 1 {
                assert(es[k] == pre[k]);
                assert(has_arrow_line(xx, pre[k], nodes));
                let p = choose|p: int| occurs_at(xx, x, p);
                lemma_occurs_left(xx, d, x, p);
                assert(occurs_at(h + dot_edges(es, nodes), x, p));
            } else {
                let p = xx.len() - 1;
                reveal_strlit("\n    ");
                assert(es[k] == e);
                assert(x[0] == '\n');
                assert(d.len() >= x.len() - 1);
                assert((xx + d).subrange(p, p + x.len()) =~= seq![xx.last()] + d.subrange(0, x.len() - 1));
                assert(x =~= seq!['\n'] + x.subrange(1, x.len() as int));
                assert(occurs_at(xx + d, x, p));
                assert(occurs_at(h + dot_edges(es, nodes), x, p));
            }
        }
    }
}

/// Every edge of the visual graph has its line in the DOT text: a line
/// that starts with the id of the edge's source node, an arrow, the id of
/// its target node, and its style (dashed for a defines edge, solid
/// otherwise).
pub proof fn lemma_dot_edge_lines(g: VisualGraph, options: Seq<Seq<char>>)
    ensures
        forall|k: int|
            0 <= k < g.edges@.len() ==> #[trigger] has_arrow_line(dot_text(g, options), g.edges@[k], g.nodes@),
{
    let body = if g.grouped && g.subgraphs@.len() > 0 {
        dot_subgraphs(g.subgraphs@, 1)
    } else {
        dot_nodes(g.nodes@, 1)
    };
    lemma_dot_nodes_end(g.nodes@, 1);
    lemma_dot_subgraphs_end(g.subgraphs@, 1);
    let head = "digraph G {\n"@ + "    graph ["@ + join(dot_options(g, options), ", "@) + "];\n"@;
    reveal_strlit("];\n");
    assert(head.last() == '\n');
    lemma_ends_line_add(head, body);
    let h = head + body;
    let es = dot_edges(g.edges@, g.nodes@);
    lemma_dot_edges_lines(h, g.edges@, g.nodes@);
    assert(dot_text(g, options) =~= (h + es) + "}\n"@);
    assert forall|k: int| 0 <= k < g.edges@.len() implies #[trigger] has_arrow_line(dot_text(g, options), g.edges@[k], g.nodes@) by {
        let x = arrow_line_start(g.edges@[k], g.nodes@);
        assert(has_arrow_line(h + es, g.edges@[k], g.nodes@));
        let p = choose|p: int| occurs_at(h + es, x, p);
        lemma_occurs_left(h + es, "}\n"@, x, p);
        assert(occurs_at(dot_text(g, options), x, p));
    }
}

/// Append `4 * level` spaces.
fn push_indent(out: &mut Vec<char>, level: usize)
    ensures
        final(out)@ == old(out)@ + indent(level as nat),
{
    let mut i: usize = 0;
    while i < level
        invariant
            i <= level,
            out@ == old(out)@ + indent(i as nat),
        decreases level - i,
    {
        push_str(out, "    ");
        i = i + 1;
    }
}

/// Append the DOT line of a node.
fn write_dot_node(out: &mut Vec<char>, node: &VisualNode, level: usize)
    ensures
        final(out)@ == old(out)@ + dot_node(*node, level as nat),
{
    push_indent(out, level);
    push_str(out, node.id.as_str());
    push_str(out, " [label=\"");
    push_str(out, node.label.as_str());
    push_str(out, "\", style=\"filled\", fillcolor=\"");
    push_str(out, node.fill_color.as_str());
    push_str(out, "\", fontcolor=\"");
    push_str(out, node.text_color.as_str());
    push_str(out, "\", group=\"");
    let d = decimal_chars(node.group);
    push_all(out, d.as_slice());
    push_str(out, "\"];\n");
    proof {
        assert(final(out)@ =~= old(out)@ + dot_node(*node, level as nat));
    }
}

/// Append the DOT lines of some nodes.
fn write_dot_nodes(out: &mut Vec<char>, nodes: &Vec<VisualNode>, level: usize)
    ensures
        final(out)@ == old(out)@ + dot_nodes(nodes@, level as nat),
{
    let mut i: usize = 0;
    proof {
        assert(nodes@.take(0) =~= Seq::<VisualNode>::empty());
    }
    while i < nodes.len()
        invariant
            i <= nodes@.len(),
            out@ == old(out)@ + dot_nodes(nodes@.take(i as int), level as nat),
        decreases nodes.len() - i,
    {
        proof {
            assert(nodes@.take(i as int + 1).drop_last() =~= nodes@.take(i as int));
        }
        write_dot_node(out, &nodes[i], level);
        proof {
            assert(out@ =~= old(out)@ + dot_nodes(nodes@.take(i as int + 1), level as nat));
        }
        i = i + 1;
    }
    proof {
        assert(nodes@.take(nodes@.len() as int) =~= nodes@);
    }
}

/// Append the DOT text of a subgraph.
fn write_dot_subgraph(out: &mut Vec<char>, sg: &VisualGraph, level: usize)
    requires
        level < usize::MAX,
    ensures
        final(out)@ == old(out)@ + dot_subgraph(*sg, level as nat),
{
    push_indent(out, level);
    push_str(out, "subgraph cluster_");
    push_str(out, sg.id.as_str());
    push_str(out, " {\n");
    push_indent(out, level + 1);
    push_str(out, "graph [style=\"filled,rounded\", fillcolor=\"#80808018\", label=\"");
    push_str(out, sg.label.as_str());
    push_str(out, "\"];\n");
    write_dot_nodes(out, &sg.nodes, level + 1);
    push_indent(out, level);
    push_str(out, "}\n");
    proof {
        assert(final(out)@ =~= old(out)@ + dot_subgraph(*sg, level as nat));
    }
}

/// Render the visual graph in GraphViz DOT format.
///
/// `options` are extra graph attributes (e.g. `rankdir=LR`); grouped
/// graphs also get `clusterrank="local"`.
pub fn write_dot(graph: &VisualGraph, options: &Vec<String>) -> (r: String)
    requires
        graph.wf(),
    ensures
        r@ == dot_text(*graph, texts(options@)),
{
    let mut out: Vec<char> = Vec::new();
    push_str(&mut out, "digraph G {\n");
    push_str(&mut out, "    graph [");
    let ghost opts = dot_options(*graph, texts(options@));
    // The attributes, joined by ", ".
    let n = options.len();
    let mut i: usize = 0;
    let ghost base = out@;
    proof {
        assert(texts(options@).take(0) =~= Seq::<Seq<char>>::empty());
    }
    while i < n
        invariant
            i <= n,
            n == options@.len(),
            out@ == base + join(texts(options@).take(i as int), ", "@),
        decreases n - i,
    {
        proof {
            assert(texts(options@).take(i as int + 1).drop_last() =~= texts(options@).take(i as int));
            assert(texts(options@).take(i as int + 1).last() == options@[i as int]@);
        }
        if i > 0 {
            push_str(&mut out, ", ");
        }
        push_str(&mut out, options[i].as_str());
        proof {
            if i == 0 {
                assert(out@ =~= base + join(texts(options@).take(1), ", "@));
            } else {
                assert(out@ =~= base + join(texts(options@).take(i as int + 1), ", "@));
            }
        }
        i = i + 1;
    }
    proof {
        assert(texts(options@).take(n as int) =~= texts(options@));
    }
    if graph.grouped {
        let ghost before = out@;
        if n > 0 {
            push_str(&mut out, ", ");
        }
        push_str(&mut out, "clusterrank=\"local\"");
        proof {
            let sv = texts(options@);
            assert(opts.drop_last() =~= sv);
            if n > 0 {
                assert(out@ =~= base + join(opts, ", "@));
            } else {
                assert(out@ =~= base + join(opts, ", "@));
            }
        }
    }
    push_str(&mut out, "];\n");
    let ghost head = out@;
    if graph.grouped && graph.subgraphs.len() > 0 {
        let mut g: usize = 0;
        proof {
            assert(graph.subgraphs@.take(0) =~= Seq::<VisualGraph>::empty());
        }
        while g < graph.subgraphs.len()
            invariant
                g <= graph.subgraphs@.len(),
                out@ == head + dot_subgraphs(graph.subgraphs@.take(g as int), 1),
            decreases graph.subgraphs.len() - g,
        {
            proof {
                assert(graph.subgraphs@.take(g as int + 1).drop_last() =~= graph.subgraphs@.take(g as int));
            }
            write_dot_subgraph(&mut out, &graph.subgraphs[g], 1);
            proof {
                assert(out@ =~= head + dot_subgraphs(graph.subgraphs@.take(g as int + 1), 1));
            }
            g = g + 1;
        }
        proof {
            assert(graph.subgraphs@.take(graph.subgraphs@.len() as int) =~= graph.subgraphs@);
        }
    } else {
        write_dot_nodes(&mut out, &graph.nodes, 1);
    }
    let ghost mid = out@;
    let mut e: usize = 0;
    proof {
        assert(graph.edges@.take(0) =~= Seq::<VisualEdge>::empty());
    }
    while e < graph.edges.len()
        invariant
            graph.wf(),
            e <= graph.edges@.len(),
            out@ == mid + dot_edges(graph.edges@.take(e as int), graph.nodes@),
        decreases graph.edges.len() - e,
    {
        let edge = &graph.edges[e];
        proof {
            assert(graph.edges@.take(e as int + 1).drop_last() =~= graph.edges@.take(e as int));
            assert(edge.source_idx < graph.nodes@.len());
        }
        let src = &graph.nodes[edge.source_idx];
        let tgt = &graph.nodes[edge.target_idx];
        let fc = str_to_chars(edge.flavor.as_str());
        let dv = vec!['d', 'e', 'f', 'i', 'n', 'e', 's'];
        let is_defines = chars_eq(fc.as_slice(), dv.as_slice());
        proof {
            reveal_strlit("defines");
            assert(dv@ =~= "defines"@);
        }
        push_str(&mut out, "    ");
        push_str(&mut out, src.id.as_str());
        push_str(&mut out, " -> ");
        push_str(&mut out, tgt.id.as_str());
        push_str(&mut out, " [style=\"");
        if is_defines {
            push_str(&mut out, "dashed");
        } else {
            push_str(&mut out, "solid");
        }
        push_str(&mut out, "\", color=\"");
        push_str(&mut out, edge.color.as_str());
        push_str(&mut out, "\"];\n");
        proof {
            assert(out@ =~= mid + dot_edges(graph.edges@.take(e as int + 1), graph.nodes@));
        }
        e = e + 1;
    }
    proof {
        assert(graph.edges@.take(graph.edges@.len() as int) =~= graph.edges@);
    }
    push_str(&mut out, "}\n");
    proof {
        assert(out@ =~= dot_text(*graph, texts(options@)));
    }
    chars_to_string(out.as_slice())
}

/// The TGF node lines: node `i` is numbered `i + 1`.
pub open spec fn tgf_nodes(vs: Seq<VisualNode>) -> Seq<char>
    decreases vs.len(),
{
    if vs.len() == 0 {
        Seq::empty()
    } else {
        tgf_nodes(vs.drop_last()) + decimal(vs.len()) + " "@ + vs.last().label@ + "\n"@
    }
}

/// The TGF line of an edge: `U` for uses edges, `D` for the others.
pub open spec fn tgf_edge(e: VisualEdge) -> Seq<char> {
    let tag = if e.flavor@ == "uses"@ {
        "U"@
    } else {
        "D"@
    };
    decimal((e.source_idx + 1) as nat) + " "@ + decimal((e.target_idx + 1) as nat) + " "@ + tag + "\n"@
}

/// The TGF lines of the edges `es`.
pub open spec fn tgf_edges(es: Seq<VisualEdge>) -> Seq<char>
    decreases es.len(),
{
    if es.len() == 0 {
        Seq::empty()
    } else {
        tgf_edges(es.drop_last()) + tgf_edge(es.last())
    }
}

/// The whole TGF text: nodes, `#`, edges.
pub open spec fn tgf_text(g: VisualGraph) -> Seq<char> {
    tgf_nodes(g.nodes@) + "#\n"@ + tgf_edges(g.edges@)
}

/// A TGF edge line, with the newline before it: the source and target
/// numbers (counted from 1), then `U` for a uses edge or `D` otherwise.
pub open spec fn tgf_line_start(src: nat, tgt: nat, uses: bool) -> Seq<char> {
    "\n"@ + decimal(src) + " "@ + decimal(tgt) + " "@ + (if uses {
        "U"@
    } else {
        "D"@
    }) + "\n"@
}

/// `s` holds the TGF line of edge `e`.
pub open spec fn has_tgf_line(s: Seq<char>, e: VisualEdge) -> bool {
    occurs(s, tgf_line_start((e.source_idx + 1) as nat, (e.target_idx + 1) as nat, e.flavor@ == "uses"@))
}

proof fn lemma_tgf_edges_lines(h: Seq<char>, es: Seq<VisualEdge>)
    requires
        h.len() > 0,
        h.last() == '\n',
    ensures
        (h + tgf_edges(es)).len() > 0,
        (h + tgf_edges(es)).last() == '\n',
        forall|k: int|
            0 <= k < es.len() ==> #[trigger] has_tgf_line(h + tgf_edges(es), es[k]),
    decreases es.len(),
{
    if es.len() == 0 {
        assert(h + tgf_edges(es) =~= h);
    } else {
        let pre = es.drop_last();
        lemma_tgf_edges_lines(h, pre);
        let xx = h + tgf_edges(pre);
        let e = es.last();
        let d = tgf_edge(e);
        assert(h + tgf_edges(es) =~= xx + d);
        let tag = if e.flavor@ == "uses"@ {
            "U"@
        } else {
            "D"@
        };
        let head = decimal((e.source_idx + 1) as nat) + " "@ + decimal((e.target_idx + 1) as nat) + " "@;
        assert(d =~= head + (tag + "\n"@));
        reveal_strlit("\n");
        assert(d.last() == '\n');
        assert((xx + d).last() == d.last());
        assert forall|k: int| 0 <= k < es.len() implies #[trigger] has_tgf_line(h + tgf_edges(es), es[k]) by {
            let x = tgf_line_start((es[k].source_idx + 1) as nat, (es[k].target_idx + 1) as nat, es[k].flavor@ == "uses"@);
            if k < es.len() - 1 {
                assert(es[k] == pre[k]);
                assert(has_tgf_line(xx, pre[k]));
                let p = choose|p: int| occurs_at(xx, x, p);
                lemma_occurs_left(xx, d, x, p);
                assert(occurs_at(h + tgf_edges(es), x, p));
            } else {
                let p = xx.len() - 1;
                assert(es[k] == e);
                assert(x =~= seq!['\n'] + d);
                assert((xx + d).subrange(p, p + x.len()) =~= seq![xx.last()] + d);
                assert(occurs_at(xx + d, x, p));
                assert(occurs_at(h + tgf_edges(es), x, p));
            }
        }
    }
}

/// Every edge of the visual graph has its line in the TGF text: the
/// number of its source node, the number of its target node (nodes
/// counted from 1), then `U` for a uses edge or `D` otherwise.
pub proof fn lemma_tgf_edge_lines(g: VisualGraph)
    ensures
        forall|k: int|
            0 <= k < g.edges@.len() ==> #[trigger] has_tgf_line(tgf_text(g), g.edges@[k]),
{
    let h = tgf_nodes(g.nodes@) + "#\n"@;
    reveal_strlit("#\n");
    assert(h.last() == '\n');
    lemma_tgf_edges_lines(h, g.edges@);
    assert(tgf_text(g) =~= h + tgf_edges(g.edges@));
}

/// Render the visual graph in Trivial Graph Format, nodes numbered from 1.
pub fn write_tgf(graph: &VisualGraph) -> (r: String)
    requires
        graph.wf(),
    ensures
        r@ == tgf_text(*graph),
{
    let mut out: Vec<char> = Vec::new();
    let mut i: usize = 0;
    proof {
        assert(graph.nodes@.take(0) =~= Seq::<VisualNode>::empty());
        assert(out@ =~= tgf_nodes(graph.nodes@.take(0)));
    }
    while i < graph.nodes.len()
        invariant
            i <= graph.nodes@.len(),
            out@ == tgf_nodes(graph.nodes@.take(i as int)),
        decreases graph.nodes.len() - i,
    {
        proof {
            assert(graph.nodes@.take(i as int + 1).drop_last() =~= graph.nodes@.take(i as int));
        }
        let d = decimal_chars(i + 1);
        push_all(&mut out, d.as_slice());
        push_str(&mut out, " ");
        push_str(&mut out, graph.nodes[i].label.as_str());
        push_str(&mut out, "\n");
        proof {
            assert(out@ =~= tgf_nodes(graph.nodes@.take(i as int + 1)));
        }
        i = i + 1;
    }
    proof {
        assert(graph.nodes@.take(graph.nodes@.len() as int) =~= graph.nodes@);
    }
    push_str(&mut out, "#\n");
    let ghost mid = out@;
    let mut e: usize = 0;
    proof {
        assert(graph.edges@.take(0) =~= Seq::<VisualEdge>::empty());
    }
    while e < graph.edges.len()
        invariant
            graph.wf(),
            e <= graph.edges@.len(),
            out@ == mid + tgf_edges(graph.edges@.take(e as int)),
        decreases graph.edges.len() - e,
    {
        let edge = &graph.edges[e];
        proof {
            assert(graph.edges@.take(e as int + 1).drop_last() =~= graph.edges@.take(e as int));
            assert(edge.source_idx < graph.nodes@.len());
            assert(edge.target_idx < graph.nodes@.len());
            assert(graph.nodes@.len() == graph.nodes.len());
        }
        let fc = str_to_chars(edge.flavor.as_str());
        let uv = vec!['u', 's', 'e', 's'];
        proof {
            reveal_strlit("uses");
            assert(uv@ =~= "uses"@);
        }
        let is_uses = chars_eq(fc.as_slice(), uv.as_slice());
        let ds = decimal_chars(edge.source_idx + 1);
        push_all(&mut out, ds.as_slice());
        push_str(&mut out, " ");
        let dt = decimal_chars(edge.target_idx + 1);
        push_all(&mut out, dt.as_slice());
        push_str(&mut out, " ");
        if is_uses {
            push_str(&mut out, "U");
        } else {
            push_str(&mut out, "D");
        }
        push_str(&mut out, "\n");
        proof {
            assert(out@ =~= mid + tgf_edges(graph.edges@.take(e as int + 1)));
        }
        e = e + 1;
    }
    proof {
        assert(graph.edges@.take(graph.edges@.len() as int) =~= graph.edges@);
    }
    chars_to_string(out.as_slice())
}

/// A line of the text list: source label, tag, target label.
pub type TextLine = (Seq<char>, Seq<char>, Seq<char>);

/// The text line of an edge between `nodes`: tag `D` for defines edges,
/// `U` for the others.
pub open spec fn text_line(e: VisualEdge, nodes: Seq<VisualNode>) -> TextLine {
    (
        nodes[e.source_idx as int].label@,
        if e.flavor@ == "defines"@ {
            "D"@
        } else {
            "U"@
        },
        nodes[e.target_idx as int].label@,
    )
}

/// Text line order: by source, then tag, then target.
pub open spec fn line_less(a: TextLine, b: TextLine) -> bool {
    seq_less(a.0, b.0) || (a.0 == b.0 && (seq_less(a.1, b.1) || (a.1 == b.1 && seq_less(a.2, b.2))))
}

/// The text of sorted lines: each source once, before its targets.
pub open spec fn text_out(ts: Seq<TextLine>) -> Seq<char>
    decreases ts.len(),
{
    if ts.len() == 0 {
        Seq::empty()
    } else {
        let t = ts.last();
        let head = if ts.len() == 1 || ts[ts.len() - 2].0 != t.0 {
            t.0 + "\n"@
        } else {
            Seq::empty()
        };
        text_out(ts.drop_last()) + head + "    ["@ + t.1 + "] "@ + t.2 + "\n"@
    }
}

/// `perm` lists the edges of `g` each once, in text line order, and `out`
/// is the text of their lines.
pub open spec fn text_listing(g: VisualGraph, perm: Seq<usize>, out: Seq<char>) -> bool {
    let lines = Seq::new(perm.len(), |k: int| text_line(g.edges@[perm[k] as int], g.nodes@));
    &&& perm.len() == g.edges@.len()
    &&& forall|k: int| 0 <= k < perm.len() ==> #[trigger] perm[k] < g.edges@.len()
    &&& forall|a: int, b: int| 0 <= a < perm.len() && 0 <= b < perm.len() && a != b ==> #[trigger] perm[a] != #[trigger] perm[b]
    &&& forall|a: int, b: int| 0 <= a < b < perm.len() ==> !line_less(#[trigger] lines[b], #[trigger] lines[a])
    &&& out == text_out(lines)
}

/// The sort key of a text line.
pub open spec fn line_key_v(t: TextLine) -> Seq<KeyV> {
    seq![KeyV::Text(t.0), KeyV::Text(t.1), KeyV::Text(t.2)]
}

proof fn lemma_line_key_order(a: TextLine, b: TextLine)
    ensures
        key_less(line_key_v(a), line_key_v(b)) == line_less(a, b),
{
    let ka = line_key_v(a);
    let kb = line_key_v(b);
    let a1 = ka.drop_first();
    let b1 = kb.drop_first();
    let a2 = a1.drop_first();
    let b2 = b1.drop_first();
    assert(a1[0] == ka[1] && b1[0] == kb[1]);
    assert(a2[0] == ka[2] && b2[0] == kb[2]);
    assert(a2.drop_first().len() == 0 && b2.drop_first().len() == 0);
    assert(key_less(a2.drop_first(), b2.drop_first()) == false);
    assert(key_less(a2, b2) == part_less(ka[2], kb[2]));
    assert(key_less(a1, b1) == (part_less(ka[1], kb[1]) || (ka[1] == kb[1] && key_less(a2, b2))));
    assert(key_less(ka, kb) == (part_less(ka[0], kb[0]) || (ka[0] == kb[0] && key_less(a1, b1))));
    lemma_part_cases(ka[0], kb[0]);
    lemma_part_cases(ka[1], kb[1]);
    lemma_part_cases(ka[2], kb[2]);
}

/// The line of the text listing for an edge of `g`: its tag (`D` for a
/// defines edge, `U` otherwise) and the label of its target.
pub open spec fn listed_edge_line(g: VisualGraph, k: int) -> Seq<char> {
    "    ["@ + (if g.edges@[k].flavor@ == "defines"@ {
        "D"@
    } else {
        "U"@
    }) + "] "@ + g.nodes@[g.edges@[k].target_idx as int].label@ + "\n"@
}

/// `x` occurs somewhere in `s`.
pub open spec fn occurs(s: Seq<char>, x: Seq<char>) -> bool {
    exists|p: int| occurs_at(s, x, p)
}

proof fn lemma_occurs_right(a: Seq<char>, b: Seq<char>, x: Seq<char>, p: int)
    requires
        occurs_at(b, x, p),
    ensures
        occurs_at(a + b, x, a.len() + p),
{
    assert((a + b).subrange(a.len() + p, a.len() + p + x.len()) =~= b.subrange(p, p + x.len()));
}

proof fn lemma_text_out_lines(ts: Seq<TextLine>)
    ensures
        forall|k: int|
            0 <= k < ts.len() ==> occurs(text_out(ts), "    ["@ + (#[trigger] ts[k]).1 + "] "@ + ts[k].2 + "\n"@),
    decreases ts.len(),
{
    if ts.len() > 0 {
        let pre = ts.drop_last();
        lemma_text_out_lines(pre);
        let t = ts.last();
        let head = if ts.len() == 1 || ts[ts.len() - 2].0 != t.0 {
            t.0 + "\n"@
        } else {
            Seq::empty()
        };
        let line = "    ["@ + t.1 + "] "@ + t.2 + "\n"@;
        let a = text_out(pre) + head;
        assert(text_out(ts) =~= a + line);
        assert forall|k: int| 0 <= k < ts.len() implies occurs(text_out(ts), "    ["@ + (#[trigger] ts[k]).1 + "] "@ + ts[k].2 + "\n"@) by {
            let x = "    ["@ + ts[k].1 + "] "@ + ts[k].2 + "\n"@;
            if k < ts.len() - 1 {
                assert(ts[k] == pre[k]);
                assert(occurs(text_out(pre), "    ["@ + pre[k].1 + "] "@ + pre[k].2 + "\n"@));
                let p = choose|p: int| occurs_at(text_out(pre), "    ["@ + pre[k].1 + "] "@ + pre[k].2 + "\n"@, p);
                lemma_occurs_left(text_out(pre), head + line, x, p);
                assert(text_out(ts) =~= text_out(pre) + (head + line));
                assert(occurs_at(text_out(ts), x, p));
            } else {
                assert(line.subrange(0, line.len() as int) =~= line);
                assert(occurs_at(line, x, 0));
                lemma_occurs_right(a, line, x, 0);
                assert(occurs_at(text_out(ts), x, a.len() as int));
            }
        }
    }
}

/// `x` starts a line of `s`.
pub open spec fn line_starts(s: Seq<char>, x: Seq<char>) -> bool {
    exists|p: int| occurs_at(s, x, p) && (p == 0 || s[p - 1] == '\n')
}

proof fn lemma_text_out_headers(ts: Seq<TextLine>)
    ensures
        ends_line(text_out(ts)),
        forall|k: int| 0 <= k < ts.len() ==> line_starts(text_out(ts), (#[trigger] ts[k]).0 + "\n"@),
    decreases ts.len(),
{
    if ts.len() > 0 {
        let pre = ts.drop_last();
        lemma_text_out_headers(pre);
        let t = ts.last();
        let head = if ts.len() == 1 || ts[ts.len() - 2].0 != t.0 {
            t.0 + "\n"@
        } else {
            Seq::empty()
        };
        let line = "    ["@ + t.1 + "] "@ + t.2 + "\n"@;
        let tp = text_out(pre);
        let a = tp + head;
        assert(text_out(ts) =~= tp + (head + line));
        reveal_strlit("\n");
        assert(line.last() == '\n');
        assert(text_out(ts).last() == line.last());
        assert forall|k: int| 0 <= k < ts.len() implies line_starts(text_out(ts), (#[trigger] ts[k]).0 + "\n"@) by {
            let x = ts[k].0 + "\n"@;
            if k < ts.len() - 1 {
                assert(ts[k] == pre[k]);
                assert(line_starts(tp, pre[k].0 + "\n"@));
                let p = choose|p: int| occurs_at(tp, x, p) && (p == 0 || tp[p - 1] == '\n');
                lemma_occurs_left(tp, head + line, x, p);
                if p > 0 {
                    assert(text_out(ts)[p - 1] == tp[p - 1]);
                }
                assert(occurs_at(text_out(ts), x, p) && (p == 0 || text_out(ts)[p - 1] == '\n'));
            } else if head.len() > 0 {
                assert(head == x);
                let p = tp.len() as int;
                assert(occurs_at(head + line, x, 0)) by {
                    assert((head + line).subrange(0, x.len() as int) =~= x);
                }
                lemma_occurs_right(tp, head + line, x, 0);
                if p > 0 {
                    assert(text_out(ts)[p - 1] == tp.last());
                }
                assert(occurs_at(text_out(ts), x, p) && (p == 0 || text_out(ts)[p - 1] == '\n'));
            } else {
                let j = ts.len() - 2;
                assert(ts[j].0 == t.0);
                assert(ts[j] == pre[j]);
                assert(line_starts(tp, pre[j].0 + "\n"@));
                let p = choose|p: int| occurs_at(tp, x, p) && (p == 0 || tp[p - 1] == '\n');
                lemma_occurs_left(tp, head + line, x, p);
                if p > 0 {
                    assert(text_out(ts)[p - 1] == tp[p - 1]);
                }
                assert(occurs_at(text_out(ts), x, p) && (p == 0 || text_out(ts)[p - 1] == '\n'));
            }
        }
    }
}

/// Every edge's source label stands on a line of its own in the text
/// output.
pub proof fn lemma_text_source_lines(g: VisualGraph, perm: Seq<usize>, out: Seq<char>)
    requires
        text_listing(g, perm, out),
    ensures
        forall|k: int| 0 <= k < g.edges@.len() ==> line_starts(out, g.nodes@[(#[trigger] g.edges@[k]).source_idx as int].label@ + "\n"@),
{
    let lines = Seq::new(perm.len(), |k: int| text_line(g.edges@[perm[k] as int], g.nodes@));
    lemma_text_out_headers(lines);
    assert forall|k: int| 0 <= k < g.edges@.len() implies line_starts(out, g.nodes@[(#[trigger] g.edges@[k]).source_idx as int].label@ + "\n"@) by {
        lemma_perm_onto(perm, g.edges@.len() as int, k);
        let i = choose|i: int| 0 <= i < perm.len() && perm[i] == k;
        assert(lines[i] == text_line(g.edges@[k], g.nodes@));
        assert(line_starts(text_out(lines), lines[i].0 + "\n"@));
    }
}

/// A list of `n` distinct numbers below `n` holds each of them.
proof fn lemma_perm_onto(perm: Seq<usize>, n: int, j: int)
    requires
        perm.len() == n,
        forall|k: int| 0 <= k < perm.len() ==> #[trigger] perm[k] < n,
        forall|a: int, b: int| 0 <= a < perm.len() && 0 <= b < perm.len() && a != b ==> #[trigger] perm[a] != #[trigger] perm[b],
        0 <= j < n,
    ensures
        exists|k: int| 0 <= k < perm.len() && perm[k] == j,
{
    let pi = perm.map_values(|x: usize| x as int);
    assert forall|a: int, b: int| 0 <= a < pi.len() && 0 <= b < pi.len() && a != b implies pi[a] != pi[b] by {
        assert(perm[a] != perm[b]);
    }
    assert(pi.no_duplicates());
    pi.unique_seq_to_set();
    if !(exists|k: int| 0 <= k < perm.len() && perm[k] == j) {
        let r = vstd::set_lib::set_int_range(0, n).remove(j);
        vstd::set_lib::lemma_int_range(0, n);
        assert forall|x: int| pi.to_set().contains(x) implies r.contains(x) by {
            let k = choose|k: int| 0 <= k < pi.len() && pi[k] == x;
            assert(perm[k] as int == x);
        }
        vstd::set_lib::lemma_len_subset(pi.to_set(), r);
        assert(false);
    }
}

/// Every edge of the visual graph is listed in the text output: the line
/// with its tag (`D` for a defines edge, `U` otherwise) and its target's
/// label.
pub proof fn lemma_text_edge_lines(g: VisualGraph, perm: Seq<usize>, out: Seq<char>)
    requires
        text_listing(g, perm, out),
    ensures
        forall|k: int| 0 <= k < g.edges@.len() ==> occurs(out, #[trigger] listed_edge_line(g, k)),
{
    let lines = Seq::new(perm.len(), |k: int| text_line(g.edges@[perm[k] as int], g.nodes@));
    lemma_text_out_lines(lines);
    assert forall|k: int| 0 <= k < g.edges@.len() implies occurs(out, #[trigger] listed_edge_line(g, k)) by {
        lemma_perm_onto(perm, g.edges@.len() as int, k);
        let i = choose|i: int| 0 <= i < perm.len() && perm[i] == k;
        let t = lines[i];
        assert(t == text_line(g.edges@[k], g.nodes@));
        assert("    ["@ + t.1 + "] "@ + t.2 + "\n"@ == listed_edge_line(g, k));
        assert(occurs(text_out(lines), "    ["@ + lines[i].1 + "] "@ + lines[i].2 + "\n"@));
    }
}

/// Render the visual graph as a plain-text dependency list: each source
/// label once, followed by its edges as `    [D] target` or `    [U]
/// target`, sorted by source, then tag, then target.
#[verifier::spinoff_prover]
pub fn write_text(graph: &VisualGraph) -> (r: String)
    requires
        graph.wf(),
    ensures
        exists|perm: Seq<usize>| text_listing(*graph, perm, r@),
{
    let mut items: Vec<(Vec<KeyPart>, usize)> = Vec::new();
    let mut e: usize = 0;
    while e < graph.edges.len()
        invariant
            graph.wf(),
            e <= graph.edges@.len(),
            items@.len() == e,
            forall|j: int| 0 <= j < e ==> #[trigger] items@[j].1 == j && key_view(items@[j].0@) == line_key_v(
                text_line(graph.edges@[j], graph.nodes@),
            ),
        decreases graph.edges.len() - e,
    {
        let edge = &graph.edges[e];
        proof {
            assert(edge.source_idx < graph.nodes@.len());
        }
        let fc = str_to_chars(edge.flavor.as_str());
        let dv = vec!['d', 'e', 'f', 'i', 'n', 'e', 's'];
        proof {
            reveal_strlit("defines");
            assert(dv@ =~= "defines"@);
        }
        let tag = if chars_eq(fc.as_slice(), dv.as_slice()) {
            let t = vec!['D'];
            proof {
                reveal_strlit("D");
                assert(t@ =~= "D"@);
            }
            t
        } else {
            let t = vec!['U'];
            proof {
                reveal_strlit("U");
                assert(t@ =~= "U"@);
            }
            t
        };
        let mut key: Vec<KeyPart> = Vec::new();
        key.push(KeyPart::Text(str_to_chars(graph.nodes[edge.source_idx].label.as_str())));
        key.push(KeyPart::Text(tag));
        key.push(KeyPart::Text(str_to_chars(graph.nodes[edge.target_idx].label.as_str())));
        proof {
            assert(key_view(key@) =~= line_key_v(text_line(graph.edges@[e as int], graph.nodes@)));
        }
        let ghost i0 = items@;
        items.push((key, e));
        proof {
            assert forall|j: int| 0 <= j < e + 1 implies #[trigger] items@[j].1 == j && key_view(items@[j].0@) == line_key_v(
                text_line(graph.edges@[j], graph.nodes@),
            ) by {
                if j < e {
                    assert(items@[j] == i0[j]);
                }
            }
        }
        e = e + 1;
    }
    let ghost before = items@;
    proof {
        assert(crate::order::ids_distinct(before)) by {
            assert forall|a: int, b: int| 0 <= a < before.len() && 0 <= b < before.len() && a != b implies #[trigger] before[a].1 != #[trigger] before[b].1 by {
                assert(before[a].1 == a && before[b].1 == b);
            }
        }
    }
    let sorted = sort_by_key(items);
    proof {
        crate::order::lemma_reorder_ids(before, sorted@);
    }
    let ghost perm = Seq::new(sorted@.len(), |k: int| sorted@[k].1);
    let ghost lines = Seq::new(perm.len(), |k: int| text_line(graph.edges@[perm[k] as int], graph.nodes@));
    proof {
        assert forall|k: int| 0 <= k < sorted@.len() implies #[trigger] perm[k] < graph.edges@.len() && key_view(
            sorted@[k].0@,
        ) == line_key_v(lines[k]) by {
            assert(before.contains(sorted@[k]));
            let p = choose|p: int| 0 <= p < before.len() && before[p] == sorted@[k];
            assert(before[p].1 == p);
        }
    }
    let mut out: Vec<char> = Vec::new();
    let mut k: usize = 0;
    let mut prev: Vec<char> = Vec::new();
    proof {
        assert(lines.take(0) =~= Seq::<TextLine>::empty());
    }
    while k < sorted.len()
        invariant
            graph.wf(),
            k <= sorted@.len(),
            perm.len() == sorted@.len(),
            lines.len() == perm.len(),
            forall|k: int| 0 <= k < sorted@.len() ==> #[trigger] perm[k] < graph.edges@.len() && key_view(
                sorted@[k].0@,
            ) == line_key_v(lines[k]),
            forall|j: int| 0 <= j < sorted@.len() ==> #[trigger] perm[j] == sorted@[j].1,
            forall|j: int| 0 <= j < perm.len() ==> #[trigger] lines[j] == text_line(graph.edges@[perm[j] as int], graph.nodes@),
            k > 0 ==> prev@ == lines[k - 1].0,
            out@ == text_out(lines.take(k as int)),
        decreases sorted.len() - k,
    {
        let j = sorted[k].1;
        proof {
            assert(perm[k as int] == j);
        }
        let edge = &graph.edges[j];
        proof {
            assert(edge.source_idx < graph.nodes@.len());
            assert(lines.take(k as int + 1).drop_last() =~= lines.take(k as int));
            assert(lines.take(k as int + 1).last() == lines[k as int]);
        }
        let src = str_to_chars(graph.nodes[edge.source_idx].label.as_str());
        let fresh = k == 0 || !chars_eq(prev.as_slice(), src.as_slice());
        if fresh {
            push_all(&mut out, src.as_slice());
            push_str(&mut out, "\n");
        }
        push_str(&mut out, "    [");
        match &sorted[k].0[1] {
            KeyPart::Text(t) => push_all(&mut out, t.as_slice()),
            KeyPart::Num(_) => {},
        }
        push_str(&mut out, "] ");
        push_str(&mut out, graph.nodes[edge.target_idx].label.as_str());
        push_str(&mut out, "\n");
        proof {
            assert(out@ =~= text_out(lines.take(k as int + 1)));
        }
        prev = src;
        k = k + 1;
    }
    proof {
        assert(lines.take(lines.len() as int) =~= lines);
        assert forall|a: int, b: int| 0 <= a < b < perm.len() implies !line_less(#[trigger] lines[b], #[trigger] lines[a]) by {
            lemma_line_key_order(lines[b], lines[a]);
        }
        assert forall|a: int, b: int| 0 <= a < perm.len() && 0 <= b < perm.len() && a != b implies #[trigger] perm[a] != #[trigger] perm[b] by {
            assert(sorted@[a].1 != sorted@[b].1);
        }
        assert(text_listing(*graph, perm, out@));
    }
    chars_to_string(out.as_slice())
}

} // verus!
