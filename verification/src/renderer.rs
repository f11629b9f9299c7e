//! The emitter: serializes a validated graph into DOT text,
//! deterministically. Nodes come out grouped by the phase table's order,
//! inside a group in discovery order, nodes of a phase the table does not
//! know after the groups, and edges in their retained order; `"` and `\`
//! in names are escaped. The whole text is pinned to `spec_emit`, a
//! function of the graph, the table and the name alone.
use vstd::prelude::*;
use vstd::string::{StrSliceExecFns, StringExecFns};
use crate::config::{has_key, lemma_key_index_of_match, spec_phase_color, Config};
use crate::document::{DocView, Document};
use crate::graph::Graph;
use crate::text::push_char;

verus! {

/// `s` with every `"` and `\` preceded by a backslash.
pub open spec fn spec_escape(s: Seq<char>) -> Seq<char>
    decreases s.len(),
{
    if s.len() == 0 {
        Seq::empty()
    } else {
        spec_escape(s.drop_last()) + (if s.last() == '"' || s.last() == '\\' {
            seq!['\\', s.last()]
        } else {
            seq![s.last()]
        })
    }
}

/// Escape quotes and backslashes, pinned to `spec_escape`.
pub fn escape(s: &str) -> (r: String)
    ensures
        r@ == spec_escape(s@),
{
    let n: usize = s.unicode_len();
    let mut out = String::new();
    let mut i: usize = 0;
    proof {
        assert(s@.subrange(0, 0) =~= Seq::<char>::empty());
    }
    while i < n
        invariant
            0 <= i <= n,
            n as nat == s@.len(),
            out@ == spec_escape(s@.subrange(0, i as int)),
        decreases n - i,
    {
        let ghost pre = out@;
        let c = s.get_char(i);
        if c == '"' || c == '\\' {
            push_char(&mut out, '\\');
            push_char(&mut out, c);
            proof {
                assert(out@ =~= pre + seq!['\\', c]);
            }
        } else {
            push_char(&mut out, c);
            proof {
                assert(out@ =~= pre + seq![c]);
            }
        }
        proof {
            assert(s@.subrange(0, i + 1).drop_last() =~= s@.subrange(0, i as int));
            assert(s@.subrange(0, i + 1).last() == s@[i as int]);
        }
        i = i + 1;
    }
    proof {
        assert(s@.subrange(0, n as int) =~= s@);
    }
    out
}

/// The node statement for one document with its fill color.
pub open spec fn node_stmt(d: DocView, color: Seq<char>) -> Seq<char> {
    "  \""@ + spec_escape(d.id) + "\" [label=\""@ + spec_escape(d.title) + "\", fillcolor=\""@
        + spec_escape(color) + "\"];\n"@
}

/// The edge statement from a prerequisite to its dependent.
pub open spec fn edge_stmt(p: DocView, c: DocView) -> Seq<char> {
    "  \""@ + spec_escape(p.id) + "\" -> \""@ + spec_escape(c.id) + "\";\n"@
}

/// The opening of the graph description.
pub open spec fn dot_header(name: Seq<char>) -> Seq<char> {
    "digraph \""@ + spec_escape(name) + "\" {\n  rankdir=TB;\n  node [shape=box, style=filled];\n"@
}

/// Node statements among the first `i` nodes whose phase is `phase`.
pub open spec fn nodes_for_phase(
    nodes: Seq<DocView>,
    es: Seq<(Seq<char>, Seq<char>)>,
    phase: Seq<char>,
    i: int,
) -> Seq<char>
    decreases i,
{
    if i <= 0 {
        Seq::empty()
    } else {
        nodes_for_phase(nodes, es, phase, i - 1) + (if nodes[i - 1].phase == phase {
            node_stmt(nodes[i - 1], spec_phase_color(es, phase))
        } else {
            Seq::empty()
        })
    }
}

/// Node statements grouped under the first `k` table phases, in order.
pub open spec fn phase_sections(
    nodes: Seq<DocView>,
    es: Seq<(Seq<char>, Seq<char>)>,
    k: int,
) -> Seq<char>
    decreases k,
{
    if k <= 0 {
        Seq::empty()
    } else {
        phase_sections(nodes, es, k - 1) + nodes_for_phase(nodes, es, es[k - 1].0, nodes.len() as int)
    }
}

/// Node statements among the first `i` nodes whose phase the table does
/// not know.
pub open spec fn leftover_section(
    nodes: Seq<DocView>,
    es: Seq<(Seq<char>, Seq<char>)>,
    i: int,
) -> Seq<char>
    decreases i,
{
    if i <= 0 {
        Seq::empty()
    } else {
        leftover_section(nodes, es, i - 1) + (if !has_key(es, nodes[i - 1].phase) {
            node_stmt(nodes[i - 1], spec_phase_color(es, nodes[i - 1].phase))
        } else {
            Seq::empty()
        })
    }
}

/// Edge statements for the first `j` edges, in retained order.
pub open spec fn edge_section(nodes: Seq<DocView>, edges: Seq<(int, int)>, j: int) -> Seq<char>
    decreases j,
{
    if j <= 0 {
        Seq::empty()
    } else {
        edge_section(nodes, edges, j - 1) + edge_stmt(
            nodes[edges[j - 1].0],
            nodes[edges[j - 1].1],
        )
    }
}

/// The whole graph description: identical inputs give identical text.
pub open spec fn spec_emit(
    name: Seq<char>,
    nodes: Seq<DocView>,
    edges: Seq<(int, int)>,
    es: Seq<(Seq<char>, Seq<char>)>,
) -> Seq<char> {
    dot_header(name) + phase_sections(nodes, es, es.len() as int) + leftover_section(
        nodes,
        es,
        nodes.len() as int,
    ) + edge_section(nodes, edges, edges.len() as int) + "}\n"@
}

/// Append one node statement.
fn append_node_stmt(out: &mut String, d: &Document, color: &str)
    ensures
        final(out)@ == old(out)@ + node_stmt(d@, color@),
{
    let ghost pre = out@;
    out.append("  \"");
    let eid = escape(d.id.as_str());
    out.append(eid.as_str());
    out.append("\" [label=\"");
    let eti = escape(d.title.as_str());
    out.append(eti.as_str());
    out.append("\", fillcolor=\"");
    let eco = escape(color);
    out.append(eco.as_str());
    out.append("\"];\n");
    proof {
        assert(out@ =~= pre + node_stmt(d@, color@));
    }
}

/// Append one edge statement.
fn append_edge_stmt(out: &mut String, p: &Document, c: &Document)
    ensures
        final(out)@ == old(out)@ + edge_stmt(p@, c@),
{
    let ghost pre = out@;
    out.append("  \"");
    let ep = escape(p.id.as_str());
    out.append(ep.as_str());
    out.append("\" -> \"");
    let ec = escape(c.id.as_str());
    out.append(ec.as_str());
    out.append("\";\n");
    proof {
        assert(out@ =~= pre + edge_stmt(p@, c@));
    }
}

/// Serialize the graph, pinned to `spec_emit` over the graph name, the
/// node list, the edge list and the phase table.
#[verifier::rlimit(60)]
pub fn to_dot(graph: &Graph, config: &Config) -> (r: String)
    requires
        config.wf(),
        graph.wf(),
    ensures
        r@ == spec_emit(
            config.root_key@,
            graph.node_views(),
            graph.edge_list(),
            config.entries(),
        ),
{
    let ghost nv = graph.node_views();
    let ghost es = config.entries();
    let nlen = graph.nodes.len();
    let mut out = String::new();
    out.append("digraph \"");
    let ename = escape(config.root_key.as_str());
    out.append(ename.as_str());
    out.append("\" {\n  rankdir=TB;\n  node [shape=box, style=filled];\n");
    proof {
        assert(out@ =~= dot_header(config.root_key@));
    }
    // nodes, grouped by the table's phases in its order
    let phases = config.phase_list();
    let mut k: usize = 0;
    while k < phases.len()
        invariant
            0 <= k <= phases@.len(),
            config.wf(),
            graph.wf(),
            nv == graph.node_views(),
            es == config.entries(),
            nlen == graph.nodes@.len(),
            phases@.map_values(|p: (String, String)| (p.0@, p.1@)) == es,
            phases@.len() == es.len(),
            out@ == dot_header(config.root_key@) + phase_sections(nv, es, k as int),
        decreases phases@.len() - k,
    {
        let ghost base = dot_header(config.root_key@) + phase_sections(nv, es, k as int);
        let pname: &str = phases[k].0.as_str();
        let pcolor: &str = phases[k].1.as_str();
        proof {
            assert(phases@.map_values(|p: (String, String)| (p.0@, p.1@))[k as int] == (
            phases@[k as int].0@,
            phases@[k as int].1@,
            ));
            assert((pname@, pcolor@) == es[k as int]);
            lemma_key_index_of_match(es, pname@, k as int);
            assert(spec_phase_color(es, pname@) == pcolor@);
        }
        let mut i: usize = 0;
        while i < nlen
            invariant
                0 <= i <= nlen,
                0 <= k < es.len(),
                config.wf(),
                graph.wf(),
                nv == graph.node_views(),
                es == config.entries(),
                nlen == graph.nodes@.len(),
                pname@ == es[k as int].0,
                spec_phase_color(es, pname@) == pcolor@,
                base == dot_header(config.root_key@) + phase_sections(nv, es, k as int),
                out@ == base + nodes_for_phase(nv, es, pname@, i as int),
            decreases nlen - i,
        {
            let ghost sofar = nodes_for_phase(nv, es, pname@, i as int);
            proof {
                assert(nv[i as int] == graph.nodes@[i as int]@);
            }
            if crate::text::str_eq(graph.nodes[i].phase.as_str(), pname) {
                append_node_stmt(&mut out, &graph.nodes[i], pcolor);
                proof {
                    assert(out@ =~= base + (sofar + node_stmt(nv[i as int], spec_phase_color(
                        es,
                        pname@,
                    ))));
                }
            }
            i = i + 1;
        }
        proof {
            assert(nodes_for_phase(nv, es, pname@, nlen as int) == nodes_for_phase(
                nv,
                es,
                es[k as int].0,
                nv.len() as int,
            ));
            assert(out@ =~= dot_header(config.root_key@) + phase_sections(nv, es, k as int + 1));
        }
        k = k + 1;
    }
    // nodes whose phase the table does not know, in discovery order
    let ghost base2 = dot_header(config.root_key@) + phase_sections(nv, es, es.len() as int);
    let mut i: usize = 0;
    while i < nlen
        invariant
            0 <= i <= nlen,
            config.wf(),
            graph.wf(),
            nv == graph.node_views(),
            es == config.entries(),
            nlen == graph.nodes@.len(),
            base2 == dot_header(config.root_key@) + phase_sections(nv, es, es.len() as int),
            out@ == base2 + leftover_section(nv, es, i as int),
        decreases nlen - i,
    {
        let ghost sofar = leftover_section(nv, es, i as int);
        proof {
            assert(nv[i as int] == graph.nodes@[i as int]@);
        }
        if !config.has_phase(graph.nodes[i].phase.as_str()) {
            let color = config.get_phase_color(graph.nodes[i].phase.as_str());
            append_node_stmt(&mut out, &graph.nodes[i], color.as_str());
            proof {
                assert(out@ =~= base2 + (sofar + node_stmt(nv[i as int], spec_phase_color(
                    es,
                    nv[i as int].phase,
                ))));
            }
        }
        i = i + 1;
    }
    // edges, in retained order
    let ghost base3 = base2 + leftover_section(nv, es, nlen as int);
    let mut j: usize = 0;
    while j < graph.edges.len()
        invariant
            0 <= j <= graph.edges@.len(),
            config.wf(),
            graph.wf(),
            nv == graph.node_views(),
            es == config.entries(),
            nlen == graph.nodes@.len(),
            base3 == dot_header(config.root_key@) + phase_sections(nv, es, es.len() as int)
                + leftover_section(nv, es, nlen as int),
            out@ == base3 + edge_section(nv, graph.edge_list(), j as int),
        decreases graph.edges@.len() - j,
    {
        let ghost sofar = edge_section(nv, graph.edge_list(), j as int);
        let e = graph.edges[j];
        proof {
            assert(graph.edge_list()[j as int] == (e.0 as int, e.1 as int));
            assert(nv[e.0 as int] == graph.nodes@[e.0 as int]@);
            assert(nv[e.1 as int] == graph.nodes@[e.1 as int]@);
        }
        let pn = &graph.nodes[e.0];
        let cn = &graph.nodes[e.1];
        append_edge_stmt(&mut out, pn, cn);
        proof {
            assert(out@ =~= base3 + (sofar + edge_stmt(nv[e.0 as int], nv[e.1 as int])));
        }
        j = j + 1;
    }
    out.append("}\n");
    proof {
        assert(out@ =~= spec_emit(config.root_key@, nv, graph.edge_list(), es));
    }
    out
}

} // verus!
