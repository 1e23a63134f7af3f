//! What holds of pictures of graphs.
use vstd::prelude::*;

use crate::graph::dag::{edge_list, edges_from, edges_of, root_id, Edge, GraphText};
use crate::graph::dot::{
    command_label, draw_file, draw_inputs, draw_outputs, draw_rule, edge_line, escape, hidden,
    hidden_edge, in_dir, label_of, link_look, named_dot, named_edges, named_nodes, node_line,
    node_look, node_name, numbered, picture_head, plain_dot, plain_edges, plain_node, plain_nodes,
    plain_style, DotOptions, Drawing, RuleRow,
};
use crate::ids::{ascending, ascending_lists};
use crate::text::texts;
use crate::types::{int_text, nat_text, LinkType, NodeType, TupId};

verus! {

/// Whether a text stands in another.
pub open spec fn holds(text: Seq<char>, part: Seq<char>) -> bool {
    exists|i: int|
        0 <= i && i + part.len() <= text.len() && #[trigger] text.skip(i).take(part.len() as int)
            == part
}

proof fn lemma_holds(a: Seq<char>, part: Seq<char>, b: Seq<char>)
    ensures
        holds(a + part + b, part),
{
    assert((a + part + b).skip(a.len() as int).take(part.len() as int) =~= part);
}

proof fn lemma_holds_around(a: Seq<char>, text: Seq<char>, b: Seq<char>, part: Seq<char>)
    requires
        holds(text, part),
    ensures
        holds(a + text + b, part),
        holds(text + b, part),
        holds(a + text, part),
{
    let i = choose|i: int|
        0 <= i && i + part.len() <= text.len() && #[trigger] text.skip(i).take(part.len() as int)
            == part;
    let k = part.len() as int;
    assert((a + text + b).skip(i + a.len()).take(k) =~= text.skip(i).take(k));
    assert((text + b).skip(i).take(k) =~= text.skip(i).take(k));
    assert((a + text).skip(i + a.len()).take(k) =~= text.skip(i).take(k));
}

/// In a label a backslash stands before each backslash and each quotation mark, and every other
/// character stays as it is.
pub proof fn labels_are_escaped(a: Seq<char>, c: char, b: Seq<char>)
    ensures
        escape(a + b) == escape(a) + escape(b),
        c == '"' || c == '\\' ==> escape(seq![c]) == seq!['\\', c],
        c != '"' && c != '\\' ==> escape(seq![c]) == seq![c],
        escape(Seq::empty()) == Seq::<char>::empty(),
    decreases b.len(),
{
    let one = seq![c];
    assert(one.drop_last() =~= Seq::empty());
    assert(one.last() == c);
    assert(escape(one.drop_last()) =~= Seq::empty());
    if c == '"' || c == '\\' {
        assert(escape(one) =~= seq!['\\', c]);
    } else {
        assert(escape(one) =~= seq![c]);
    }
    if b.len() == 0 {
        assert(a + b =~= a);
        assert(escape(a) + escape(b) =~= escape(a));
    } else {
        labels_are_escaped(a, c, b.drop_last());
        assert((a + b).drop_last() =~= a + b.drop_last());
        assert((a + b).last() == b.last());
        assert(escape(a + b) =~= escape(a) + escape(b));
    }
}

// ------------------------------------------------ edges

proof fn lemma_edges_from(g: GraphText, srcs: Seq<TupId>, e: Edge)
    ensures
        edges_from(g, srcs).contains(e) <==> srcs.contains(e.src) && (g.outgoing)(e.src).contains(
            (e.dest, e.style),
        ),
    decreases srcs.len(),
{
    if srcs.len() > 0 {
        let b = srcs.drop_last();
        let x = srcs.last();
        let links = (g.outgoing)(x);
        let before = edges_from(g, b);
        let here = edges_of(x, links);
        let all = edges_from(g, srcs);
        lemma_edges_from(g, b, e);
        assert(all == before + here);
        if all.contains(e) {
            let i = choose|i: int| 0 <= i < all.len() && all[i] == e;
            if i < before.len() {
                assert(before[i] == e);
                assert(before.contains(e));
                let k = choose|k: int| 0 <= k < b.len() && b[k] == e.src;
                assert(srcs[k] == e.src);
            } else {
                let k = i - before.len();
                assert(here[k] == e);
                assert(links[k] == (e.dest, e.style));
                assert(srcs[srcs.len() - 1] == e.src);
            }
        }
        if srcs.contains(e.src) && (g.outgoing)(e.src).contains((e.dest, e.style)) {
            let k = choose|k: int| 0 <= k < srcs.len() && srcs[k] == e.src;
            if k < b.len() {
                assert(b[k] == e.src);
                assert(before.contains(e));
                let i = choose|i: int| 0 <= i < before.len() && before[i] == e;
                assert(all[i] == e);
            } else {
                let i = choose|i: int| 0 <= i < links.len() && links[i] == (e.dest, e.style);
                assert(here[i] == e);
                assert(all[before.len() + i] == e);
            }
        }
    }
}

/// The list of edges holds the edges that leave the nodes of the graph, and no others.
pub proof fn all_edges_are_listed(g: GraphText, e: Edge)
    ensures
        edge_list(g).contains(e) <==> (g.outgoing)(e.src).contains((e.dest, e.style)),
{
    ascending_lists(g.sources());
    lemma_edges_from(g, ascending(g.sources()), e);
    if (g.outgoing)(e.src).contains((e.dest, e.style)) {
        assert(g.sources().contains(e.src));
    }
}

// ------------------------------------------------ pictures

proof fn lemma_plain_nodes(g: GraphText, ids: Seq<TupId>, i: int)
    requires
        0 <= i < ids.len(),
    ensures
        holds(plain_nodes(g, ids), plain_node(g, ids[i])),
    decreases ids.len(),
{
    let before = plain_nodes(g, ids.drop_last());
    let here = plain_node(g, ids.last());
    if i < ids.len() - 1 {
        assert(ids.drop_last()[i] == ids[i]);
        lemma_plain_nodes(g, ids.drop_last(), i);
        lemma_holds_around(Seq::empty(), before, here, plain_node(g, ids[i]));
    } else {
        lemma_holds(before, here, Seq::empty());
        assert(before + here + Seq::empty() =~= before + here);
    }
}

proof fn lemma_plain_edges(es: Seq<Edge>, i: int)
    requires
        0 <= i < es.len(),
        es[i].src != root_id(),
    ensures
        holds(plain_edges(es), edge_line(es[i], plain_style(es[i].style))),
    decreases es.len(),
{
    let line = edge_line(es[i], plain_style(es[i].style));
    let before = plain_edges(es.drop_last());
    if i < es.len() - 1 {
        assert(es.drop_last()[i] == es[i]);
        lemma_plain_edges(es.drop_last(), i);
        let e = es.last();
        let here = if e.src == root_id() {
            Seq::empty()
        } else {
            edge_line(e, plain_style(e.style))
        };
        lemma_holds_around(Seq::empty(), before, here, line);
    } else {
        lemma_holds(before, line, Seq::empty());
        assert(before + line + Seq::empty() =~= before + line);
    }
}

/// A plain picture has a line for each node but the root, with its number and its shape, and
/// one for each edge that does not leave the root.
pub proof fn a_plain_picture_shows_the_graph(
    g: GraphText,
    id: TupId,
    a: TupId,
    b: TupId,
    style: LinkType,
)
    ensures
        g.nodes.dom().contains(id) && id.0 != 0 ==> {
            let shape = match g.nodes[id].node_type {
                NodeType::Cmd => "rectangle"@,
                NodeType::Dir => "folder"@,
                NodeType::GeneratedDir => "folder"@,
                NodeType::Group => "diamond"@,
                _ => "ellipse"@,
            };
            let n = int_text(id.0 as int);
            holds(
                plain_dot(g),
                "  "@ + ("n"@ + n) + " [label=\""@ + n + "\", shape="@ + shape + "];\n"@,
            )
        },
        (g.outgoing)(a).contains((b, style)) && a.0 != 0 ==> {
            let look = match style {
                LinkType::Normal => ""@,
                LinkType::Sticky => ", style=dashed"@,
                LinkType::Group => ", style=dotted"@,
            };
            holds(
                plain_dot(g),
                "  "@ + ("n"@ + int_text(a.0 as int)) + " -> "@ + ("n"@ + int_text(b.0 as int))
                    + "["@ + look + "];\n"@,
            )
        },
{
    let ids = ascending(g.nodes.dom());
    let es = edge_list(g);
    let head = "digraph G {\n"@ + "  rankdir=TB;\n"@;
    let nodes = plain_nodes(g, ids);
    let edges = plain_edges(es);
    assert(plain_dot(g) =~= head + nodes + (edges + "}\n"@));
    assert(plain_dot(g) =~= (head + nodes) + edges + "}\n"@);
    if g.nodes.dom().contains(id) && id.0 != 0 {
        ascending_lists(g.nodes.dom());
        assert(ids.contains(id));
        let i = choose|i: int| 0 <= i < ids.len() && ids[i] == id;
        lemma_plain_nodes(g, ids, i);
        lemma_holds_around(head, nodes, edges + "}\n"@, plain_node(g, id));
    }
    if (g.outgoing)(a).contains((b, style)) && a.0 != 0 {
        let e = Edge { src: a, dest: b, style };
        all_edges_are_listed(g, e);
        let i = choose|i: int| 0 <= i < es.len() && es[i] == e;
        lemma_plain_edges(es, i);
        lemma_holds_around(head + nodes, edges, "}\n"@, edge_line(e, plain_style(style)));
    }
}

proof fn lemma_named_nodes(
    g: GraphText,
    opts: DotOptions,
    names: Map<TupId, Seq<char>>,
    ids: Seq<TupId>,
    i: int,
)
    requires
        0 <= i < ids.len(),
        !hidden(opts, ids[i], g.nodes[ids[i]].node_type),
    ensures
        holds(
            named_nodes(g, opts, names, ids),
            node_line(
                node_name(ids[i]),
                label_of(names, ids[i]),
                node_look(g.nodes[ids[i]].node_type).0,
                node_look(g.nodes[ids[i]].node_type).1,
            ),
        ),
    decreases ids.len(),
{
    let t = g.nodes[ids[i]].node_type;
    let line = node_line(
        node_name(ids[i]),
        label_of(names, ids[i]),
        node_look(t).0,
        node_look(t).1,
    );
    let before = named_nodes(g, opts, names, ids.drop_last());
    if i < ids.len() - 1 {
        assert(ids.drop_last()[i] == ids[i]);
        lemma_named_nodes(g, opts, names, ids.drop_last(), i);
        let id = ids.last();
        let u = g.nodes[id].node_type;
        let here = if hidden(opts, id, u) {
            Seq::empty()
        } else {
            node_line(node_name(id), label_of(names, id), node_look(u).0, node_look(u).1)
        };
        lemma_holds_around(Seq::empty(), before, here, line);
    } else {
        lemma_holds(before, line, Seq::empty());
        assert(before + line + Seq::empty() =~= before + line);
    }
}

proof fn lemma_named_edges(g: GraphText, opts: DotOptions, es: Seq<Edge>, i: int)
    requires
        0 <= i < es.len(),
        !hidden_edge(g, opts, es[i]),
    ensures
        holds(named_edges(g, opts, es), edge_line(es[i], link_look(es[i].style))),
    decreases es.len(),
{
    let line = edge_line(es[i], link_look(es[i].style));
    let before = named_edges(g, opts, es.drop_last());
    if i < es.len() - 1 {
        assert(es.drop_last()[i] == es[i]);
        lemma_named_edges(g, opts, es.drop_last(), i);
        let e = es.last();
        let here = if hidden_edge(g, opts, e) {
            Seq::empty()
        } else {
            edge_line(e, link_look(e.style))
        };
        lemma_holds_around(Seq::empty(), before, here, line);
    } else {
        lemma_holds(before, line, Seq::empty());
        assert(before + line + Seq::empty() =~= before + line);
    }
}

/// A picture with names has a line for each node but the root, the directories where they are
/// not shown, and the ghosts where they are not shown. A node without a name is shown by its
/// number.
pub proof fn a_picture_shows_the_nodes(
    g: GraphText,
    opts: DotOptions,
    names: Map<TupId, Seq<char>>,
    id: TupId,
)
    requires
        g.nodes.dom().contains(id),
        id.0 != 0,
        opts.show_dirs || (g.nodes[id].node_type != NodeType::Dir && g.nodes[id].node_type
            != NodeType::GeneratedDir),
        opts.show_ghosts || g.nodes[id].node_type != NodeType::GhostNode,
    ensures
        ({
            let n = int_text(id.0 as int);
            let look = node_look(g.nodes[id].node_type);
            let label = if names.dom().contains(id) {
                names[id]
            } else {
                "node_"@ + n
            };
            holds(
                named_dot(g, opts, names),
                "  "@ + ("n"@ + n) + " [label=\""@ + escape(label) + "\", shape="@ + look.0
                    + ", fillcolor=\""@ + look.1 + "\"];\n"@,
            )
        }),
{
    let ids = ascending(g.nodes.dom());
    ascending_lists(g.nodes.dom());
    assert(ids.contains(id));
    let i = choose|i: int| 0 <= i < ids.len() && ids[i] == id;
    lemma_named_nodes(g, opts, names, ids, i);
    let look = node_look(g.nodes[id].node_type);
    let line = node_line(node_name(id), label_of(names, id), look.0, look.1);
    let nodes = named_nodes(g, opts, names, ids);
    let rest = "\n"@ + named_edges(g, opts, edge_list(g)) + "}\n"@;
    assert(named_dot(g, opts, names) =~= picture_head() + nodes + rest);
    lemma_holds_around(picture_head(), nodes, rest, line);
}

/// A picture with names has a line for each edge that does not leave the root, but for those of
/// directories where these are not shown.
pub proof fn a_picture_shows_the_edges(
    g: GraphText,
    opts: DotOptions,
    names: Map<TupId, Seq<char>>,
    a: TupId,
    b: TupId,
    style: LinkType,
)
    requires
        (g.outgoing)(a).contains((b, style)),
        a.0 != 0,
        opts.show_dirs || (g.nodes[a].node_type != NodeType::Dir && g.nodes[a].node_type
            != NodeType::GeneratedDir && g.nodes[b].node_type != NodeType::Dir
            && g.nodes[b].node_type != NodeType::GeneratedDir),
    ensures
        ({
            let look = match style {
                LinkType::Normal => ""@,
                LinkType::Sticky => ", style=dashed, color=blue"@,
                LinkType::Group => ", style=dotted, color=red"@,
            };
            holds(
                named_dot(g, opts, names),
                "  "@ + ("n"@ + int_text(a.0 as int)) + " -> "@ + ("n"@ + int_text(b.0 as int))
                    + "["@ + look + "];\n"@,
            )
        }),
{
    let e = Edge { src: a, dest: b, style };
    let es = edge_list(g);
    all_edges_are_listed(g, e);
    let i = choose|i: int| 0 <= i < es.len() && es[i] == e;
    lemma_named_edges(g, opts, es, i);
    let head = picture_head() + named_nodes(g, opts, names, ascending(g.nodes.dom())) + "\n"@;
    let edges = named_edges(g, opts, es);
    assert(named_dot(g, opts, names) =~= head + edges + "}\n"@);
    lemma_holds_around(head, edges, "}\n"@, edge_line(e, link_look(style)));
}

/// Graphs of which only what is left out is there have an empty picture: neither the root, nor
/// the edges that leave it, nor directories that are not shown have a line.
pub proof fn what_is_left_out_has_no_line(
    g: GraphText,
    opts: DotOptions,
    names: Map<TupId, Seq<char>>,
    ids: Seq<TupId>,
    es: Seq<Edge>,
)
    requires
        forall|i: int|
            0 <= i < ids.len() ==> (#[trigger] ids[i]).0 == 0 || (!opts.show_dirs && (
            g.nodes[ids[i]].node_type == NodeType::Dir || g.nodes[ids[i]].node_type
                == NodeType::GeneratedDir)) || (!opts.show_ghosts && g.nodes[ids[i]].node_type
                == NodeType::GhostNode),
        forall|i: int| 0 <= i < es.len() ==> (#[trigger] es[i]).src.0 == 0,
    ensures
        named_nodes(g, opts, names, ids) == Seq::<char>::empty(),
        named_edges(g, opts, es) == Seq::<char>::empty(),
        plain_edges(es) == Seq::<char>::empty(),
        plain_node(g, TupId(0)) == Seq::<char>::empty(),
    decreases ids.len() + es.len(),
{
    if ids.len() > 0 {
        let b = ids.drop_last();
        assert forall|i: int| 0 <= i < b.len() implies (#[trigger] b[i]).0 == 0 || (
        !opts.show_dirs && (g.nodes[b[i]].node_type == NodeType::Dir || g.nodes[b[i]].node_type
            == NodeType::GeneratedDir)) || (!opts.show_ghosts && g.nodes[b[i]].node_type
            == NodeType::GhostNode) by {
            assert(b[i] == ids[i]);
        }
        what_is_left_out_has_no_line(g, opts, names, b, es);
        let id = ids[ids.len() - 1];
        assert(hidden(opts, id, g.nodes[id].node_type));
        assert(named_nodes(g, opts, names, ids) =~= Seq::<char>::empty());
    }
    if es.len() > 0 {
        let b = es.drop_last();
        assert forall|i: int| 0 <= i < b.len() implies (#[trigger] b[i]).src.0 == 0 by {
            assert(b[i] == es[i]);
        }
        what_is_left_out_has_no_line(g, opts, names, ids, b);
        let e = es[es.len() - 1];
        assert(e.src == root_id());
        assert(named_edges(g, opts, es) =~= Seq::<char>::empty());
        assert(plain_edges(es) =~= Seq::<char>::empty());
    }
}

// ------------------------------------------------ pictures of rules

/// Whether a drawing goes on from another: what was drawn stays, with its numbers.
pub open spec fn goes_on(d: Drawing, e: Drawing) -> bool {
    &&& d.next <= e.next
    &&& forall|p: Seq<char>| #[trigger]
        d.files.dom().contains(p) ==> e.files.dom().contains(p) && e.files[p] == d.files[p]
    &&& forall|part: Seq<char>| #[trigger] holds(d.text, part) ==> holds(e.text, part)
}

/// Whether every file of a drawing has a number of its own.
pub open spec fn are_told_apart(d: Drawing) -> bool {
    &&& forall|p: Seq<char>| #[trigger] d.files.dom().contains(p) ==> d.files[p] < d.next
    &&& forall|p: Seq<char>, q: Seq<char>| #[trigger]
        d.files.dom().contains(p) && #[trigger] d.files.dom().contains(q) && d.files[p]
            == d.files[q] ==> p == q
}

/// A file is drawn once, with a number that no other file has.
pub proof fn files_are_drawn_once(d: Drawing, path: Seq<char>, color: Seq<char>)
    requires
        are_told_apart(d),
    ensures
        goes_on(d, draw_file(d, path, color)),
        are_told_apart(draw_file(d, path, color)),
        draw_file(d, path, color).files.dom().contains(path),
        d.files.dom().contains(path) ==> draw_file(d, path, color) == d,
        !d.files.dom().contains(path) ==> holds(
            draw_file(d, path, color).text,
            "  "@ + ("n"@ + nat_text(d.next)) + " [label=\""@ + escape(path) + "\", shape="@
                + "ellipse"@ + ", fillcolor=\""@ + color + "\"];\n"@,
        ),
{
    let e = draw_file(d, path, color);
    if !d.files.dom().contains(path) {
        let line = node_line(numbered(d.next), path, "ellipse"@, color);
        lemma_holds(d.text, line, Seq::empty());
        assert(d.text + line + Seq::empty() =~= e.text);
        assert forall|part: Seq<char>| #[trigger] holds(d.text, part) implies holds(
            e.text,
            part,
        ) by {
            lemma_holds_around(Seq::empty(), d.text, line, part);
        }
        assert forall|p: Seq<char>, q: Seq<char>| #[trigger]
            e.files.dom().contains(p) && #[trigger] e.files.dom().contains(q) && e.files[p]
                == e.files[q] implies p == q by {
            if p != path {
                assert(d.files.dom().contains(p));
            }
            if q != path {
                assert(d.files.dom().contains(q));
            }
        }
        assert forall|p: Seq<char>| #[trigger] e.files.dom().contains(p) implies e.files[p]
            < e.next by {
            if p != path {
                assert(d.files.dom().contains(p));
            }
        }
    }
}

proof fn lemma_goes_on(a: Drawing, b: Drawing, c: Drawing)
    requires
        goes_on(a, b),
        goes_on(b, c),
    ensures
        goes_on(a, c),
{
}

proof fn lemma_more_text(d: Drawing, line: Seq<char>)
    ensures
        goes_on(d, Drawing { text: d.text + line, ..d }),
        holds(d.text + line, line),
{
    lemma_holds(d.text, line, Seq::empty());
    assert(d.text + line + Seq::empty() =~= d.text + line);
    assert forall|part: Seq<char>| #[trigger] holds(d.text, part) implies holds(
        d.text + line,
        part,
    ) by {
        lemma_holds_around(Seq::empty(), d.text, line, part);
    }
}

/// Every input of a rule is drawn, with an edge to the command.
pub proof fn inputs_lead_to_their_command(
    d: Drawing,
    dir: Seq<char>,
    files: Seq<Seq<char>>,
    cmd: nat,
    i: int,
)
    requires
        are_told_apart(d),
    ensures
        goes_on(d, draw_inputs(d, dir, files, cmd)),
        are_told_apart(draw_inputs(d, dir, files, cmd)),
        0 <= i < files.len() ==> {
            let e = draw_inputs(d, dir, files, cmd);
            let path = in_dir(dir, files[i]);
            &&& e.files.dom().contains(path)
            &&& holds(
                e.text,
                "  "@ + ("n"@ + nat_text(e.files[path])) + " -> "@ + ("n"@ + nat_text(cmd))
                    + ";\n"@,
            )
        },
    decreases files.len(),
{
    if files.len() > 0 {
        let b = draw_inputs(d, dir, files.drop_last(), cmd);
        inputs_lead_to_their_command(d, dir, files.drop_last(), cmd, i);
        let path = in_dir(dir, files.last());
        files_are_drawn_once(b, path, "#d4e6f1"@);
        let e = draw_file(b, path, "#d4e6f1"@);
        let line = "  "@ + numbered(e.files[path]) + " -> "@ + numbered(cmd) + ";\n"@;
        lemma_more_text(e, line);
        let f = draw_inputs(d, dir, files, cmd);
        assert(f == (Drawing { text: e.text + line, ..e }));
        lemma_goes_on(d, b, e);
        lemma_goes_on(d, e, f);
        lemma_goes_on(b, e, f);
        if 0 <= i < files.len() - 1 {
            assert(files.drop_last()[i] == files[i]);
            let p = in_dir(dir, files[i]);
            assert(b.files.dom().contains(p));
            assert(f.files[p] == b.files[p]);
        }
    }
}

/// Every output of a rule is drawn, with an edge from the command.
pub proof fn commands_lead_to_their_outputs(
    d: Drawing,
    dir: Seq<char>,
    files: Seq<Seq<char>>,
    cmd: nat,
    i: int,
)
    requires
        are_told_apart(d),
    ensures
        goes_on(d, draw_outputs(d, dir, files, cmd)),
        are_told_apart(draw_outputs(d, dir, files, cmd)),
        0 <= i < files.len() ==> {
            let e = draw_outputs(d, dir, files, cmd);
            let path = in_dir(dir, files[i]);
            &&& e.files.dom().contains(path)
            &&& holds(
                e.text,
                "  "@ + ("n"@ + nat_text(cmd)) + " -> "@ + ("n"@ + nat_text(e.files[path]))
                    + ";\n"@,
            )
        },
    decreases files.len(),
{
    if files.len() > 0 {
        let b = draw_outputs(d, dir, files.drop_last(), cmd);
        commands_lead_to_their_outputs(d, dir, files.drop_last(), cmd, i);
        let path = in_dir(dir, files.last());
        files_are_drawn_once(b, path, "#fadbd8"@);
        let e = draw_file(b, path, "#fadbd8"@);
        let line = "  "@ + numbered(cmd) + " -> "@ + numbered(e.files[path]) + ";\n"@;
        lemma_more_text(e, line);
        let f = draw_outputs(d, dir, files, cmd);
        assert(f == (Drawing { text: e.text + line, ..e }));
        lemma_goes_on(d, b, e);
        lemma_goes_on(d, e, f);
        lemma_goes_on(b, e, f);
        if 0 <= i < files.len() - 1 {
            assert(files.drop_last()[i] == files[i]);
            let p = in_dir(dir, files[i]);
            assert(b.files.dom().contains(p));
            assert(f.files[p] == b.files[p]);
        }
    }
}

/// The picture of a rule goes on from what was drawn before: its inputs and its outputs are
/// there, each below its directory, joined with the command, which has a number of its own.
pub proof fn rules_are_drawn_whole(d: Drawing, row: RuleRow, i: int, o: int)
    requires
        are_told_apart(d),
        row.0@.len() > 0,
        0 <= i < row.1@.len(),
        0 <= o < row.3@.len(),
    ensures
        goes_on(d, draw_rule(d, row)),
        are_told_apart(draw_rule(d, row)),
        draw_rule(d, row).next > d.next,
        ({
            let e = draw_rule(d, row);
            let input = row.0@ + "/"@ + row.1@[i]@;
            let output = row.0@ + "/"@ + row.3@[o]@;
            let c = "n"@ + nat_text(d.next);
            &&& e.files.dom().contains(input)
            &&& e.files.dom().contains(output)
            &&& e.files[input] != d.next && e.files[output] != d.next
            &&& holds(
                e.text,
                "  "@ + ("n"@ + nat_text(e.files[input])) + " -> "@ + c + ";\n"@,
            )
            &&& holds(
                e.text,
                "  "@ + c + " -> "@ + ("n"@ + nat_text(e.files[output])) + ";\n"@,
            )
        }),
{
    let c = Drawing {
        next: d.next + 1,
        files: d.files,
        text: d.text + node_line(
            numbered(d.next),
            command_label(row.2@),
            "rectangle"@,
            "#d5f5e3"@,
        ),
    };
    lemma_more_text(
        d,
        node_line(
            numbered(d.next),
            command_label(row.2@),
            "rectangle"@,
            "#d5f5e3"@,
        ),
    );
    assert(goes_on(d, c));
    assert(are_told_apart(c));
    let x = draw_inputs(c, row.0@, texts(row.1@), d.next);
    let e = draw_outputs(x, row.0@, texts(row.3@), d.next);
    assert(e == draw_rule(d, row));
    inputs_lead_to_their_command(c, row.0@, texts(row.1@), d.next, i);
    commands_lead_to_their_outputs(x, row.0@, texts(row.3@), d.next, o);
    lemma_goes_on(d, c, x);
    lemma_goes_on(d, x, e);
    lemma_avoids(c, row.0@, texts(row.1@), texts(row.3@), d.next);
    let input = in_dir(row.0@, texts(row.1@)[i]);
    assert(e.files[input] == x.files[input]);
}

/// Files that are drawn after a command do not have its number.
proof fn lemma_avoids(
    d: Drawing,
    dir: Seq<char>,
    inputs: Seq<Seq<char>>,
    outputs: Seq<Seq<char>>,
    cmd: nat,
)
    requires
        are_told_apart(d),
        cmd < d.next,
        forall|p: Seq<char>| #[trigger] d.files.dom().contains(p) ==> d.files[p] != cmd,
    ensures
        forall|p: Seq<char>|
            #![trigger draw_outputs(
                draw_inputs(d, dir, inputs, cmd),
                dir,
                outputs,
                cmd,
            ).files.dom().contains(p)]
            draw_outputs(
                draw_inputs(d, dir, inputs, cmd),
                dir,
                outputs,
                cmd,
            ).files.dom().contains(p) ==> draw_outputs(
                draw_inputs(d, dir, inputs, cmd),
                dir,
                outputs,
                cmd,
            ).files[p] != cmd,
    decreases inputs.len() + outputs.len(),
{
    let x = draw_inputs(d, dir, inputs, cmd);
    inputs_lead_to_their_command(d, dir, inputs, cmd, 0);
    if outputs.len() > 0 {
        lemma_avoids(d, dir, inputs, outputs.drop_last(), cmd);
        commands_lead_to_their_outputs(x, dir, outputs.drop_last(), cmd, 0);
    } else {
        assert(draw_outputs(x, dir, outputs, cmd) == x);
        if inputs.len() > 0 {
            let before = inputs.drop_last();
            lemma_avoids(d, dir, before, outputs, cmd);
            inputs_lead_to_their_command(d, dir, before, cmd, 0);
            assert(draw_outputs(draw_inputs(d, dir, before, cmd), dir, outputs, cmd)
                == draw_inputs(d, dir, before, cmd));
        }
    }
}

} // verus!
