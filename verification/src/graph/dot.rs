//! Pictures of graphs, in the language of Graphviz.
use vstd::prelude::*;
use vstd::utf8::{decode_utf8, encode_utf8, is_char_boundary};

use crate::graph::dag::{edge_list, root_id, Edge, Graph, GraphText};
use crate::ids::ascending;
use crate::ordmap::{deep, OrdMap};
use crate::text::{concat2, copy_str, texts, to_chars};
use crate::types::{i64_to_string, int_text, nat_text, u64_to_string, LinkType, NodeType, TupId};

verus! {

/// Options of a picture.
#[derive(Debug)]
pub struct DotOptions {
    /// Show directories.
    pub show_dirs: bool,
    /// Show ghosts.
    pub show_ghosts: bool,
    /// Combine nodes with the same command.
    pub combine: bool,
}

impl Default for DotOptions {
    fn default() -> (r: Self)
        ensures
            !r.show_dirs,
            !r.show_ghosts,
            !r.combine,
    {
        DotOptions { show_dirs: false, show_ghosts: false, combine: false }
    }
}

/// A label with `\` before each `\` and `"`.
pub open spec fn escape(s: Seq<char>) -> Seq<char>
    decreases s.len(),
{
    if s.len() == 0 {
        Seq::empty()
    } else {
        let before = escape(s.drop_last());
        if s.last() == '\\' || s.last() == '"' {
            before.push('\\').push(s.last())
        } else {
            before.push(s.last())
        }
    }
}

fn str_escape(s: &str) -> (r: String)
    ensures
        r@ == escape(s@),
{
    let v = to_chars(s);
    let mut out = String::new();
    let mut i: usize = 0;
    while i < v.len()
        invariant
            i <= v@.len(),
            v@ == s@,
            out@ == escape(v@.take(i as int)),
        decreases v.len() - i,
    {
        assert(v@.take(i + 1).drop_last() =~= v@.take(i as int));
        if v[i] == '\\' || v[i] == '"' {
            out.push('\\');
        }
        out.push(v[i]);
        i += 1;
    }
    assert(v@.take(v@.len() as int) =~= v@);
    out
}

/// The name of a node in a picture.
pub open spec fn node_name(id: TupId) -> Seq<char> {
    "n"@ + int_text(id.0 as int)
}

// ------------------------------------------------ plain pictures

pub open spec fn plain_shape(t: NodeType) -> Seq<char> {
    match t {
        NodeType::Cmd => "rectangle"@,
        NodeType::Dir | NodeType::GeneratedDir => "folder"@,
        NodeType::Group => "diamond"@,
        _ => "ellipse"@,
    }
}

pub open spec fn plain_style(t: LinkType) -> Seq<char> {
    match t {
        LinkType::Normal => ""@,
        LinkType::Sticky => ", style=dashed"@,
        LinkType::Group => ", style=dotted"@,
    }
}

/// The line of a node; none for the root.
pub open spec fn plain_node(g: GraphText, id: TupId) -> Seq<char> {
    if id == root_id() {
        Seq::empty()
    } else {
        "  "@ + node_name(id) + " [label=\""@ + int_text(id.0 as int) + "\", shape="@ + plain_shape(
            g.nodes[id].node_type,
        ) + "];\n"@
    }
}

pub open spec fn plain_nodes(g: GraphText, ids: Seq<TupId>) -> Seq<char>
    decreases ids.len(),
{
    if ids.len() == 0 {
        Seq::empty()
    } else {
        plain_nodes(g, ids.drop_last()) + plain_node(g, ids.last())
    }
}

/// The line of an edge with a style.
pub open spec fn edge_line(e: Edge, style: Seq<char>) -> Seq<char> {
    "  "@ + node_name(e.src) + " -> "@ + node_name(e.dest) + "["@ + style + "];\n"@
}

/// The lines of edges; none for those that leave the root.
pub open spec fn plain_edges(es: Seq<Edge>) -> Seq<char>
    decreases es.len(),
{
    if es.len() == 0 {
        Seq::empty()
    } else {
        let e = es.last();
        plain_edges(es.drop_last()) + if e.src == root_id() {
            Seq::empty()
        } else {
            edge_line(e, plain_style(e.style))
        }
    }
}

/// A plain picture of a graph: its nodes by number, and its edges.
pub open spec fn plain_dot(g: GraphText) -> Seq<char> {
    "digraph G {\n"@ + "  rankdir=TB;\n"@ + plain_nodes(g, ascending(g.nodes.dom())) + plain_edges(
        edge_list(g),
    ) + "}\n"@
}

fn name_of(id: TupId) -> (r: String)
    ensures
        r@ == node_name(id),
{
    let n = i64_to_string(id.raw());
    concat2("n", n.as_str())
}

fn write_edge(out: &mut String, e: &Edge, style: &str)
    ensures
        final(out)@ == old(out)@ + edge_line(*e, style@),
{
    let ghost o = out@;
    let a = name_of(e.src);
    let b = name_of(e.dest);
    out.append("  ");
    out.append(a.as_str());
    out.append(" -> ");
    out.append(b.as_str());
    out.append("[");
    out.append(style);
    out.append("];\n");
    assert(out@ =~= o + edge_line(*e, style@));
}

fn plain_style_of(t: LinkType) -> (r: &'static str)
    ensures
        r@ == plain_style(t),
{
    match t {
        LinkType::Normal => "",
        LinkType::Sticky => ", style=dashed",
        LinkType::Group => ", style=dotted",
    }
}

fn plain_shape_of(t: NodeType) -> (r: &'static str)
    ensures
        r@ == plain_shape(t),
{
    match t {
        NodeType::Cmd => "rectangle",
        NodeType::Dir => "folder",
        NodeType::GeneratedDir => "folder",
        NodeType::Group => "diamond",
        _ => "ellipse",
    }
}

impl Graph {
    /// A plain picture of the graph.
    pub fn to_dot(&self) -> (r: String)
        ensures
            r@ == plain_dot(self@),
    {
        let ghost g = self@;
        let mut dot = copy_str("digraph G {\n");
        dot.append("  rankdir=TB;\n");
        let ghost head = dot@;
        let nodes = self.nodes();
        let ghost ids = ascending(g.nodes.dom());
        let mut i: usize = 0;
        proof {
            assert(plain_nodes(g, ids.take(0)) =~= Seq::empty());
            assert(dot@ =~= head + plain_nodes(g, ids.take(0)));
        }
        while i < nodes.len()
            invariant
                i <= nodes@.len(),
                g == self@,
                ids == ascending(g.nodes.dom()),
                nodes@.len() == ids.len(),
                forall|i: int|
                    0 <= i < nodes@.len() ==> (#[trigger] nodes@[i]).0 == ids[i]
                        && g.nodes.dom().contains(nodes@[i].0) && nodes@[i].1
                        == g.nodes[nodes@[i].0],
                dot@ == head + plain_nodes(g, ids.take(i as int)),
            decreases nodes.len() - i,
        {
            let id = nodes[i].0;
            let ghost o = dot@;
            proof {
                assert(ids.take(i + 1).drop_last() =~= ids.take(i as int));
                assert(ids.take(i + 1).last() == id);
            }
            if id != self.root() {
                let name = name_of(id);
                let number = i64_to_string(id.raw());
                dot.append("  ");
                dot.append(name.as_str());
                dot.append(" [label=\"");
                dot.append(number.as_str());
                dot.append("\", shape=");
                dot.append(plain_shape_of(nodes[i].1.node_type));
                dot.append("];\n");
                assert(dot@ =~= o + plain_node(g, id));
            }
            assert(dot@ =~= head + plain_nodes(g, ids.take(i + 1)));
            i += 1;
        }
        assert(ids.take(ids.len() as int) =~= ids);
        let edges = self.all_edges();
        let ghost mid = dot@;
        let mut k: usize = 0;
        assert(dot@ =~= mid + plain_edges(edges@.take(0)));
        while k < edges.len()
            invariant
                k <= edges@.len(),
                dot@ == mid + plain_edges(edges@.take(k as int)),
            decreases edges.len() - k,
        {
            let e = edges[k];
            let ghost o = dot@;
            proof {
                assert(edges@.take(k + 1).drop_last() =~= edges@.take(k as int));
                assert(edges@.take(k + 1).last() == e);
            }
            if e.src != self.root() {
                write_edge(&mut dot, &e, plain_style_of(e.style));
            }
            assert(dot@ =~= mid + plain_edges(edges@.take(k + 1)));
            k += 1;
        }
        assert(edges@.take(edges@.len() as int) =~= edges@);
        dot.append("}\n");
        dot
    }
}

// ------------------------------------------------ pictures with names

/// The shape and the colour of a node.
pub open spec fn node_look(t: NodeType) -> (Seq<char>, Seq<char>) {
    match t {
        NodeType::File => ("ellipse"@, "#d4e6f1"@),
        NodeType::Cmd => ("rectangle"@, "#d5f5e3"@),
        NodeType::Dir | NodeType::GeneratedDir => ("folder"@, "#fdebd0"@),
        NodeType::Generated => ("ellipse"@, "#fadbd8"@),
        NodeType::GhostNode => ("ellipse"@, "#e8daef"@),
        NodeType::Group => ("diamond"@, "#fef9e7"@),
        NodeType::Var => ("octagon"@, "#d6eaf8"@),
        NodeType::Root => ("doubleoctagon"@, "#ffffff"@),
    }
}

/// The shape and the colour of a node.
pub fn node_style(node_type: NodeType) -> (r: (&'static str, &'static str))
    ensures
        (r.0@, r.1@) == node_look(node_type),
{
    match node_type {
        NodeType::File => ("ellipse", "#d4e6f1"),
        NodeType::Cmd => ("rectangle", "#d5f5e3"),
        NodeType::Dir => ("folder", "#fdebd0"),
        NodeType::GeneratedDir => ("folder", "#fdebd0"),
        NodeType::Generated => ("ellipse", "#fadbd8"),
        NodeType::GhostNode => ("ellipse", "#e8daef"),
        NodeType::Group => ("diamond", "#fef9e7"),
        NodeType::Var => ("octagon", "#d6eaf8"),
        NodeType::Root => ("doubleoctagon", "#ffffff"),
    }
}

pub open spec fn link_look(t: LinkType) -> Seq<char> {
    match t {
        LinkType::Normal => ""@,
        LinkType::Sticky => ", style=dashed, color=blue"@,
        LinkType::Group => ", style=dotted, color=red"@,
    }
}

fn link_style(t: LinkType) -> (r: &'static str)
    ensures
        r@ == link_look(t),
{
    match t {
        LinkType::Normal => "",
        LinkType::Sticky => ", style=dashed, color=blue",
        LinkType::Group => ", style=dotted, color=red",
    }
}

/// Whether a node is left out of a picture.
pub open spec fn hidden(opts: DotOptions, id: TupId, t: NodeType) -> bool {
    id == root_id() || (!opts.show_dirs && t.spec_is_dir()) || (!opts.show_ghosts && t
        == NodeType::GhostNode)
}

/// The label of a node: its name, or one made of its number.
pub open spec fn label_of(names: Map<TupId, Seq<char>>, id: TupId) -> Seq<char> {
    if names.dom().contains(id) {
        names[id]
    } else {
        "node_"@ + int_text(id.0 as int)
    }
}

/// The line of a node with a name, a label, a shape and a colour.
pub open spec fn node_line(
    name: Seq<char>,
    label: Seq<char>,
    shape: Seq<char>,
    color: Seq<char>,
) -> Seq<char> {
    "  "@ + name + " [label=\""@ + escape(label) + "\", shape="@ + shape + ", fillcolor=\""@ + color
        + "\"];\n"@
}

pub open spec fn named_nodes(
    g: GraphText,
    opts: DotOptions,
    names: Map<TupId, Seq<char>>,
    ids: Seq<TupId>,
) -> Seq<char>
    decreases ids.len(),
{
    if ids.len() == 0 {
        Seq::empty()
    } else {
        let id = ids.last();
        let t = g.nodes[id].node_type;
        named_nodes(g, opts, names, ids.drop_last()) + if hidden(opts, id, t) {
            Seq::empty()
        } else {
            node_line(node_name(id), label_of(names, id), node_look(t).0, node_look(t).1)
        }
    }
}

/// Whether an edge is left out of a picture: it leaves the root, or directories
/// are not shown and it joins two nodes of which one is a directory.
pub open spec fn hidden_edge(g: GraphText, opts: DotOptions, e: Edge) -> bool {
    e.src == root_id() || (!opts.show_dirs && g.nodes.dom().contains(e.src)
        && g.nodes.dom().contains(e.dest) && (g.nodes[e.src].node_type.spec_is_dir()
        || g.nodes[e.dest].node_type.spec_is_dir()))
}

pub open spec fn named_edges(g: GraphText, opts: DotOptions, es: Seq<Edge>) -> Seq<char>
    decreases es.len(),
{
    if es.len() == 0 {
        Seq::empty()
    } else {
        let e = es.last();
        named_edges(g, opts, es.drop_last()) + if hidden_edge(g, opts, e) {
            Seq::empty()
        } else {
            edge_line(e, link_look(e.style))
        }
    }
}

pub open spec fn picture_head() -> Seq<char> {
    "digraph G {\n"@ + "  rankdir=BT;\n"@ + "  node [style=filled];\n\n"@
}

/// A picture of a graph whose nodes have names.
pub open spec fn named_dot(
    g: GraphText,
    opts: DotOptions,
    names: Map<TupId, Seq<char>>,
) -> Seq<char> {
    picture_head() + named_nodes(g, opts, names, ascending(g.nodes.dom())) + "\n"@ + named_edges(
        g,
        opts,
        edge_list(g),
    ) + "}\n"@
}

fn write_node(out: &mut String, name: &str, label: &str, shape: &str, color: &str)
    ensures
        final(out)@ == old(out)@ + node_line(name@, label@, shape@, color@),
{
    let ghost o = out@;
    let escaped = str_escape(label);
    out.append("  ");
    out.append(name);
    out.append(" [label=\"");
    out.append(escaped.as_str());
    out.append("\", shape=");
    out.append(shape);
    out.append(", fillcolor=\"");
    out.append(color);
    out.append("\"];\n");
    assert(out@ =~= o + node_line(name@, label@, shape@, color@));
}

fn begin_picture() -> (r: String)
    ensures
        r@ == picture_head(),
{
    let mut dot = copy_str("digraph G {\n");
    dot.append("  rankdir=BT;\n");
    dot.append("  node [style=filled];\n\n");
    dot
}

/// A picture of the graph, with the names of its nodes.
pub fn generate_dot(graph: &Graph, opts: &DotOptions, names: &OrdMap<TupId, String>) -> (r: String)
    ensures
        r@ == named_dot(graph@, *opts, deep(names@)),
{
    let ghost g = graph@;
    let ghost m = deep(names@);
    let mut dot = begin_picture();
    let ghost head = dot@;
    let nodes = graph.nodes();
    let ghost ids = ascending(g.nodes.dom());
    let mut i: usize = 0;
    assert(dot@ =~= head + named_nodes(g, *opts, m, ids.take(0)));
    while i < nodes.len()
        invariant
            i <= nodes@.len(),
            g == graph@,
            m == deep(names@),
            ids == ascending(g.nodes.dom()),
            nodes@.len() == ids.len(),
            forall|i: int|
                0 <= i < nodes@.len() ==> (#[trigger] nodes@[i]).0 == ids[i]
                    && g.nodes.dom().contains(nodes@[i].0) && nodes@[i].1 == g.nodes[nodes@[i].0],
            dot@ == head + named_nodes(g, *opts, m, ids.take(i as int)),
        decreases nodes.len() - i,
    {
        let id = nodes[i].0;
        let t = nodes[i].1.node_type;
        let ghost o = dot@;
        proof {
            assert(ids.take(i + 1).drop_last() =~= ids.take(i as int));
            assert(ids.take(i + 1).last() == id);
        }
        let skipped = id == graph.root() || (!opts.show_dirs && t.is_dir()) || (!opts.show_ghosts && t
            == NodeType::GhostNode);
        if !skipped {
            let label = match names.get(&id) {
                Some(n) => n.clone(),
                None => {
                    let number = i64_to_string(id.raw());
                    concat2("node_", number.as_str())
                },
            };
            let (shape, color) = node_style(t);
            let name = name_of(id);
            write_node(&mut dot, name.as_str(), label.as_str(), shape, color);
        }
        assert(dot@ =~= head + named_nodes(g, *opts, m, ids.take(i + 1)));
        i += 1;
    }
    assert(ids.take(ids.len() as int) =~= ids);
    dot.append("\n");
    let edges = graph.all_edges();
    let ghost mid = dot@;
    let mut k: usize = 0;
    assert(dot@ =~= mid + named_edges(g, *opts, edges@.take(0)));
    while k < edges.len()
        invariant
            k <= edges@.len(),
            g == graph@,
            dot@ == mid + named_edges(g, *opts, edges@.take(k as int)),
        decreases edges.len() - k,
    {
        let e = edges[k];
        let ghost o = dot@;
        proof {
            assert(edges@.take(k + 1).drop_last() =~= edges@.take(k as int));
            assert(edges@.take(k + 1).last() == e);
        }
        let mut skipped = e.src == graph.root();
        if !opts.show_dirs {
            if let Some(a) = graph.find_node(e.src) {
                if let Some(b) = graph.find_node(e.dest) {
                    if a.node_type.is_dir() || b.node_type.is_dir() {
                        skipped = true;
                    }
                }
            }
        }
        if !skipped {
            write_edge(&mut dot, &e, link_style(e.style));
        }
        assert(dot@ =~= mid + named_edges(g, *opts, edges@.take(k + 1)));
        k += 1;
    }
    assert(edges@.take(edges@.len() as int) =~= edges@);
    dot.append("}\n");
    dot
}

// ------------------------------------------------ pictures of rules

/// A rule as a picture shows it: directory, inputs, command, outputs.
pub type RuleRow = (String, Vec<String>, String, Vec<String>);

/// What a picture of rules has come to: the next number, the numbers of the
/// files, and the text.
#[verifier::ext_equal]
pub struct Drawing {
    pub next: nat,
    pub files: Map<Seq<char>, nat>,
    pub text: Seq<char>,
}

/// The name of a numbered node.
pub open spec fn numbered(n: nat) -> Seq<char> {
    "n"@ + nat_text(n)
}

/// The label of a command: the command, cut to 57 bytes and `...` where it has
/// more than 60.
pub open spec fn command_label(command: Seq<char>) -> Seq<char> {
    let bytes = encode_utf8(command);
    if bytes.len() > 60 {
        decode_utf8(bytes.subrange(0, 57)) + "..."@
    } else {
        command
    }
}

/// A file in the directory of a rule.
pub open spec fn in_dir(dir: Seq<char>, file: Seq<char>) -> Seq<char> {
    if dir.len() == 0 {
        file
    } else {
        dir + "/"@ + file
    }
}

/// The drawing with a file, which is drawn where it is new.
pub open spec fn draw_file(d: Drawing, path: Seq<char>, color: Seq<char>) -> Drawing {
    if d.files.dom().contains(path) {
        d
    } else {
        Drawing {
            next: d.next + 1,
            files: d.files.insert(path, d.next),
            text: d.text + node_line(numbered(d.next), path, "ellipse"@, color),
        }
    }
}

/// The drawing with the inputs of a command, and an edge from each.
pub open spec fn draw_inputs(
    d: Drawing,
    dir: Seq<char>,
    files: Seq<Seq<char>>,
    cmd: nat,
) -> Drawing
    decreases files.len(),
{
    if files.len() == 0 {
        d
    } else {
        let path = in_dir(dir, files.last());
        let e = draw_file(draw_inputs(d, dir, files.drop_last(), cmd), path, "#d4e6f1"@);
        Drawing {
            text: e.text + ("  "@ + numbered(e.files[path]) + " -> "@ + numbered(cmd) + ";\n"@),
            ..e
        }
    }
}

/// The drawing with the outputs of a command, and an edge to each.
pub open spec fn draw_outputs(
    d: Drawing,
    dir: Seq<char>,
    files: Seq<Seq<char>>,
    cmd: nat,
) -> Drawing
    decreases files.len(),
{
    if files.len() == 0 {
        d
    } else {
        let path = in_dir(dir, files.last());
        let e = draw_file(draw_outputs(d, dir, files.drop_last(), cmd), path, "#fadbd8"@);
        Drawing {
            text: e.text + ("  "@ + numbered(cmd) + " -> "@ + numbered(e.files[path]) + ";\n"@),
            ..e
        }
    }
}

/// The drawing with a rule: its command, its inputs and its outputs.
pub open spec fn draw_rule(d: Drawing, row: RuleRow) -> Drawing {
    let c = Drawing {
        next: d.next + 1,
        files: d.files,
        text: d.text + node_line(
            numbered(d.next),
            command_label(row.2@),
            "rectangle"@,
            "#d5f5e3"@,
        ),
    };
    draw_outputs(
        draw_inputs(c, row.0@, texts(row.1@), d.next),
        row.0@,
        texts(row.3@),
        d.next,
    )
}

pub open spec fn draw_rules(rows: Seq<RuleRow>) -> Drawing
    decreases rows.len(),
{
    if rows.len() == 0 {
        Drawing { next: 0, files: Map::empty(), text: picture_head() }
    } else {
        draw_rule(draw_rules(rows.drop_last()), rows.last())
    }
}

/// The number of commands and files that rules name.
pub open spec fn row_total(rows: Seq<RuleRow>) -> nat
    decreases rows.len(),
{
    if rows.len() == 0 {
        0
    } else {
        row_total(rows.drop_last()) + 1 + rows.last().1@.len() + rows.last().3@.len()
    }
}

/// Whether a command can be cut where its label is.
pub open spec fn can_cut(command: Seq<char>) -> bool {
    encode_utf8(command).len() > 60 ==> is_char_boundary(encode_utf8(command), 57)
}

fn make_command_label(command: &str) -> (r: String)
    requires
        can_cut(command@),
    ensures
        r@ == command_label(command@),
{
    if command.as_bytes().len() > 60 {
        let (head, _) = command.split_at(57);
        proof {
            vstd::utf8::encode_utf8_decode_utf8(head@);
        }
        concat2(head, "...")
    } else {
        copy_str(command)
    }
}

fn number_name(n: u64) -> (r: String)
    ensures
        r@ == numbered(n as nat),
{
    let t = u64_to_string(n);
    concat2("n", t.as_str())
}

fn str_in_dir(dir: &str, file: &str) -> (r: String)
    ensures
        r@ == in_dir(dir@, file@),
{
    if dir.is_empty() {
        copy_str(file)
    } else {
        let mut s = copy_str(dir);
        s.append("/");
        s.append(file);
        s
    }
}

/// A picture of rules in the making.
struct Sketch {
    next: u64,
    files: OrdMap<String, u64>,
    text: String,
}

spec fn file_numbers(m: Map<Seq<char>, u64>) -> Map<Seq<char>, nat> {
    Map::new(|k: Seq<char>| m.dom().contains(k), |k: Seq<char>| m[k] as nat)
}

impl View for Sketch {
    type V = Drawing;

    closed spec fn view(&self) -> Drawing {
        Drawing {
            next: self.next as nat,
            files: file_numbers(self.files@),
            text: self.text@,
        }
    }
}

impl Sketch {
    fn draw_file(&mut self, path: &str, color: &str) -> (r: u64)
        requires
            old(self)@.next < u64::MAX,
        ensures
            final(self)@ == draw_file(old(self)@, path@, color@),
            final(self)@.files.dom().contains(path@),
            r == final(self)@.files[path@],
            final(self)@.next <= old(self)@.next + 1,
    {
        let key = copy_str(path);
        let known = match self.files.get(&key) {
            Some(n) => Some(*n),
            None => None,
        };
        match known {
            Some(n) => n,
            None => {
                let n = self.next;
                let ghost before = self.files@;
                let name = number_name(n);
                write_node(&mut self.text, name.as_str(), path, "ellipse", color);
                self.files.insert(key, n);
                self.next = n + 1;
                assert(file_numbers(self.files@) =~= file_numbers(before).insert(
                    path@,
                    n as nat,
                ));
                n
            },
        }
    }

    fn draw_inputs(&mut self, dir: &str, files: &Vec<String>, cmd: u64)
        requires
            old(self)@.next + files@.len() <= u64::MAX,
        ensures
            final(self)@ == draw_inputs(old(self)@, dir@, texts(files@), cmd as nat),
            final(self)@.next <= old(self)@.next + files@.len(),
    {
        let ghost all = texts(files@);
        let ghost d0 = self@;
        let mut i: usize = 0;
        while i < files.len()
            invariant
                i <= files@.len(),
                all == texts(files@),
                d0.next + files@.len() <= u64::MAX,
                self@.next <= d0.next + i,
                self@ == draw_inputs(d0, dir@, all.take(i as int), cmd as nat),
            decreases files.len() - i,
        {
            proof {
                assert(all.take(i + 1).drop_last() =~= all.take(i as int));
                assert(all.take(i + 1).last() == files@[i as int]@);
            }
            let path = str_in_dir(dir, files[i].as_str());
            let n = self.draw_file(path.as_str(), "#d4e6f1");
            let ghost t = self.text@;
            let a = number_name(n);
            let b = number_name(cmd);
            self.text.append("  ");
            self.text.append(a.as_str());
            self.text.append(" -> ");
            self.text.append(b.as_str());
            self.text.append(";\n");
            assert(self.text@ =~= t + ("  "@ + a@ + " -> "@ + b@ + ";\n"@));
            i += 1;
        }
        assert(all.take(all.len() as int) =~= all);
    }

    fn draw_outputs(&mut self, dir: &str, files: &Vec<String>, cmd: u64)
        requires
            old(self)@.next + files@.len() <= u64::MAX,
        ensures
            final(self)@ == draw_outputs(old(self)@, dir@, texts(files@), cmd as nat),
            final(self)@.next <= old(self)@.next + files@.len(),
    {
        let ghost all = texts(files@);
        let ghost d0 = self@;
        let mut i: usize = 0;
        while i < files.len()
            invariant
                i <= files@.len(),
                all == texts(files@),
                d0.next + files@.len() <= u64::MAX,
                self@.next <= d0.next + i,
                self@ == draw_outputs(d0, dir@, all.take(i as int), cmd as nat),
            decreases files.len() - i,
        {
            proof {
                assert(all.take(i + 1).drop_last() =~= all.take(i as int));
                assert(all.take(i + 1).last() == files@[i as int]@);
            }
            let path = str_in_dir(dir, files[i].as_str());
            let n = self.draw_file(path.as_str(), "#fadbd8");
            let ghost t = self.text@;
            let a = number_name(n);
            let b = number_name(cmd);
            self.text.append("  ");
            self.text.append(b.as_str());
            self.text.append(" -> ");
            self.text.append(a.as_str());
            self.text.append(";\n");
            assert(self.text@ =~= t + ("  "@ + b@ + " -> "@ + a@ + ";\n"@));
            i += 1;
        }
        assert(all.take(all.len() as int) =~= all);
    }

    fn draw_rule(&mut self, row: &RuleRow)
        requires
            old(self)@.next + 1 + row.1@.len() + row.3@.len() <= u64::MAX,
            can_cut(row.2@),
        ensures
            final(self)@ == draw_rule(old(self)@, *row),
            final(self)@.next <= old(self)@.next + 1 + row.1@.len() + row.3@.len(),
    {
        let cmd = self.next;
        self.next = cmd + 1;
        let label = make_command_label(row.2.as_str());
        let name = number_name(cmd);
        write_node(&mut self.text, name.as_str(), label.as_str(), "rectangle", "#d5f5e3");
        self.draw_inputs(row.0.as_str(), &row.1, cmd);
        self.draw_outputs(row.0.as_str(), &row.3, cmd);
    }
}

proof fn lemma_row_total_monotone(rows: Seq<RuleRow>, n: int)
    requires
        0 <= n <= rows.len(),
    ensures
        row_total(rows.take(n)) <= row_total(rows),
    decreases rows.len() - n,
{
    if n < rows.len() {
        assert(rows.take(n + 1).drop_last() =~= rows.take(n));
        lemma_row_total_monotone(rows, n + 1);
    } else {
        assert(rows.take(n) =~= rows);
    }
}

/// A picture of rules: their commands, and the files that they read and write,
/// each file once.
pub fn rules_to_dot(rules: &[RuleRow]) -> (r: String)
    requires
        row_total(rules@) <= u64::MAX,
        forall|i: int| 0 <= i < rules@.len() ==> can_cut((#[trigger] rules@[i]).2@),
    ensures
        r@ == draw_rules(rules@).text + "}\n"@,
{
    let mut sketch = Sketch { next: 0, files: OrdMap::new(), text: begin_picture() };
    assert(file_numbers(sketch.files@) =~= Map::empty());
    let mut i: usize = 0;
    while i < rules.len()
        invariant
            i <= rules@.len(),
            row_total(rules@) <= u64::MAX,
            forall|i: int| 0 <= i < rules@.len() ==> can_cut((#[trigger] rules@[i]).2@),
            sketch@ == draw_rules(rules@.take(i as int)),
            sketch@.next <= row_total(rules@.take(i as int)),
        decreases rules.len() - i,
    {
        proof {
            assert(rules@.take(i + 1).drop_last() =~= rules@.take(i as int));
            assert(rules@.take(i + 1).last() == rules@[i as int]);
            lemma_row_total_monotone(rules@, i + 1);
        }
        sketch.draw_rule(&rules[i]);
        i += 1;
    }
    assert(rules@.take(rules@.len() as int) =~= rules@);
    let mut text = sketch.text;
    text.append("}\n");
    text
}

} // verus!
