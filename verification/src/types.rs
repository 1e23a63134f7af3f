//! Identifiers and kinds of the things that a build knows.
use vstd::prelude::*;

use crate::ordmap::{Key, Order};

verus! {

/// The identifier of a node.
#[derive(Debug, Clone, Copy, PartialEq, Eq, PartialOrd, Ord, Hash, Structural)]
pub struct TupId(pub i64);

impl View for TupId {
    type V = TupId;

    open spec fn view(&self) -> TupId {
        *self
    }
}

impl TupId {
    pub fn new(id: i64) -> (r: Self)
        ensures
            r == TupId(id),
    {
        TupId(id)
    }

    /// The number of the identifier.
    pub fn raw(&self) -> (r: i64)
        ensures
            r == self.0,
    {
        self.0
    }
}

impl Key for TupId {
    open spec fn lt(a: TupId, b: TupId) -> bool {
        a.0 < b.0
    }

    proof fn lt_irreflexive(a: TupId) {
    }

    proof fn lt_transitive(a: TupId, b: TupId, c: TupId) {
    }

    proof fn lt_total(a: TupId, b: TupId) {
        if a.0 == b.0 {
            assert(a == b);
        }
    }

    fn order(&self, other: &Self) -> (r: Order) {
        if self.0 < other.0 {
            Order::Less
        } else if self.0 == other.0 {
            Order::Equal
        } else {
            Order::Greater
        }
    }

    fn copy_key(&self) -> (r: Self) {
        *self
    }
}

/// There are at most as many identifiers as there are 64-bit numbers.
pub proof fn ids_are_finite(s: Set<TupId>)
    ensures
        s.finite(),
        s.len() <= 0x1_0000_0000_0000_0000,
{
    let lo = -0x8000_0000_0000_0000int;
    let hi = 0x8000_0000_0000_0000int;
    let f = |id: TupId| id.0 as int;
    let g = |i: int| TupId(i as i64);
    let all = vstd::set_lib::set_int_range(lo, hi);
    vstd::set_lib::lemma_int_range(lo, hi);
    all.lemma_map_finite(g);
    let full = all.map(g);
    assert(s.subset_of(full)) by {
        assert forall|id: TupId| s.contains(id) implies full.contains(id) by {
            assert(all.contains(f(id)));
            assert(g(f(id)) == id);
        }
    }
    vstd::set_lib::lemma_map_size_bound(all, full, g);
    vstd::set_lib::lemma_len_subset(s, full);
}

/// What a node is.
#[derive(Debug, Clone, Copy, PartialEq, Eq, Structural)]
pub enum NodeType {
    File,
    Cmd,
    Dir,
    Var,
    Generated,
    GhostNode,
    Group,
    GeneratedDir,
    Root,
}

/// The number by which a kind of node is stored.
pub open spec fn node_type_number(t: NodeType) -> i32 {
    match t {
        NodeType::File => 0,
        NodeType::Cmd => 1,
        NodeType::Dir => 2,
        NodeType::Var => 3,
        NodeType::Generated => 4,
        NodeType::GhostNode => 5,
        NodeType::Group => 6,
        NodeType::GeneratedDir => 7,
        NodeType::Root => 8,
    }
}

pub open spec fn node_type_name(t: NodeType) -> Seq<char> {
    match t {
        NodeType::File => "file"@,
        NodeType::Cmd => "command"@,
        NodeType::Dir => "directory"@,
        NodeType::Var => "variable"@,
        NodeType::Generated => "generated"@,
        NodeType::GhostNode => "ghost"@,
        NodeType::Group => "group"@,
        NodeType::GeneratedDir => "generated directory"@,
        NodeType::Root => "root"@,
    }
}

impl NodeType {
    /// What the type is called.
    pub fn name(&self) -> (r: &'static str)
        ensures
            r@ == node_type_name(*self),
    {
        match self {
            NodeType::File => "file",
            NodeType::Cmd => "command",
            NodeType::Dir => "directory",
            NodeType::Var => "variable",
            NodeType::Generated => "generated",
            NodeType::GhostNode => "ghost",
            NodeType::Group => "group",
            NodeType::GeneratedDir => "generated directory",
            NodeType::Root => "root",
        }
    }

    /// The number by which the kind is stored.
    pub fn as_i32(&self) -> (r: i32)
        ensures
            r == node_type_number(*self),
    {
        match self {
            NodeType::File => 0,
            NodeType::Cmd => 1,
            NodeType::Dir => 2,
            NodeType::Var => 3,
            NodeType::Generated => 4,
            NodeType::GhostNode => 5,
            NodeType::Group => 6,
            NodeType::GeneratedDir => 7,
            NodeType::Root => 8,
        }
    }

    /// The kind that a number stands for.
    pub fn from_i32(n: i32) -> (r: Option<NodeType>)
        ensures
            match r {
                Some(t) => node_type_number(t) == n,
                None => forall|t: NodeType| node_type_number(t) != n,
            },
    {
        if n == 0 {
            Some(NodeType::File)
        } else if n == 1 {
            Some(NodeType::Cmd)
        } else if n == 2 {
            Some(NodeType::Dir)
        } else if n == 3 {
            Some(NodeType::Var)
        } else if n == 4 {
            Some(NodeType::Generated)
        } else if n == 5 {
            Some(NodeType::GhostNode)
        } else if n == 6 {
            Some(NodeType::Group)
        } else if n == 7 {
            Some(NodeType::GeneratedDir)
        } else if n == 8 {
            Some(NodeType::Root)
        } else {
            None
        }
    }

    pub open spec fn spec_is_dir(self) -> bool {
        self == NodeType::Dir || self == NodeType::GeneratedDir
    }

    /// Whether the node is a directory.
    pub fn is_dir(&self) -> (r: bool)
        ensures
            r == self.spec_is_dir(),
    {
        match self {
            NodeType::Dir => true,
            NodeType::GeneratedDir => true,
            _ => false,
        }
    }
}

/// What a link between two nodes means.
#[derive(Debug, Clone, Copy, PartialEq, Eq, Structural)]
pub enum LinkType {
    Normal,
    Sticky,
    Group,
}

pub open spec fn link_name(t: LinkType) -> Seq<char> {
    match t {
        LinkType::Normal => "normal"@,
        LinkType::Sticky => "sticky"@,
        LinkType::Group => "group"@,
    }
}

impl LinkType {
    /// The name of the link type.
    pub fn name(&self) -> (r: &'static str)
        ensures
            r@ == link_name(*self),
    {
        match self {
            LinkType::Normal => "normal",
            LinkType::Sticky => "sticky",
            LinkType::Group => "group",
        }
    }
}

// ------------------------------------------------ numbers as texts

/// The decimal digit of a number below ten.
pub open spec fn digit(n: nat) -> char {
    if n == 0 {
        '0'
    } else if n == 1 {
        '1'
    } else if n == 2 {
        '2'
    } else if n == 3 {
        '3'
    } else if n == 4 {
        '4'
    } else if n == 5 {
        '5'
    } else if n == 6 {
        '6'
    } else if n == 7 {
        '7'
    } else if n == 8 {
        '8'
    } else {
        '9'
    }
}

/// A number in decimal.
pub open spec fn nat_text(n: nat) -> Seq<char>
    decreases n,
{
    if n < 10 {
        seq![digit(n)]
    } else {
        nat_text(n / 10).push(digit(n % 10))
    }
}

/// A number in decimal, with `-` before a negative one.
pub open spec fn int_text(n: int) -> Seq<char> {
    if n < 0 {
        seq!['-'] + nat_text((-n) as nat)
    } else {
        nat_text(n as nat)
    }
}

fn digit_char(n: u64) -> (r: char)
    requires
        n < 10,
    ensures
        r == digit(n as nat),
{
    if n == 0 {
        '0'
    } else if n == 1 {
        '1'
    } else if n == 2 {
        '2'
    } else if n == 3 {
        '3'
    } else if n == 4 {
        '4'
    } else if n == 5 {
        '5'
    } else if n == 6 {
        '6'
    } else if n == 7 {
        '7'
    } else if n == 8 {
        '8'
    } else {
        '9'
    }
}

/// Writes a number in decimal.
pub fn u64_to_string(n: u64) -> (r: String)
    ensures
        r@ == nat_text(n as nat),
    decreases n,
{
    if n < 10 {
        let mut s = String::new();
        s.push(digit_char(n));
        assert(s@ =~= seq![digit(n as nat)]);
        s
    } else {
        let mut s = u64_to_string(n / 10);
        s.push(digit_char(n % 10));
        s
    }
}

/// Writes a number in decimal.
pub fn i64_to_string(n: i64) -> (r: String)
    ensures
        r@ == int_text(n as int),
{
    if n < 0 {
        let m: u64 = (-(n as i128)) as u64;
        let mut s = String::new();
        s.push('-');
        let t = u64_to_string(m);
        s.append(t.as_str());
        assert(s@ =~= seq!['-'] + nat_text(m as nat));
        s
    } else {
        u64_to_string(n as u64)
    }
}

} // verus!
