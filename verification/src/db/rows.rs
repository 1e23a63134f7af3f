//! The table of nodes.
use vstd::prelude::*;

use crate::ids::{ascending, lists};
use crate::ordmap::{Dup, Key, Order, OrdMap};
use crate::parser::rule::{copy_opt, opt_text};
use crate::text::same;
use crate::types::{NodeType, TupId};

verus! {

/// A node of the database.
#[derive(Debug)]
pub struct NodeRow {
    pub id: TupId,
    /// The directory that the node is in.
    pub dir: TupId,
    pub node_type: NodeType,
    /// Time of the last change in seconds, -1 where it is unknown.
    pub mtime: i64,
    /// The part of a second of that time, in nanoseconds.
    pub mtime_ns: i64,
    /// The node that this one comes from, -1 for none.
    pub srcid: i64,
    pub name: String,
    /// What is shown in place of a command.
    pub display: Option<String>,
    pub flags: Option<String>,
}

/// A node as texts.
#[verifier::ext_equal]
pub struct RowText {
    pub id: TupId,
    pub dir: TupId,
    pub node_type: NodeType,
    pub mtime: i64,
    pub mtime_ns: i64,
    pub srcid: i64,
    pub name: Seq<char>,
    pub display: Option<Seq<char>>,
    pub flags: Option<Seq<char>>,
}

impl View for NodeRow {
    type V = RowText;

    open spec fn view(&self) -> RowText {
        RowText {
            id: self.id,
            dir: self.dir,
            node_type: self.node_type,
            mtime: self.mtime,
            mtime_ns: self.mtime_ns,
            srcid: self.srcid,
            name: self.name@,
            display: opt_text(self.display),
            flags: opt_text(self.flags),
        }
    }
}

impl Clone for NodeRow {
    fn clone(&self) -> (r: Self)
        ensures
            r@ == self@,
    {
        NodeRow {
            id: self.id,
            dir: self.dir,
            node_type: self.node_type,
            mtime: self.mtime,
            mtime_ns: self.mtime_ns,
            srcid: self.srcid,
            name: self.name.clone(),
            display: copy_opt(&self.display),
            flags: copy_opt(&self.flags),
        }
    }
}

impl Dup for NodeRow {
    fn dup(&self) -> (r: Self) {
        self.clone()
    }
}

pub open spec fn row_texts(v: Seq<NodeRow>) -> Seq<RowText> {
    Seq::new(v.len(), |i: int| v[i]@)
}

/// Whether a node has a name in a directory.
pub open spec fn is_named(
    nodes: Map<TupId, RowText>,
    dir: TupId,
    name: Seq<char>,
    id: TupId,
) -> bool {
    nodes.dom().contains(id) && nodes[id].dir == dir && nodes[id].name == name
}

/// The node with a name in a directory.
pub open spec fn find_named(
    nodes: Map<TupId, RowText>,
    dir: TupId,
    name: Seq<char>,
) -> Option<TupId> {
    if exists|id: TupId| is_named(nodes, dir, name, id) {
        Some(choose|id: TupId| is_named(nodes, dir, name, id))
    } else {
        None
    }
}

/// What holds of every table of nodes: each stands under its own identifier,
/// and no two in a directory have the same name.
pub open spec fn unique_names(nodes: Map<TupId, RowText>) -> bool {
    &&& forall|id: TupId| #[trigger] nodes.dom().contains(id) ==> nodes[id].id == id
    &&& forall|a: TupId, b: TupId|
        #![trigger nodes.dom().contains(a), nodes.dom().contains(b)]
        nodes.dom().contains(a) && nodes.dom().contains(b) && nodes[a].dir == nodes[b].dir
            && nodes[a].name == nodes[b].name ==> a == b
}

/// Whether another node has the place of a row: its name in its directory.
pub open spec fn is_taken(nodes: Map<TupId, RowText>, row: RowText) -> bool {
    exists|id: TupId| #[trigger] is_named(nodes, row.dir, row.name, id) && id != row.id
}

/// The greatest identifier.
pub open spec fn is_greatest(nodes: Map<TupId, RowText>, id: TupId) -> bool {
    nodes.dom().contains(id) && forall|x: TupId| #[trigger] nodes.dom().contains(x) ==> x.0 <= id.0
}

/// Whether an identifier is the least one above 0 that no node has.
pub open spec fn is_least_free(nodes: Map<TupId, RowText>, id: TupId) -> bool {
    &&& id.0 >= 1
    &&& !nodes.dom().contains(id)
    &&& forall|x: TupId| 1 <= x.0 < id.0 ==> #[trigger] nodes.dom().contains(x)
}

/// The identifier that a new node gets: one more than the greatest, or 1. Where
/// the greatest is the last that there is, it is the least one that no node has.
pub open spec fn new_id(nodes: Map<TupId, RowText>) -> Option<TupId> {
    if exists|id: TupId| #[trigger] is_greatest(nodes, id) {
        let g = choose|id: TupId| #[trigger] is_greatest(nodes, id);
        if g.0 < i64::MAX {
            Some(TupId((g.0 + 1) as i64))
        } else if exists|id: TupId| #[trigger] is_least_free(nodes, id) {
            Some(choose|id: TupId| #[trigger] is_least_free(nodes, id))
        } else {
            None
        }
    } else {
        Some(TupId(1))
    }
}

/// The rows of some nodes, in the order of the identifiers.
pub open spec fn rows_at(nodes: Map<TupId, RowText>, ids: Seq<TupId>) -> Seq<RowText> {
    Seq::new(ids.len(), |i: int| nodes[ids[i]])
}

/// The nodes for which a condition holds.
pub open spec fn rows_where(
    nodes: Map<TupId, RowText>,
    p: spec_fn(RowText) -> bool,
) -> Set<TupId> {
    Set::new(|id: TupId| nodes.dom().contains(id) && p(nodes[id]))
}

/// The table of nodes.
#[derive(Debug)]
pub struct NodeTable {
    rows: OrdMap<TupId, NodeRow>,
}

impl View for NodeTable {
    type V = Map<TupId, RowText>;

    closed spec fn view(&self) -> Map<TupId, RowText> {
        crate::ordmap::deep(self.rows@)
    }
}

impl NodeTable {
    #[verifier::type_invariant]
    spec fn wf(&self) -> bool {
        unique_names(crate::ordmap::deep(self.rows@))
    }

    pub fn new() -> (r: Self)
        ensures
            r@ == Map::<TupId, RowText>::empty(),
    {
        let rows: OrdMap<TupId, NodeRow> = OrdMap::new();
        assert(crate::ordmap::deep(rows@) =~= Map::<TupId, RowText>::empty());
        NodeTable { rows }
    }

    pub fn copy(&self) -> (r: Self)
        ensures
            r@ == self@,
    {
        proof {
            use_type_invariant(self);
        }
        NodeTable { rows: self.rows.copy() }
    }

    /// The number of nodes.
    pub fn len(&self) -> (r: usize)
        ensures
            r == self@.dom().len(),
    {
        assert(self@.dom() =~= self.rows@.dom());
        self.rows.len()
    }

    /// The node with an identifier.
    pub fn get(&self, id: TupId) -> (r: Option<&NodeRow>)
        ensures
            match r {
                Some(row) => self@.dom().contains(id) && self@[id] == row@ && row.id == id,
                None => !self@.dom().contains(id),
            },
            unique_names(self@),
    {
        proof {
            use_type_invariant(self);
        }
        match self.rows.get(&id) {
            Some(row) => {
                assert(self@.dom().contains(id));
                Some(row)
            },
            None => None,
        }
    }

    /// All nodes in the order of their identifiers.
    pub fn ids(&self) -> (r: Vec<TupId>)
        ensures
            r@ == ascending(self@.dom()),
            lists(r@, self@.dom()),
            unique_names(self@),
    {
        proof {
            use_type_invariant(self);
            assert(self@.dom() =~= self.rows@.dom());
        }
        crate::ids::ids_of(&self.rows)
    }

    /// The node with a name in a directory.
    pub fn find(&self, dir: TupId, name: &str) -> (r: Option<TupId>)
        ensures
            r == find_named(self@, dir, name@),
            match r {
                Some(id) => is_named(self@, dir, name@, id),
                None => forall|id: TupId| !#[trigger] is_named(self@, dir, name@, id),
            },
    {
        let ids = self.ids();
        let mut i: usize = 0;
        while i < ids.len()
            invariant
                i <= ids@.len(),
                lists(ids@, self@.dom()),
                unique_names(self@),
                forall|j: int| 0 <= j < i ==> !is_named(self@, dir, name@, #[trigger] ids@[j]),
            decreases ids.len() - i,
        {
            let id = ids[i];
            assert(ids@.contains(ids@[i as int]));
            match self.get(id) {
                Some(row) => {
                    if row.dir == dir && same(row.name.as_str(), name) {
                        proof {
                            assert(is_named(self@, dir, name@, id));
                            let c = choose|x: TupId| is_named(self@, dir, name@, x);
                            assert(is_named(self@, dir, name@, c));
                            assert(self@.dom().contains(c) && self@.dom().contains(id));
                        }
                        return Some(id);
                    }
                },
                None => {},
            }
            i += 1;
        }
        proof {
            assert forall|id: TupId| !#[trigger] is_named(self@, dir, name@, id) by {
                if is_named(self@, dir, name@, id) {
                    assert(ids@.contains(id));
                    let j = choose|j: int| 0 <= j < ids@.len() && ids@[j] == id;
                    assert(!is_named(self@, dir, name@, ids@[j]));
                }
            }
        }
        None
    }

    /// Puts a row under its identifier, in place of the one that is there.
    /// Where another node has its name in its directory, nothing changes.
    pub fn put(&mut self, row: NodeRow) -> (r: bool)
        ensures
            r == !is_taken(old(self)@, row@),
            r ==> final(self)@ == old(self)@.insert(row.id, row@),
            !r ==> final(self)@ == old(self)@,
    {
        let other = self.find(row.dir, row.name.as_str());
        proof {
            use_type_invariant(&*self);
        }
        let ghost before = self@;
        match other {
            Some(id) => {
                if id != row.id {
                    proof {
                        let text = row@;
                        assert(is_named(before, text.dir, text.name, id) && id != text.id);
                        assert(is_taken(before, text));
                    }
                    return false;
                }
            },
            None => {},
        }
        proof {
            assert(!is_taken(before, row@)) by {
                if is_taken(before, row@) {
                    let x = choose|x: TupId| #[trigger]
                        is_named(before, row@.dir, row@.name, x) && x != row@.id;
                    assert(is_named(before, row.dir, row.name@, x));
                    assert(before.dom().contains(x));
                    match other {
                        Some(id) => {
                            assert(before.dom().contains(id));
                        },
                        None => {},
                    }
                }
            }
        }
        let mut rows: OrdMap<TupId, NodeRow> = OrdMap::new();
        proof {
            assert(crate::ordmap::deep(rows@) =~= Map::<TupId, RowText>::empty());
        }
        std::mem::swap(&mut rows, &mut self.rows);
        let ghost m = rows@;
        let ghost text = row@;
        rows.insert(row.id, row);
        proof {
            crate::ordmap::lemma_deep_insert(m, row.id, row);
            let after = crate::ordmap::deep(rows@);
            assert(after == before.insert(text.id, text));
            assert forall|a: TupId, b: TupId|
                #![trigger after.dom().contains(a), after.dom().contains(b)]
                after.dom().contains(a) && after.dom().contains(b) && after[a].dir == after[b].dir
                    && after[a].name == after[b].name implies a == b by {
                if a != text.id && b != text.id {
                    assert(before.dom().contains(a) && before.dom().contains(b));
                } else if a != b {
                    let x = if a == text.id { b } else { a };
                    assert(is_named(before, text.dir, text.name, x));
                }
            }
            assert forall|id: TupId| #[trigger] after.dom().contains(id) implies after[id].id
                == id by {
                if id != text.id {
                    assert(before.dom().contains(id));
                }
            }
        }
        self.rows = rows;
        true
    }

    /// Removes a node, and says whether it was there.
    pub fn remove(&mut self, id: TupId) -> (r: bool)
        ensures
            r == old(self)@.dom().contains(id),
            final(self)@ == old(self)@.remove(id),
    {
        proof {
            use_type_invariant(&*self);
        }
        let ghost before = self@;
        let mut rows: OrdMap<TupId, NodeRow> = OrdMap::new();
        proof {
            assert(crate::ordmap::deep(rows@) =~= Map::<TupId, RowText>::empty());
        }
        std::mem::swap(&mut rows, &mut self.rows);
        let ghost m = rows@;
        let gone = rows.remove(&id).is_some();
        proof {
            crate::ordmap::lemma_deep_remove(m, id);
            let after = crate::ordmap::deep(rows@);
            assert forall|a: TupId, b: TupId|
                #![trigger after.dom().contains(a), after.dom().contains(b)]
                after.dom().contains(a) && after.dom().contains(b) && after[a].dir == after[b].dir
                    && after[a].name == after[b].name implies a == b by {
                assert(before.dom().contains(a) && before.dom().contains(b));
            }
            assert forall|x: TupId| #[trigger] after.dom().contains(x) implies after[x].id == x by {
                assert(before.dom().contains(x));
            }
        }
        self.rows = rows;
        gone
    }

    /// The identifier for a new node, unless there is none left.
    pub fn next_id(&self) -> (r: Option<TupId>)
        ensures
            r == new_id(self@),
            r is Some ==> !self@.dom().contains(r->0),
    {
        let ids = self.ids();
        if ids.len() == 0 {
            proof {
                assert forall|id: TupId| !#[trigger] is_greatest(self@, id) by {
                    if self@.dom().contains(id) {
                        assert(ids@.contains(id));
                    }
                }
                if self@.dom().contains(TupId(1)) {
                    assert(ids@.contains(TupId(1)));
                }
            }
            return Some(TupId::new(1));
        }
        let last = ids[ids.len() - 1];
        proof {
            assert(ids@.contains(ids@[ids@.len() - 1]));
            assert forall|x: TupId| #[trigger] self@.dom().contains(x) implies x.0 <= last.0 by {
                assert(ids@.contains(x));
                let j = choose|j: int| 0 <= j < ids@.len() && ids@[j] == x;
                if j < ids@.len() - 1 {
                    assert(ids@[j].0 < ids@[ids@.len() - 1].0);
                }
            }
            assert(is_greatest(self@, last));
            let c = choose|id: TupId| #[trigger] is_greatest(self@, id);
            assert(is_greatest(self@, c));
            assert(self@.dom().contains(c) && self@.dom().contains(last));
            assert(c.0 == last.0);
        }
        let n: i64 = last.raw();
        if n == i64::MAX {
            return self.least_free(&ids);
        }
        Some(TupId::new(n + 1))
    }

    /// The least identifier above 0 that no node has.
    fn least_free(&self, ids: &Vec<TupId>) -> (r: Option<TupId>)
        requires
            lists(ids@, self@.dom()),
        ensures
            match r {
                Some(id) => {
                    &&& is_least_free(self@, id)
                    &&& id == choose|x: TupId| #[trigger] is_least_free(self@, x)
                },
                None => forall|x: TupId| !#[trigger] is_least_free(self@, x),
            },
    {
        let mut want: i64 = 1;
        let mut i: usize = 0;
        while i < ids.len() && ids[i].raw() <= want
            invariant
                i <= ids.len(),
                want >= 1,
                lists(ids@, self@.dom()),
                forall|j: int| 0 <= j < i ==> (#[trigger] ids@[j]).0 < want,
                forall|x: TupId| 1 <= x.0 < want ==> #[trigger] self@.dom().contains(x),
            decreases ids.len() - i,
        {
            let id = ids[i];
            assert(ids@.contains(ids@[i as int]));
            if id.raw() == want {
                if want == i64::MAX {
                    proof {
                        assert forall|x: TupId| !#[trigger] is_least_free(self@, x) by {
                            assert(id == TupId(i64::MAX));
                            if 1 <= x.0 && x != id {
                                assert(self@.dom().contains(x));
                            }
                        }
                    }
                    return None;
                }
                want = want + 1;
                assert forall|x: TupId| 1 <= x.0 < want implies #[trigger] self@.dom().contains(
                    x,
                ) by {
                    if x.0 == id.0 {
                        assert(x == id);
                    }
                }
            }
            i += 1;
        }
        let r = TupId::new(want);
        proof {
            if self@.dom().contains(r) {
                assert(ids@.contains(r));
                let j = choose|j: int| 0 <= j < ids@.len() && ids@[j] == r;
                if j > i {
                    assert(ids@[i as int].0 < ids@[j].0);
                }
            }
            assert(is_least_free(self@, r));
            let c = choose|x: TupId| #[trigger] is_least_free(self@, x);
            assert(is_least_free(self@, c));
            if c.0 < r.0 {
                assert(self@.dom().contains(c));
            }
            if r.0 < c.0 {
                assert(self@.dom().contains(r));
            }
            assert(c == r);
        }
        Some(r)
    }
}

/// The key of a link: where it leads from and to.
#[derive(Debug, Clone, Copy, PartialEq, Eq, Structural)]
pub struct LinkKey(pub TupId, pub TupId);

impl View for LinkKey {
    type V = (TupId, TupId);

    open spec fn view(&self) -> (TupId, TupId) {
        (self.0, self.1)
    }
}

impl Key for LinkKey {
    open spec fn lt(a: (TupId, TupId), b: (TupId, TupId)) -> bool {
        a.0.0 < b.0.0 || (a.0 == b.0 && a.1.0 < b.1.0)
    }

    proof fn lt_irreflexive(a: (TupId, TupId)) {
    }

    proof fn lt_transitive(a: (TupId, TupId), b: (TupId, TupId), c: (TupId, TupId)) {
    }

    proof fn lt_total(a: (TupId, TupId), b: (TupId, TupId)) {
        if a.0.0 == b.0.0 {
            assert(a.0 == b.0);
        }
        if a.1.0 == b.1.0 {
            assert(a.1 == b.1);
        }
    }

    fn order(&self, other: &Self) -> (r: Order) {
        if self.0.raw() < other.0.raw() {
            Order::Less
        } else if self.0.raw() > other.0.raw() {
            Order::Greater
        } else if self.1.raw() < other.1.raw() {
            Order::Less
        } else if self.1.raw() > other.1.raw() {
            Order::Greater
        } else {
            Order::Equal
        }
    }

    fn copy_key(&self) -> (r: Self) {
        *self
    }
}

/// The key of a link of a group: where it leads from and to, and the command
/// for which it is there.
#[derive(Debug, Clone, Copy, PartialEq, Eq, Structural)]
pub struct GroupKey(pub TupId, pub TupId, pub TupId);

impl View for GroupKey {
    type V = (TupId, TupId, TupId);

    open spec fn view(&self) -> (TupId, TupId, TupId) {
        (self.0, self.1, self.2)
    }
}

impl Key for GroupKey {
    open spec fn lt(a: (TupId, TupId, TupId), b: (TupId, TupId, TupId)) -> bool {
        a.0.0 < b.0.0 || (a.0 == b.0 && (a.1.0 < b.1.0 || (a.1 == b.1 && a.2.0 < b.2.0)))
    }

    proof fn lt_irreflexive(a: (TupId, TupId, TupId)) {
    }

    proof fn lt_transitive(
        a: (TupId, TupId, TupId),
        b: (TupId, TupId, TupId),
        c: (TupId, TupId, TupId),
    ) {
    }

    proof fn lt_total(a: (TupId, TupId, TupId), b: (TupId, TupId, TupId)) {
        if a.0.0 == b.0.0 {
            assert(a.0 == b.0);
        }
        if a.1.0 == b.1.0 {
            assert(a.1 == b.1);
        }
        if a.2.0 == b.2.0 {
            assert(a.2 == b.2);
        }
    }

    fn order(&self, other: &Self) -> (r: Order) {
        if self.0.raw() < other.0.raw() {
            Order::Less
        } else if self.0.raw() > other.0.raw() {
            Order::Greater
        } else if self.1.raw() < other.1.raw() {
            Order::Less
        } else if self.1.raw() > other.1.raw() {
            Order::Greater
        } else if self.2.raw() < other.2.raw() {
            Order::Less
        } else if self.2.raw() > other.2.raw() {
            Order::Greater
        } else {
            Order::Equal
        }
    }

    fn copy_key(&self) -> (r: Self) {
        *self
    }
}

} // verus!
