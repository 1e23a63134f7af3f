//! The variables of the configuration as nodes.
use vstd::prelude::*;

use crate::db::entry::EntryCache;
use crate::db::errors::{DbError, DbErrorText};
use crate::db::laws::a_new_node_is_found;
use crate::db::links::nodes_in;
use crate::db::nodes::{world, NewNode, World};
use crate::db::rows::{is_named, row_texts, unique_names, NodeRow, RowText};
use crate::db::tables::{dot, dot_dt, TablesText, TupDb};
use crate::ids::{ascending, ascending_lists};
use crate::ordmap::{map_of, pair_views, OrdMap};
use crate::text::same;
use crate::types::{NodeType, TupId};

verus! {

impl TablesText {
    /// A variable and its node are gone.
    pub open spec fn drop_var(self, id: TupId) -> TablesText {
        TablesText { vars: self.vars.remove(id), nodes: self.nodes.remove(id), ..self }
    }

    /// Of some nodes, those whose name is not among others are gone.
    pub open spec fn drop_unset(self, rows: Seq<RowText>, names: Set<Seq<char>>) -> TablesText
        decreases rows.len(),
    {
        if rows.len() == 0 {
            self
        } else {
            (if names.contains(rows[0].name) {
                self
            } else {
                self.drop_var(rows[0].id)
            }).drop_unset(rows.drop_first(), names)
        }
    }

    pub open spec fn set_var(self, id: TupId, value: Seq<char>) -> TablesText {
        TablesText { vars: self.vars.insert(id, value), ..self }
    }

    /// Variables have nodes in a directory, and their values.
    pub open spec fn set_vars(self, dir: TupId, pairs: Seq<(Seq<char>, Seq<char>)>) -> (
        TablesText,
        Option<DbErrorText>,
    )
        decreases pairs.len(),
    {
        if pairs.len() == 0 {
            (self, None)
        } else {
            let (name, value) = pairs[0];
            match self.select(dir, name) {
                Some(id) => self.set_var(id, value).set_vars(dir, pairs.drop_first()),
                None => match self.new_row(dir, name, NodeType::Var, 0, 0, -1i64, None, None) {
                    Err(e) => (self, Some(e)),
                    Ok(row) => self.put(row).set_var(row.id, value).set_vars(
                        dir,
                        pairs.drop_first(),
                    ),
                },
            }
        }
    }
}

/// The node of the configuration file.
pub open spec fn config_node() -> NewNode {
    NewNode {
        dir: dot(),
        name: "tup.config"@,
        node_type: NodeType::File,
        srcid: -1i64,
        mtime: 0,
        mtime_ns: 0,
        display: None,
        flags: None,
    }
}

impl World {
    /// The node of the configuration file, which is made where it is missing.
    pub open spec fn config_id(self) -> (World, Result<TupId, DbErrorText>) {
        match self.tables.select(dot(), "tup.config"@) {
            Some(id) => (self, Ok(id)),
            None => {
                let (w, made) = self.create(config_node());
                match made {
                    Ok(c) => (w, Ok(c.spec_id())),
                    Err(e) => (w, Err(e)),
                }
            },
        }
    }

    /// The nodes below the configuration file are the variables of the
    /// configuration.
    pub open spec fn sync_config(self, pairs: Seq<(Seq<char>, Seq<char>)>) -> (
        World,
        Option<DbErrorText>,
    ) {
        let (w, found) = self.config_id();
        match found {
            Err(e) => (w, Some(e)),
            Ok(dir) => {
                let (t, failed) = w.tables.drop_unset(
                    w.tables.rows_in(dir),
                    map_of(pairs).dom(),
                ).set_vars(dir, pairs);
                (World { tables: t, cache: w.cache }, failed)
            },
        }
    }
}

/// Stores the variables of the configuration as nodes below that of its file.
/// Variables that are not set any more are removed.
pub fn sync_config_vars(
    db: &mut TupDb,
    cache: &mut EntryCache,
    config: &OrdMap<String, String>,
) -> (r: Result<(), DbError>)
    ensures
        ({
            let (w, failed) = world(*old(db), *old(cache)).sync_config(
                pair_views(config.pairs()),
            );
            &&& final(db)@ == old(db)@.with(w.tables)
            &&& final(cache)@ == w.cache
            &&& match r {
                Ok(()) => failed is None,
                Err(e) => failed == Some(e@),
            }
        }),
{
    let ghost start = world(*db, *cache);
    let ghost pairs = pair_views(config.pairs());
    let dir = match db.node_select(dot_dt(), "tup.config") {
        Some(row) => row.id,
        None => match db.create_node(cache, dot_dt(), "tup.config", NodeType::File, -1, 0, 0) {
            Ok(c) => c.id(),
            Err(e) => {
                return Err(e);
            },
        },
    };
    let ghost w = start.config_id().0;
    assert(world(*db, *cache) == w);
    let rows = db.node_select_dir(dir);
    drop_unset_vars(db, &rows, config);
    let ghost t = w.tables.drop_unset(w.tables.rows_in(dir), map_of(pairs).dom());
    let n = config.len();
    let mut i: usize = 0;
    assert(pairs.skip(0) =~= pairs);
    while i < n
        invariant
            i <= n,
            n == config.pairs().len(),
            pairs == pair_views(config.pairs()),
            db@ == old(db)@.with(db@.tables),
            cache@ == w.cache,
            t.set_vars(dir, pairs) == db@.tables.set_vars(dir, pairs.skip(i as int)),
            start == world(*old(db), *old(cache)),
            start.config_id() == (w, Ok::<TupId, DbErrorText>(dir)),
            t == w.tables.drop_unset(w.tables.rows_in(dir), map_of(pairs).dom()),
        decreases n - i,
    {
        let (name, value) = config.at(i);
        proof {
            assert(pairs.skip(i as int)[0] == (name@, value@));
            assert(pairs.skip(i as int).drop_first() =~= pairs.skip(i + 1));
        }
        match db.node_select(dir, name.as_str()) {
            Some(row) => {
                let changed = match db.var_get(row.id) {
                    Some(v) => !same(v.as_str(), value.as_str()),
                    None => true,
                };
                if changed {
                    db.var_set(row.id, value.as_str());
                } else {
                    assert(db@.tables.vars.insert(row.id, value@) =~= db@.tables.vars);
                    assert(db@.tables.set_var(row.id, value@) == db@.tables);
                }
            },
            None => {
                match db.node_insert(dir, name.as_str(), NodeType::Var, 0, 0, -1, None, None) {
                    Ok(id) => {
                        db.var_set(id, value.as_str());
                    },
                    Err(e) => {
                        return Err(e);
                    },
                }
            },
        }
        i += 1;
    }
    assert(pairs.skip(i as int) =~= Seq::empty());
    Ok(())
}

fn drop_unset_vars(db: &mut TupDb, rows: &Vec<NodeRow>, config: &OrdMap<String, String>)
    ensures
        final(db)@ == old(db)@.with(
            old(db)@.tables.drop_unset(
                row_texts(rows@),
                map_of(pair_views(config.pairs())).dom(),
            ),
        ),
{
    let ghost all = row_texts(rows@);
    let ghost names = map_of(pair_views(config.pairs())).dom();
    let ghost t = db@.tables;
    proof {
        crate::ordmap::lemma_map_of_views(config.pairs());
        assert(all.skip(0) =~= all);
    }
    let n = config.len();
    assert(names =~= config@.dom());
    let mut i: usize = 0;
    while i < rows.len()
        invariant
            i <= rows.len(),
            all == row_texts(rows@),
            names == config@.dom(),
            t.drop_unset(all, names) == db@.tables.drop_unset(all.skip(i as int), names),
            db@ == old(db)@.with(db@.tables),
        decreases rows.len() - i,
    {
        proof {
            assert(all.skip(i as int)[0] == rows@[i as int]@);
            assert(all.skip(i as int).drop_first() =~= all.skip(i + 1));
        }
        if !config.contains(&rows[i].name) {
            db.var_delete(rows[i].id);
            db.node_delete(rows[i].id);
        }
        i += 1;
    }
    assert(all.skip(i as int) =~= Seq::empty());
}

// ------------------------------------------------ what holds of the variables

proof fn lemma_drop_unset(t: TablesText, rows: Seq<RowText>, names: Set<Seq<char>>)
    ensures
        ({
            let u = t.drop_unset(rows, names);
            &&& forall|id: TupId| #[trigger]
                u.nodes.dom().contains(id) ==> t.nodes.dom().contains(id) && u.nodes[id]
                    == t.nodes[id]
            &&& forall|i: int|
                0 <= i < rows.len() && !names.contains((#[trigger] rows[i]).name)
                    ==> !u.nodes.dom().contains(rows[i].id)
        }),
    decreases rows.len(),
{
    if rows.len() > 0 {
        let v = if names.contains(rows[0].name) {
            t
        } else {
            t.drop_var(rows[0].id)
        };
        let rest = rows.drop_first();
        lemma_drop_unset(v, rest, names);
        let u = t.drop_unset(rows, names);
        assert(u == v.drop_unset(rest, names));
        assert forall|id: TupId| #[trigger] u.nodes.dom().contains(id) implies t.nodes.dom().contains(
            id,
        ) && u.nodes[id] == t.nodes[id] by {
            assert(v.nodes.dom().contains(id));
        }
        assert forall|i: int|
            0 <= i < rows.len() && !names.contains((#[trigger] rows[i]).name) implies
            !u.nodes.dom().contains(rows[i].id) by {
            if i > 0 {
                assert(rest[i - 1] == rows[i]);
            } else if u.nodes.dom().contains(rows[0].id) {
                assert(v.nodes.dom().contains(rows[0].id));
            }
        }
    }
}

/// Whether every node of a directory has a name of a set.
pub open spec fn only_named(t: TablesText, dir: TupId, names: Set<Seq<char>>) -> bool {
    forall|id: TupId| #[trigger]
        t.nodes.dom().contains(id) && t.nodes[id].dir == dir ==> names.contains(t.nodes[id].name)
}

/// Whether a directory holds a variable with a value.
pub open spec fn holds_var(t: TablesText, dir: TupId, name: Seq<char>, value: Seq<char>) -> bool {
    match t.select(dir, name) {
        Some(id) => t.vars.dom().contains(id) && t.vars[id] == value,
        None => false,
    }
}

/// Whether each name stands once in pairs.
pub open spec fn names_once(pairs: Seq<(Seq<char>, Seq<char>)>) -> bool {
    forall|i: int, j: int|
        0 <= i < j < pairs.len() ==> (#[trigger] pairs[i]).0 != (#[trigger] pairs[j]).0
}

proof fn lemma_set_vars(
    t: TablesText,
    dir: TupId,
    pairs: Seq<(Seq<char>, Seq<char>)>,
    names: Set<Seq<char>>,
)
    requires
        unique_names(t.nodes),
        names_once(pairs),
        only_named(t, dir, names),
        forall|i: int| 0 <= i < pairs.len() ==> names.contains((#[trigger] pairs[i]).0),
    ensures
        ({
            let (u, failed) = t.set_vars(dir, pairs);
            &&& unique_names(u.nodes)
            &&& only_named(u, dir, names)
            &&& forall|n: Seq<char>, v: Seq<char>|
                (forall|i: int| 0 <= i < pairs.len() ==> (#[trigger] pairs[i]).0 != n)
                    && holds_var(t, dir, n, v) ==> #[trigger] holds_var(u, dir, n, v)
            &&& failed is None ==> forall|i: int|
                0 <= i < pairs.len() ==> holds_var(u, dir, (#[trigger] pairs[i]).0, pairs[i].1)
        }),
    decreases pairs.len(),
{
    if pairs.len() > 0 {
        let (name, value) = pairs[0];
        let rest = pairs.drop_first();
        assert forall|i: int| 0 <= i < rest.len() implies names.contains((#[trigger] rest[i]).0)
            && rest[i].0 != name by {
            assert(rest[i] == pairs[i + 1]);
        }
        assert forall|i: int, j: int| 0 <= i < j < rest.len() implies (#[trigger] rest[i]).0 != (
        #[trigger] rest[j]).0 by {
            assert(rest[i] == pairs[i + 1] && rest[j] == pairs[j + 1]);
        }
        assert(names.contains(pairs[0].0));
        let new = t.new_row(dir, name, NodeType::Var, 0, 0, -1i64, None, None);
        if t.select(dir, name) is Some || new is Ok {
            let v = match t.select(dir, name) {
                Some(id) => t.set_var(id, value),
                None => t.put(new->Ok_0).set_var(new->Ok_0.id, value),
            };
            if t.select(dir, name) is None {
                a_new_node_is_found(t, dir, name, NodeType::Var, 0, 0, -1i64, None, None);
                assert(v.nodes == t.put(new->Ok_0).nodes);
                crate::db::store_laws::new_identifier_is_new(t.nodes);
            }
            assert(unique_names(v.nodes));
            assert(only_named(v, dir, names)) by {
                assert forall|id: TupId| #[trigger]
                    v.nodes.dom().contains(id) && v.nodes[id].dir == dir implies names.contains(
                    v.nodes[id].name,
                ) by {
                    if t.nodes.dom().contains(id) {
                        assert(v.nodes[id] == t.nodes[id]);
                    }
                }
            }
            assert(holds_var(v, dir, name, value));
            assert forall|n: Seq<char>, x: Seq<char>|
                n != name && holds_var(t, dir, n, x) implies #[trigger] holds_var(v, dir, n, x) by {
                let id = t.select(dir, n)->0;
                assert(is_named(t.nodes, dir, n, id));
                if t.select(dir, name) is Some {
                    let other = t.select(dir, name)->0;
                    assert(is_named(t.nodes, dir, name, other));
                    assert(other != id);
                } else {
                    assert(t.put(new->Ok_0).select(dir, n) == t.select(dir, n));
                    assert(new->Ok_0.id != id);
                }
            }
            lemma_set_vars(v, dir, rest, names);
            let (u, failed) = t.set_vars(dir, pairs);
            assert((u, failed) == v.set_vars(dir, rest));
            assert(holds_var(u, dir, name, value));
            assert forall|n: Seq<char>, x: Seq<char>|
                (forall|i: int| 0 <= i < pairs.len() ==> (#[trigger] pairs[i]).0 != n)
                    && holds_var(t, dir, n, x) implies #[trigger] holds_var(u, dir, n, x) by {
                assert(pairs[0].0 != n);
                assert(holds_var(v, dir, n, x));
                assert forall|i: int| 0 <= i < rest.len() implies (#[trigger] rest[i]).0 != n by {
                    assert(rest[i] == pairs[i + 1]);
                }
            }
            if failed is None {
                assert forall|i: int| 0 <= i < pairs.len() implies holds_var(
                    u,
                    dir,
                    (#[trigger] pairs[i]).0,
                    pairs[i].1,
                ) by {
                    if i > 0 {
                        assert(rest[i - 1] == pairs[i]);
                    }
                }
            }
        }
    }
}

proof fn lemma_pair_names(pairs: Seq<(Seq<char>, Seq<char>)>)
    ensures
        forall|i: int|
            0 <= i < pairs.len() ==> map_of(pairs).dom().contains((#[trigger] pairs[i]).0),
    decreases pairs.len(),
{
    if pairs.len() > 0 {
        let init = pairs.drop_last();
        lemma_pair_names(init);
        assert forall|i: int| 0 <= i < pairs.len() implies map_of(pairs).dom().contains(
            (#[trigger] pairs[i]).0,
        ) by {
            if i < init.len() {
                assert(init[i] == pairs[i]);
            }
        }
    }
}

/// After the configuration was stored, the nodes below its file are its
/// variables, each with its value, and no others.
pub proof fn the_configuration_is_stored(w: World, pairs: Seq<(Seq<char>, Seq<char>)>)
    requires
        unique_names(w.tables.nodes),
        names_once(pairs),
        w.sync_config(pairs).1 is None,
    ensures
        ({
            let dir = w.config_id().1->Ok_0;
            let u = w.sync_config(pairs).0.tables;
            &&& only_named(u, dir, map_of(pairs).dom())
            &&& forall|i: int|
                0 <= i < pairs.len() ==> holds_var(u, dir, (#[trigger] pairs[i]).0, pairs[i].1)
        }),
{
    let dir = w.config_id().1->Ok_0;
    let t = w.config_id().0.tables;
    assert(unique_names(t.nodes)) by {
        if w.tables.select(dot(), "tup.config"@) is None {
            a_new_node_is_found(
                w.tables,
                dot(),
                "tup.config"@,
                NodeType::File,
                0,
                0,
                -1i64,
                None,
                None,
            );
        }
    }
    let names = map_of(pairs).dom();
    let rows = t.rows_in(dir);
    let u = t.drop_unset(rows, names);
    lemma_drop_unset(t, rows, names);
    lemma_pair_names(pairs);
    let ids = ascending(nodes_in(t.nodes, dir));
    ascending_lists(nodes_in(t.nodes, dir));
    assert(only_named(u, dir, names)) by {
        assert forall|id: TupId| #[trigger]
            u.nodes.dom().contains(id) && u.nodes[id].dir == dir implies names.contains(
            u.nodes[id].name,
        ) by {
            assert(nodes_in(t.nodes, dir).contains(id));
            assert(ids.contains(id));
            let k = choose|k: int| 0 <= k < ids.len() && ids[k] == id;
            assert(rows[k] == t.nodes[id]);
            assert(rows[k].id == id);
        }
    }
    assert(unique_names(u.nodes)) by {
        assert forall|a: TupId, b: TupId|
            #![trigger u.nodes.dom().contains(a), u.nodes.dom().contains(b)]
            u.nodes.dom().contains(a) && u.nodes.dom().contains(b) && u.nodes[a].dir
                == u.nodes[b].dir && u.nodes[a].name == u.nodes[b].name implies a == b by {
            assert(t.nodes.dom().contains(a) && t.nodes.dom().contains(b));
        }
    }
    lemma_set_vars(u, dir, pairs, names);
}

} // verus!
