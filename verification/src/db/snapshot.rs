//! The tables as lists, to be kept outside of memory.
use vstd::prelude::*;

use crate::db::errors::DbError;
use crate::db::rows::{is_named, is_taken, row_texts, unique_names, NodeRow, RowText};
use crate::db::tables::{setting_texts, taken_error, var_texts, TablesText, TupDb, TupFlags};
use crate::ids::lists;
use crate::ordmap::map_of;
use crate::text::copy_str;
use crate::types::{LinkType, TupId};

verus! {

/// All rows of all tables.
#[derive(Debug)]
pub struct Snapshot {
    pub nodes: Vec<NodeRow>,
    pub normal: Vec<(TupId, TupId)>,
    pub sticky: Vec<(TupId, TupId)>,
    pub group: Vec<(TupId, TupId, TupId)>,
    pub config: Vec<TupId>,
    pub create: Vec<TupId>,
    pub modify: Vec<TupId>,
    pub variant: Vec<TupId>,
    pub transient: Vec<TupId>,
    pub vars: Vec<(TupId, String)>,
    pub settings: Vec<(String, String)>,
}

/// Nodes with rows added, one after the other. A name that is taken is an error.
pub open spec fn put_rows(nodes: Map<TupId, RowText>, rows: Seq<RowText>) -> Option<
    Map<TupId, RowText>,
>
    decreases rows.len(),
{
    if rows.len() == 0 {
        Some(nodes)
    } else if is_taken(nodes, rows[0]) {
        None
    } else {
        put_rows(nodes.insert(rows[0].id, rows[0]), rows.drop_first())
    }
}

impl Snapshot {
    pub open spec fn marked(self, f: TupFlags) -> Set<TupId> {
        match f {
            TupFlags::Config => self.config@.to_set(),
            TupFlags::Create => self.create@.to_set(),
            TupFlags::Modify => self.modify@.to_set(),
            TupFlags::Variant => self.variant@.to_set(),
            TupFlags::Transient => self.transient@.to_set(),
        }
    }

    /// The tables whose rows these are.
    pub open spec fn tables(self) -> Option<TablesText> {
        match put_rows(Map::empty(), row_texts(self.nodes@)) {
            None => None,
            Some(nodes) => Some(
                TablesText {
                    nodes,
                    normal: self.normal@.to_set(),
                    sticky: self.sticky@.to_set(),
                    group: self.group@.to_set(),
                    flags: |f: TupFlags| self.marked(f),
                    vars: map_of(var_texts(self.vars@)),
                    settings: map_of(setting_texts(self.settings@)),
                },
            ),
        }
    }
}

proof fn lemma_put_all(nodes: Map<TupId, RowText>, ids: Seq<TupId>, rows: Seq<RowText>, i: int)
    requires
        unique_names(nodes),
        lists(ids, nodes.dom()),
        0 <= i <= ids.len(),
        rows.len() == ids.len(),
        forall|j: int| 0 <= j < ids.len() ==> #[trigger] rows[j] == nodes[ids[j]],
    ensures
        put_rows(nodes.restrict(ids.take(i).to_set()), rows.skip(i)) == Some(nodes),
    decreases ids.len() - i,
{
    let here = nodes.restrict(ids.take(i).to_set());
    if i == ids.len() {
        assert(rows.skip(i) =~= Seq::empty());
        assert(ids.take(i) =~= ids);
        assert(here =~= nodes);
    } else {
        let row = rows[i];
        assert(ids.contains(ids[i]));
        assert(nodes.dom().contains(ids[i]));
        assert(row.id == ids[i]);
        assert(rows.skip(i)[0] == row);
        assert(!is_taken(here, row)) by {
            if is_taken(here, row) {
                let x = choose|x: TupId| #[trigger]
                    is_named(here, row.dir, row.name, x) && x != row.id;
                assert(nodes.dom().contains(x) && nodes.dom().contains(ids[i]));
            }
        }
        let next = nodes.restrict(ids.take(i + 1).to_set());
        crate::db::tables::lemma_take_to_set(ids, i);
        assert(here.insert(row.id, row) =~= next);
        assert(rows.skip(i).drop_first() =~= rows.skip(i + 1));
        lemma_put_all(nodes, ids, rows, i + 1);
    }
}

impl TupDb {
    /// All rows of all tables. The tables can be made of them again.
    pub fn snapshot(&self) -> (r: Snapshot)
        ensures
            r.tables() == Some(self@.tables),
    {
        let ids = self.node_ids();
        let ghost nodes = self@.tables.nodes;
        let mut rows: Vec<NodeRow> = Vec::new();
        let mut i: usize = 0;
        while i < ids.len()
            invariant
                i <= ids.len(),
                lists(ids@, self@.tables.nodes.dom()),
                rows@.len() == i,
                forall|j: int|
                    0 <= j < i ==> (#[trigger] rows@[j])@ == self@.tables.nodes[ids@[j]],
            decreases ids.len() - i,
        {
            assert(ids@.contains(ids@[i as int]));
            rows.push(self.row(ids[i]).clone());
            i += 1;
        }
        let s = Snapshot {
            nodes: rows,
            normal: self.normal_links(),
            sticky: self.sticky_links(),
            group: self.group_links(),
            config: self.flag_list(TupFlags::Config),
            create: self.flag_list(TupFlags::Create),
            modify: self.flag_list(TupFlags::Modify),
            variant: self.flag_list(TupFlags::Variant),
            transient: self.flag_list(TupFlags::Transient),
            vars: self.var_list(),
            settings: self.setting_list(),
        };
        proof {
            let texts = row_texts(s.nodes@);
            lemma_put_all(nodes, ids@, texts, 0);
            assert(texts.skip(0) =~= texts);
            assert(nodes.restrict(ids@.take(0).to_set()) =~= Map::empty());
            assert forall|f: TupFlags| #[trigger] s.marked(f) == (self@.tables.flags)(f) by {
                assert(s.marked(f) =~= (self@.tables.flags)(f));
            }
            assert(s.tables()->0.flags =~= self@.tables.flags);
        }
        s
    }

    /// The database that has these rows.
    pub fn from_snapshot(s: &Snapshot) -> (r: Result<TupDb, DbError>)
        ensures
            match (r, s.tables()) {
                (Ok(db), Some(t)) => db@.tables == t && db@.saved is None,
                (Err(e), None) => e@ == taken_error(),
                _ => false,
            },
    {
        let mut db = TupDb::empty();
        let ghost rows = row_texts(s.nodes@);
        let mut i: usize = 0;
        assert(rows.skip(0) =~= rows);
        let ghost bare = db@.tables;
        while i < s.nodes.len()
            invariant
                i <= s.nodes.len(),
                rows == row_texts(s.nodes@),
                put_rows(Map::empty(), rows) == put_rows(db@.tables.nodes, rows.skip(i as int)),
                db@.saved is None,
                db@.tables == (TablesText { nodes: db@.tables.nodes, ..bare }),
            decreases s.nodes.len() - i,
        {
            proof {
                assert(rows.skip(i as int)[0] == s.nodes@[i as int]@);
                assert(rows.skip(i as int).drop_first() =~= rows.skip(i + 1));
            }
            if !db.put_row(s.nodes[i].clone()) {
                return Err(
                    DbError::Sqlite(copy_str("UNIQUE constraint failed: node.dir, node.name")),
                );
            }
            i += 1;
        }
        assert(rows.skip(i as int) =~= Seq::empty());
        add_links(&mut db, &s.normal, LinkType::Normal);
        add_links(&mut db, &s.sticky, LinkType::Sticky);
        add_groups(&mut db, &s.group);
        let _ = db.flag_add_all(&s.config, TupFlags::Config);
        let _ = db.flag_add_all(&s.create, TupFlags::Create);
        let _ = db.flag_add_all(&s.modify, TupFlags::Modify);
        let _ = db.flag_add_all(&s.variant, TupFlags::Variant);
        let _ = db.flag_add_all(&s.transient, TupFlags::Transient);
        add_vars(&mut db, &s.vars);
        add_settings(&mut db, &s.settings);
        proof {
            let t = s.tables()->0;
            assert(db@.tables.normal =~= t.normal);
            assert(db@.tables.sticky =~= t.sticky);
            assert(db@.tables.group =~= t.group);
            assert forall|f: TupFlags| #[trigger] (db@.tables.flags)(f) == s.marked(f) by {
                assert((db@.tables.flags)(f) =~= s.marked(f));
            }
            assert(db@.tables.flags =~= t.flags);
        }
        Ok(db)
    }
}

fn add_links(db: &mut TupDb, links: &Vec<(TupId, TupId)>, t: LinkType)
    requires
        t != LinkType::Group,
    ensures
        final(db)@ == old(db)@.with(
            if t == LinkType::Normal {
                TablesText {
                    normal: old(db)@.tables.normal.union(links@.to_set()),
                    ..old(db)@.tables
                }
            } else {
                TablesText {
                    sticky: old(db)@.tables.sticky.union(links@.to_set()),
                    ..old(db)@.tables
                }
            },
        ),
{
    let ghost start = db@.tables;
    let mut i: usize = 0;
    proof {
        assert(start.normal.union(links@.take(0).to_set()) =~= start.normal);
        assert(start.sticky.union(links@.take(0).to_set()) =~= start.sticky);
    }
    while i < links.len()
        invariant
            i <= links.len(),
            t != LinkType::Group,
            start == old(db)@.tables,
            db@ == old(db)@.with(
                if t == LinkType::Normal {
                    TablesText {
                        normal: start.normal.union(links@.take(i as int).to_set()),
                        ..start
                    }
                } else {
                    TablesText {
                        sticky: start.sticky.union(links@.take(i as int).to_set()),
                        ..start
                    }
                },
            ),
        decreases links.len() - i,
    {
        proof {
            lemma_take_set(links@, i as int);
            let more = links@.take(i as int).to_set();
            let l = links@[i as int];
            assert(start.normal.union(more).insert(l) =~= start.normal.union(more.insert(l)));
            assert(start.sticky.union(more).insert(l) =~= start.sticky.union(more.insert(l)));
        }
        db.link_insert(links[i].0, links[i].1, t);
        i += 1;
    }
    assert(links@.take(links@.len() as int) =~= links@);
}

fn add_groups(db: &mut TupDb, links: &Vec<(TupId, TupId, TupId)>)
    ensures
        final(db)@ == old(db)@.with(
            TablesText {
                group: old(db)@.tables.group.union(links@.to_set()),
                ..old(db)@.tables
            },
        ),
{
    let ghost start = db@.tables;
    let mut i: usize = 0;
    assert(start.group.union(links@.take(0).to_set()) =~= start.group);
    while i < links.len()
        invariant
            i <= links.len(),
            start == old(db)@.tables,
            db@ == old(db)@.with(
                TablesText {
                    group: start.group.union(links@.take(i as int).to_set()),
                    ..start
                },
            ),
        decreases links.len() - i,
    {
        proof {
            lemma_take_set(links@, i as int);
            let more = links@.take(i as int).to_set();
            let l = links@[i as int];
            assert(start.group.union(more).insert(l) =~= start.group.union(more.insert(l)));
        }
        db.link_insert_group(links[i].0, links[i].1, links[i].2);
        i += 1;
    }
    assert(links@.take(links@.len() as int) =~= links@);
}

fn add_vars(db: &mut TupDb, vars: &Vec<(TupId, String)>)
    requires
        old(db)@.tables.vars == Map::<TupId, Seq<char>>::empty(),
    ensures
        final(db)@ == old(db)@.with(
            TablesText { vars: map_of(var_texts(vars@)), ..old(db)@.tables },
        ),
{
    let ghost all = var_texts(vars@);
    let ghost start = db@.tables;
    let mut i: usize = 0;
    while i < vars.len()
        invariant
            i <= vars.len(),
            all == var_texts(vars@),
            start == old(db)@.tables,
            db@ == old(db)@.with(TablesText { vars: map_of(all.take(i as int)), ..start }),
        decreases vars.len() - i,
    {
        proof {
            assert(all.take(i + 1).drop_last() =~= all.take(i as int));
            assert(all.take(i + 1).last() == (vars@[i as int].0, vars@[i as int].1@));
        }
        db.var_set(vars[i].0, vars[i].1.as_str());
        i += 1;
    }
    assert(all.take(all.len() as int) =~= all);
}

fn add_settings(db: &mut TupDb, settings: &Vec<(String, String)>)
    requires
        old(db)@.tables.settings == Map::<Seq<char>, Seq<char>>::empty(),
    ensures
        final(db)@ == old(db)@.with(
            TablesText { settings: map_of(setting_texts(settings@)), ..old(db)@.tables },
        ),
{
    let ghost all = setting_texts(settings@);
    let ghost start = db@.tables;
    let mut i: usize = 0;
    while i < settings.len()
        invariant
            i <= settings.len(),
            all == setting_texts(settings@),
            start == old(db)@.tables,
            db@ == old(db)@.with(TablesText { settings: map_of(all.take(i as int)), ..start }),
        decreases settings.len() - i,
    {
        proof {
            assert(all.take(i + 1).drop_last() =~= all.take(i as int));
            assert(all.take(i + 1).last() == (settings@[i as int].0@, settings@[i as int].1@));
        }
        db.config_set_string(settings[i].0.as_str(), settings[i].1.as_str());
        i += 1;
    }
    assert(all.take(all.len() as int) =~= all);
}

proof fn lemma_take_set<A>(s: Seq<A>, i: int)
    requires
        0 <= i < s.len(),
    ensures
        s.take(i + 1).to_set() == s.take(i).to_set().insert(s[i]),
{
    let a = s.take(i + 1);
    let b = s.take(i);
    assert forall|x: A| a.to_set().contains(x) <==> b.to_set().insert(s[i]).contains(x) by {
        if a.contains(x) {
            let k = choose|k: int| 0 <= k < a.len() && a[k] == x;
            if k < i {
                assert(b[k] == x);
            }
        }
        if b.contains(x) {
            let k = choose|k: int| 0 <= k < b.len() && b[k] == x;
            assert(a[k] == x);
        }
        assert(a[i] == s[i]);
    }
    assert(a.to_set() =~= b.to_set().insert(s[i]));
}

} // verus!
