//! Which commands have to run.
use vstd::prelude::*;

use crate::db::commands::get_modified_commands;
use crate::db::links::{lemma_flag_set_twice, nodes_in, nodes_of};
use crate::db::rows::{row_texts, RowText};
use crate::db::tables::{TablesText, TupDb, TupFlags};
use crate::ids::{ascending, lemma_increasing_no_duplicates, lists};
use crate::types::{ids_are_finite, NodeType, TupId};

verus! {

/// Whether a node is an output of a command, in the command's directory.
pub open spec fn is_output(row: RowText, cmd: TupId) -> bool {
    row.node_type == NodeType::Generated && row.srcid == cmd.0
}

impl TablesText {
    /// Whether a node was produced by a command.
    pub open spec fn produced(self, cmd: TupId, out: TupId) -> bool {
        &&& self.nodes.dom().contains(cmd)
        &&& self.nodes.dom().contains(out)
        &&& self.nodes[out].dir == self.nodes[cmd].dir
        &&& is_output(self.nodes[out], cmd)
    }

    /// Whether a command or group uses what a command produces.
    pub open spec fn follows(self, cmd: TupId, user: TupId) -> bool {
        exists|out: TupId| #[trigger] self.produced(cmd, out) && self.users(out).contains(user)
    }

    /// The commands and groups that use what a command produces.
    pub open spec fn followers(self, cmd: TupId) -> Set<TupId> {
        Set::new(|u: TupId| self.follows(cmd, u))
    }

    pub open spec fn is_command(self, id: TupId) -> bool {
        self.nodes.dom().contains(id) && self.nodes[id].node_type == NodeType::Cmd
    }

    /// Whether a set holds, with each command, those that use its outputs.
    pub open spec fn is_closed(self, s: Set<TupId>) -> bool {
        forall|cmd: TupId, user: TupId|
            s.contains(cmd) && self.is_command(cmd) && #[trigger] self.follows(cmd, user)
                ==> s.contains(user)
    }

    /// Whether a set holds what is marked as modified and is closed.
    pub open spec fn is_closure(self, s: Set<TupId>) -> bool {
        (self.flags)(TupFlags::Modify).subset_of(s) && self.is_closed(s)
    }

    /// What has to run: what is marked as modified, and whatever uses outputs of
    /// commands that have to run.
    pub open spec fn to_run(self) -> Set<TupId> {
        Set::new(|u: TupId| forall|s: Set<TupId>| #[trigger] self.is_closure(s) ==> s.contains(u))
    }

    /// All that has to run is marked as modified.
    pub open spec fn spread(self) -> TablesText {
        self.with_flags(TupFlags::Modify, self.to_run())
    }
}

/// What has to run is marked after the marks were spread, and with each command
/// those that use its outputs.
pub proof fn users_of_outputs_run(t: TablesText)
    ensures
        t.is_closure(t.to_run()),
        t.is_closure((t.spread().flags)(TupFlags::Modify)),
        t.spread().nodes == t.nodes,
{
    let m = t.to_run();
    assert forall|cmd: TupId, user: TupId|
        m.contains(cmd) && t.is_command(cmd) && #[trigger] t.follows(cmd, user) implies m.contains(
        user,
    ) by {
        assert forall|s: Set<TupId>| #[trigger] t.is_closure(s) implies s.contains(user) by {
            assert(s.contains(cmd));
        }
    }
}

/// Nothing is marked for which there is no reason: a set that holds what was
/// marked and is closed holds all that is marked after.
pub proof fn nothing_else_runs(t: TablesText, s: Set<TupId>)
    requires
        t.is_closure(s),
    ensures
        t.to_run().subset_of(s),
{
}

/// Spreading the marks again changes nothing.
pub proof fn spreading_again_changes_nothing(t: TablesText)
    ensures
        t.spread().spread() == t.spread(),
{
    users_of_outputs_run(t);
    let u = t.spread();
    let m = t.to_run();
    assert forall|cmd: TupId, user: TupId| u.follows(cmd, user) == t.follows(cmd, user) by {
        lemma_same_follows(t, m, cmd, user);
    }
    assert(u.is_closed(m)) by {
        assert forall|cmd: TupId, user: TupId|
            m.contains(cmd) && u.is_command(cmd) && #[trigger] u.follows(cmd, user) implies m.contains(
            user,
        ) by {
            assert(t.follows(cmd, user));
        }
    }
    assert(u.is_closure(m));
    assert(u.to_run() =~= m) by {
        assert forall|x: TupId| m.contains(x) implies u.to_run().contains(x) by {
            assert forall|s: Set<TupId>| #[trigger] u.is_closure(s) implies s.contains(x) by {
                assert(m.subset_of(s));
            }
        }
    }
    assert(u.spread().flags =~= u.flags);
}

proof fn lemma_same_follows(t: TablesText, m: Set<TupId>, cmd: TupId, user: TupId)
    ensures
        t.with_flags(TupFlags::Modify, m).follows(cmd, user) == t.follows(cmd, user),
{
    let u = t.with_flags(TupFlags::Modify, m);
    assert forall|out: TupId| u.produced(cmd, out) == t.produced(cmd, out) by {}
    assert forall|out: TupId| u.users(out) == t.users(out) by {}
    if u.follows(cmd, user) {
        let out = choose|out: TupId| #[trigger] u.produced(cmd, out) && u.users(out).contains(user);
        assert(t.produced(cmd, out) && t.users(out).contains(user));
    }
    if t.follows(cmd, user) {
        let out = choose|out: TupId| #[trigger] t.produced(cmd, out) && t.users(out).contains(user);
        assert(u.produced(cmd, out) && u.users(out).contains(user));
    }
}

proof fn lemma_mark_none(t: TablesText)
    ensures
        t.flag_set(Set::empty(), TupFlags::Modify) == t,
{
    let marked = (t.flags)(TupFlags::Modify);
    assert(marked.union(Set::empty()) =~= marked);
    assert(t.flag_set(Set::empty(), TupFlags::Modify) =~= t);
}

/// Whether one of the first rows is an output whose users hold a node.
spec fn used_of_rows(t: TablesText, rows: Seq<RowText>, n: int, cmd: TupId, user: TupId) -> bool {
    exists|j: int|
        0 <= j < n && is_output(#[trigger] rows[j], cmd) && t.users(rows[j].id).contains(user)
}

/// Marks what uses the outputs of a command.
fn mark_followers(db: &mut TupDb, cmd: TupId, dir: TupId)
    requires
        old(db)@.tables.nodes.dom().contains(cmd),
        old(db)@.tables.nodes[cmd].dir == dir,
    ensures
        final(db)@ == old(db)@.with(
            old(db)@.tables.flag_set(old(db)@.tables.followers(cmd), TupFlags::Modify),
        ),
{
    let ghost t = db@.tables;
    let _ = db.node_ids();
    let rows = db.node_select_dir(dir);
    let ghost all = row_texts(rows@);
    let ghost ids = ascending(nodes_in(t.nodes, dir));
    let ghost mut s: Set<TupId> = Set::empty();
    let mut i: usize = 0;
    proof {
        lemma_mark_none(t);
    }
    while i < rows.len()
        invariant
            i <= rows.len(),
            all == row_texts(rows@),
            t == old(db)@.tables,
            db@ == old(db)@.with(t.flag_set(s, TupFlags::Modify)),
            forall|u: TupId| #[trigger]
                s.contains(u) <==> used_of_rows(t, all, i as int, cmd, u),
        decreases rows.len() - i,
    {
        let ghost before = s;
        assert(all[i as int] == rows@[i as int]@);
        if rows[i].node_type == NodeType::Generated && rows[i].srcid == cmd.raw() {
            let id = rows[i].id;
            proof {
                let more = t.users(id);
                assert(db@.tables.users(id) == more);
                lemma_flag_set_twice(t, s, more, TupFlags::Modify);
                s = s.union(more);
            }
            db.modify_cmds_by_input(id);
        }
        proof {
            assert forall|u: TupId| #[trigger]
                s.contains(u) <==> used_of_rows(t, all, i + 1, cmd, u) by {
                if used_of_rows(t, all, i as int, cmd, u) {
                    let j = choose|j: int|
                        0 <= j < i && is_output(#[trigger] all[j], cmd) && t.users(
                            all[j].id,
                        ).contains(u);
                    assert(is_output(all[j], cmd));
                }
                if used_of_rows(t, all, i + 1, cmd, u) && !before.contains(u) {
                    let j = choose|j: int|
                        0 <= j < i + 1 && is_output(#[trigger] all[j], cmd) && t.users(
                            all[j].id,
                        ).contains(u);
                    if j < i {
                        assert(used_of_rows(t, all, i as int, cmd, u));
                    }
                }
                if is_output(all[i as int], cmd) && t.users(all[i as int].id).contains(u) {
                    assert(used_of_rows(t, all, i + 1, cmd, u));
                }
            }
        }
        i += 1;
    }
    proof {
        assert forall|u: TupId| s.contains(u) <==> t.follows(cmd, u) by {
            if s.contains(u) {
                let j = choose|j: int|
                    0 <= j < all.len() && is_output(#[trigger] all[j], cmd) && t.users(
                        all[j].id,
                    ).contains(u);
                assert(nodes_in(t.nodes, dir).contains(ids[j])) by {
                    assert(ids.contains(ids[j]));
                }
                assert(all[j] == t.nodes[ids[j]]);
                assert(t.nodes[ids[j]].id == ids[j]);
                assert(t.produced(cmd, ids[j]));
            }
            if t.follows(cmd, u) {
                let out = choose|out: TupId| #[trigger]
                    t.produced(cmd, out) && t.users(out).contains(u);
                assert(nodes_in(t.nodes, dir).contains(out));
                assert(ids.contains(out));
                let j = choose|j: int| 0 <= j < ids.len() && ids[j] == out;
                assert(all[j] == t.nodes[out]);
                assert(t.nodes[out].id == out);
                assert(is_output(all[j], cmd));
                assert(used_of_rows(t, all, all.len() as int, cmd, u));
            }
        }
        assert(s =~= t.followers(cmd));
    }
}

/// Whether a set is held by every closure.
spec fn is_needed(t: TablesText, s: Set<TupId>) -> bool {
    forall|x: Set<TupId>| #[trigger] t.is_closure(x) ==> s.subset_of(x)
}

/// Marks what uses the outputs of each command of a list.
fn mark_all_followers(db: &mut TupDb, cmds: &Vec<TupId>) -> (r: Ghost<Set<TupId>>)
    requires
        forall|i: int|
            0 <= i < cmds@.len() ==> old(db)@.tables.is_command(#[trigger] cmds@[i]) && (old(
                db,
            )@.tables.flags)(TupFlags::Modify).contains(cmds@[i]),
    ensures
        final(db)@ == old(db)@.with(old(db)@.tables.flag_set(r@, TupFlags::Modify)),
        is_needed(old(db)@.tables, r@),
        forall|i: int, u: TupId|
            0 <= i < cmds@.len() && #[trigger] old(db)@.tables.follows(cmds@[i], u)
                ==> r@.contains(u),
{
    let ghost t = db@.tables;
    let ghost mut s: Set<TupId> = Set::empty();
    let mut i: usize = 0;
    proof {
        lemma_mark_none(t);
    }
    while i < cmds.len()
        invariant
            i <= cmds.len(),
            t == old(db)@.tables,
            forall|i: int|
                0 <= i < cmds@.len() ==> t.is_command(#[trigger] cmds@[i]) && (t.flags)(
                    TupFlags::Modify,
                ).contains(cmds@[i]),
            db@ == old(db)@.with(t.flag_set(s, TupFlags::Modify)),
            is_needed(t, s),
            forall|j: int, u: TupId|
                0 <= j < i && #[trigger] t.follows(cmds@[j], u) ==> s.contains(u),
        decreases cmds.len() - i,
    {
        let cmd = cmds[i];
        let ghost now = db@.tables;
        assert(t.is_command(cmds@[i as int]));
        if let Some(row) = db.node_select_by_id(cmd) {
            mark_followers(db, cmd, row.dir);
            proof {
                let more = t.followers(cmd);
                assert forall|u: TupId| now.follows(cmd, u) == t.follows(cmd, u) by {
                    lemma_same_follows(t, (now.flags)(TupFlags::Modify), cmd, u);
                    assert(t.with_flags(TupFlags::Modify, (now.flags)(TupFlags::Modify)).nodes
                        == now.nodes);
                    lemma_follows_by_links(
                        t.with_flags(TupFlags::Modify, (now.flags)(TupFlags::Modify)),
                        now,
                        cmd,
                        u,
                    );
                }
                assert(now.followers(cmd) =~= more);
                lemma_flag_set_twice(t, s, more, TupFlags::Modify);
                assert(is_needed(t, s.union(more))) by {
                    assert forall|x: Set<TupId>| #[trigger] t.is_closure(x) implies s.union(
                        more,
                    ).subset_of(x) by {
                        assert(x.contains(cmd));
                        assert forall|u: TupId| more.contains(u) implies x.contains(u) by {
                            assert(t.follows(cmd, u));
                        }
                    }
                }
                s = s.union(more);
            }
        }
        i += 1;
    }
    Ghost(s)
}

proof fn lemma_follows_by_links(a: TablesText, b: TablesText, cmd: TupId, user: TupId)
    requires
        a.nodes == b.nodes,
        a.normal == b.normal,
        a.sticky == b.sticky,
    ensures
        a.follows(cmd, user) == b.follows(cmd, user),
{
    if a.follows(cmd, user) {
        let out = choose|out: TupId| #[trigger] a.produced(cmd, out) && a.users(out).contains(user);
        assert(b.produced(cmd, out) && b.users(out).contains(user));
    }
    if b.follows(cmd, user) {
        let out = choose|out: TupId| #[trigger] b.produced(cmd, out) && b.users(out).contains(user);
        assert(a.produced(cmd, out) && a.users(out).contains(user));
    }
}

/// Marks as modified whatever uses an output of a command that is to run, until
/// nothing is left to mark.
pub fn spread_modified(db: &mut TupDb)
    ensures
        final(db)@ == old(db)@.with(old(db)@.tables.spread()),
{
    let ghost t = db@.tables;
    let ghost f = (t.flags)(TupFlags::Modify);
    let ghost mut s: Set<TupId> = Set::empty();
    let total = db.node_count();
    let mut added = true;
    proof {
        lemma_mark_none(t);
    }
    let ghost mut left: int = total + 1;
    while added
        invariant
            t == old(db)@.tables,
            f == (t.flags)(TupFlags::Modify),
            total == t.nodes.dom().len(),
            db@ == old(db)@.with(t.flag_set(s, TupFlags::Modify)),
            is_needed(t, s),
            left >= 0,
            added ==> left + commands_in(t, f.union(s)).len() > total,
            !added ==> t.is_closed(f.union(s)),
        decreases left, (if added { 1int } else { 0int }),
    {
        let ghost now = db@.tables;
        let ghost m = f.union(s);
        let cmds = get_modified_commands(db);
        proof {
            assert((now.flags)(TupFlags::Modify) =~= m);
            assert(now.known_of(m, NodeType::Cmd) =~= commands_in(t, m));
            assert forall|i: int| 0 <= i < cmds@.len() implies now.is_command(#[trigger] cmds@[i])
                && (now.flags)(TupFlags::Modify).contains(cmds@[i]) by {
                assert(cmds@.contains(cmds@[i]));
            }
            lemma_counts(cmds@, commands_in(t, m));
        }
        let more = mark_all_followers(db, &cmds);
        let after = get_modified_commands(db);
        proof {
            let s2 = s.union(more@);
            lemma_flag_set_twice(t, s, more@, TupFlags::Modify);
            assert(is_needed(t, s2)) by {
                assert forall|x: Set<TupId>| #[trigger] t.is_closure(x) implies s2.subset_of(x) by {
                    assert(now.is_closure(x)) by {
                        assert(m.subset_of(x));
                        assert(now.is_closed(x)) by {
                            assert forall|cmd: TupId, user: TupId|
                                x.contains(cmd) && now.is_command(cmd) && #[trigger] now.follows(
                                    cmd,
                                    user,
                                ) implies x.contains(user) by {
                                lemma_follows_by_links(t, now, cmd, user);
                                assert(t.is_command(cmd));
                            }
                        }
                    }
                }
            }
            let m2 = f.union(s2);
            let then = db@.tables;
            assert((then.flags)(TupFlags::Modify) =~= m2);
            assert(then.known_of(m2, NodeType::Cmd) =~= commands_in(t, m2));
            lemma_counts(after@, commands_in(t, m2));
            let a = commands_in(t, m);
            let b = commands_in(t, m2);
            assert(a.subset_of(b));
            ids_are_finite(a);
            ids_are_finite(b);
            vstd::set_lib::lemma_len_subset(a, b);
            assert(b.subset_of(t.nodes.dom()));
            ids_are_finite(t.nodes.dom());
            vstd::set_lib::lemma_len_subset(b, t.nodes.dom());
            if after@.len() > cmds@.len() {
                left = left - 1;
            } else {
                vstd::set_lib::lemma_subset_equality(a, b);
                assert forall|cmd: TupId, user: TupId|
                    m2.contains(cmd) && t.is_command(cmd) && #[trigger] t.follows(
                        cmd,
                        user,
                    ) implies m2.contains(user) by {
                    assert(b.contains(cmd));
                    assert(a.contains(cmd));
                    assert(cmds@.contains(cmd));
                    let i = choose|i: int| 0 <= i < cmds@.len() && cmds@[i] == cmd;
                    lemma_follows_by_links(t, now, cmd, user);
                    assert(now.follows(cmds@[i], user));
                }
            }
            s = s2;
        }
        added = after.len() > cmds.len();
    }
    proof {
        let m = f.union(s);
        assert(t.is_closure(m));
        assert(t.to_run() =~= m) by {
            assert forall|x: TupId| m.contains(x) implies t.to_run().contains(x) by {
                assert forall|c: Set<TupId>| #[trigger] t.is_closure(c) implies c.contains(x) by {
                    assert(s.subset_of(c));
                }
            }
        }
        assert(t.flag_set(s, TupFlags::Modify) == t.spread());
    }
}

/// The commands of a set.
spec fn commands_in(t: TablesText, s: Set<TupId>) -> Set<TupId> {
    s.intersect(nodes_of(t.nodes, NodeType::Cmd))
}

proof fn lemma_counts(ids: Seq<TupId>, s: Set<TupId>)
    requires
        lists(ids, s),
    ensures
        ids.len() == s.len(),
{
    lemma_increasing_no_duplicates(ids);
    ids.unique_seq_to_set();
    assert(ids.to_set() =~= s);
}

} // verus!
