//! What a command wrote.
use vstd::prelude::*;

use crate::db::errors::{DbError, DbErrorText};
use crate::db::tables::{TablesText, TupDb};
use crate::text::texts;
use crate::types::{NodeType, TupId};

verus! {

/// What came of looking at the outputs of a command.
#[derive(Debug)]
pub struct OutputTrackResult {
    /// The number of outputs that were found.
    pub updated: usize,
    /// Outputs that the command did not write.
    pub missing: Vec<String>,
    /// Files that the command wrote and that are no outputs.
    pub extra: Vec<String>,
}

impl Default for OutputTrackResult {
    fn default() -> (r: Self)
        ensures
            r.updated == 0,
            r.missing@.len() == 0,
            r.extra@.len() == 0,
    {
        OutputTrackResult { updated: 0, missing: Vec::new(), extra: Vec::new() }
    }
}

/// An output of a command after it ran: its name, and the time of its last
/// change where the file is there.
#[derive(Debug)]
pub struct OutputState {
    pub name: String,
    pub mtime: Option<(i64, i64)>,
}

/// What was found of outputs: the tables, the outputs that are missing, and an
/// error.
#[verifier::ext_equal]
pub struct OutputsFound {
    pub tables: TablesText,
    pub missing: Seq<Seq<char>>,
    pub error: Option<DbErrorText>,
}

impl TablesText {
    /// An output that is there is a generated file with the time of its last
    /// change.
    pub open spec fn track(
        self,
        cmd: TupId,
        dir: TupId,
        name: Seq<char>,
        mtime: (i64, i64),
    ) -> Result<TablesText, DbErrorText> {
        match self.select(dir, name) {
            Some(id) => {
                let t = self.set_mtime(id, mtime.0, mtime.1);
                Ok(
                    if self.nodes[id].node_type != NodeType::Generated {
                        t.set_type(id, NodeType::Generated)
                    } else {
                        t
                    },
                )
            },
            None => match self.new_row(
                dir,
                name,
                NodeType::Generated,
                mtime.0,
                mtime.1,
                cmd.0,
                None,
                None,
            ) {
                Ok(row) => Ok(self.put(row)),
                Err(e) => Err(e),
            },
        }
    }

    /// The outputs of a list, up to the first error.
    pub open spec fn track_all(self, cmd: TupId, dir: TupId, outputs: Seq<OutputState>) -> OutputsFound
        decreases outputs.len(),
    {
        if outputs.len() == 0 {
            OutputsFound { tables: self, missing: Seq::empty(), error: None }
        } else {
            let before = self.track_all(cmd, dir, outputs.drop_last());
            let last = outputs.last();
            if before.error is Some {
                before
            } else {
                match last.mtime {
                    None => OutputsFound { missing: before.missing.push(last.name@), ..before },
                    Some(m) => match before.tables.track(cmd, dir, last.name@, m) {
                        Ok(t) => OutputsFound { tables: t, ..before },
                        Err(e) => OutputsFound { error: Some(e), ..before },
                    },
                }
            }
        }
    }
}

proof fn lemma_track_error_stays(
    t: TablesText,
    cmd: TupId,
    dir: TupId,
    outputs: Seq<OutputState>,
    i: int,
)
    requires
        0 <= i <= outputs.len(),
        t.track_all(cmd, dir, outputs.take(i)).error is Some,
    ensures
        t.track_all(cmd, dir, outputs) == t.track_all(cmd, dir, outputs.take(i)),
    decreases outputs.len() - i,
{
    if i == outputs.len() {
        assert(outputs.take(i) =~= outputs);
    } else {
        assert(outputs.take(i + 1).drop_last() =~= outputs.take(i));
        lemma_track_error_stays(t, cmd, dir, outputs, i + 1);
    }
}

/// Takes note of the outputs of a command that ran: each one that is there gets
/// the time of its last change, and the command gets the time at which it ran.
pub fn track_outputs(
    db: &mut TupDb,
    cmd_id: TupId,
    dir_id: TupId,
    outputs: &[OutputState],
    now: (i64, i64),
) -> (r: Result<OutputTrackResult, DbError>)
    ensures
        ({
            let t = old(db)@.tables.track_all(cmd_id, dir_id, outputs@);
            match r {
                Ok(found) => {
                    &&& t.error is None
                    &&& final(db)@ == old(db)@.with(t.tables.set_mtime(cmd_id, now.0, now.1))
                    &&& texts(found.missing@) == t.missing
                    &&& found.updated == outputs@.len() - t.missing.len()
                    &&& found.extra@.len() == 0
                },
                Err(e) => t.error == Some(e@) && final(db)@ == old(db)@.with(t.tables),
            }
        }),
{
    let ghost start = db@.tables;
    let mut updated: usize = 0;
    let mut missing: Vec<String> = Vec::new();
    let mut i: usize = 0;
    proof {
        assert(outputs@.take(0) =~= Seq::empty());
        assert(texts(missing@) =~= Seq::empty());
    }
    while i < outputs.len()
        invariant
            i <= outputs.len(),
            start == old(db)@.tables,
            start.track_all(cmd_id, dir_id, outputs@.take(i as int)).error is None,
            db@ == old(db)@.with(
                start.track_all(cmd_id, dir_id, outputs@.take(i as int)).tables,
            ),
            texts(missing@) == start.track_all(
                cmd_id,
                dir_id,
                outputs@.take(i as int),
            ).missing,
            updated + missing@.len() == i,
        decreases outputs.len() - i,
    {
        proof {
            assert(outputs@.take(i + 1).drop_last() =~= outputs@.take(i as int));
            assert(outputs@.take(i + 1).last() == outputs@[i as int]);
        }
        let name = outputs[i].name.as_str();
        match outputs[i].mtime {
            Some((mtime, mtime_ns)) => {
                match db.node_select(dir_id, name) {
                    Some(row) => {
                        db.node_set_mtime(row.id, mtime, mtime_ns);
                        if row.node_type != NodeType::Generated {
                            db.node_set_type(row.id, NodeType::Generated);
                        }
                    },
                    None => {
                        match db.node_insert(
                            dir_id,
                            name,
                            NodeType::Generated,
                            mtime,
                            mtime_ns,
                            cmd_id.raw(),
                            None,
                            None,
                        ) {
                            Ok(_) => {},
                            Err(e) => {
                                proof {
                                    lemma_track_error_stays(
                                        start,
                                        cmd_id,
                                        dir_id,
                                        outputs@,
                                        i + 1,
                                    );
                                }
                                return Err(e);
                            },
                        }
                    },
                }
                updated = updated + 1;
            },
            None => {
                let ghost before = missing@;
                missing.push(outputs[i].name.clone());
                assert(texts(missing@) =~= texts(before).push(outputs@[i as int].name@));
            },
        }
        i += 1;
    }
    assert(outputs@.take(outputs@.len() as int) =~= outputs@);
    assert(texts(missing@).len() == missing@.len());
    db.node_set_mtime(cmd_id, now.0, now.1);
    Ok(OutputTrackResult { updated, missing, extra: Vec::new() })
}

} // verus!
