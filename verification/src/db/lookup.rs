//! What a parser may ask of the database.
use vstd::prelude::*;

use crate::db::rows::{row_texts, RowText};
use crate::db::tables::TupDb;
use crate::text::texts;
use crate::types::{NodeType, TupId};

verus! {

/// A node as a parser sees it.
#[derive(Debug)]
pub struct ParserNode {
    pub id: TupId,
    pub name: String,
    pub node_type: NodeType,
    pub dir: TupId,
}

/// The database as the parser of a directory sees it.
#[derive(Debug)]
pub struct TupParserDb<'a> {
    pub db: &'a TupDb,
    pub dir_id: TupId,
}

/// The names of the files among some rows, generated ones included.
pub open spec fn file_names(rows: Seq<RowText>) -> Seq<Seq<char>>
    decreases rows.len(),
{
    if rows.len() == 0 {
        Seq::empty()
    } else {
        let before = file_names(rows.drop_last());
        let t = rows.last().node_type;
        if t == NodeType::File || t == NodeType::Generated {
            before.push(rows.last().name)
        } else {
            before
        }
    }
}

impl<'a> TupParserDb<'a> {
    pub fn new(db: &'a TupDb, dir_id: TupId) -> (r: Self)
        ensures
            r.db == db,
            r.dir_id == dir_id,
    {
        TupParserDb { db, dir_id }
    }

    /// The node with a name in a directory.
    pub fn node_lookup(&self, dir_id: TupId, name: &str) -> (r: Option<ParserNode>)
        ensures
            match r {
                Some(n) => {
                    let t = self.db@.tables;
                    &&& t.select(dir_id, name@) == Some(n.id)
                    &&& n.name@ == t.nodes[n.id].name
                    &&& n.node_type == t.nodes[n.id].node_type
                    &&& n.dir == t.nodes[n.id].dir
                },
                None => self.db@.tables.select(dir_id, name@) is None,
            },
    {
        match self.db.node_select(dir_id, name) {
            Some(row) => Some(
                ParserNode {
                    id: row.id,
                    name: row.name,
                    node_type: row.node_type,
                    dir: row.dir,
                },
            ),
            None => None,
        }
    }

    /// The node with a name in the parser's own directory.
    pub fn node_lookup_in_dir(&self, name: &str) -> (r: Option<ParserNode>)
        ensures
            match r {
                Some(n) => {
                    let t = self.db@.tables;
                    &&& t.select(self.dir_id, name@) == Some(n.id)
                    &&& n.name@ == t.nodes[n.id].name
                    &&& n.node_type == t.nodes[n.id].node_type
                    &&& n.dir == t.nodes[n.id].dir
                },
                None => self.db@.tables.select(self.dir_id, name@) is None,
            },
    {
        self.node_lookup(self.dir_id, name)
    }

    /// The names of the files in the directory, generated ones included.
    pub fn list_dir_files(&self) -> (r: Vec<String>)
        ensures
            texts(r@) == file_names(self.db@.tables.rows_in(self.dir_id)),
    {
        let rows = self.db.node_select_dir(self.dir_id);
        let ghost all = row_texts(rows@);
        let mut out: Vec<String> = Vec::new();
        let mut i: usize = 0;
        proof {
            assert(all.take(0) =~= Seq::empty());
            assert(texts(out@) =~= Seq::empty());
        }
        while i < rows.len()
            invariant
                i <= rows.len(),
                all == row_texts(rows@),
                texts(out@) == file_names(all.take(i as int)),
            decreases rows.len() - i,
        {
            proof {
                assert(all.take(i + 1).drop_last() =~= all.take(i as int));
                assert(all.take(i + 1).last() == rows@[i as int]@);
            }
            if rows[i].node_type == NodeType::File || rows[i].node_type == NodeType::Generated {
                let ghost before = out@;
                out.push(rows[i].name.clone());
                assert(texts(out@) =~= texts(before).push(rows@[i as int].name@));
            }
            i += 1;
        }
        assert(all.take(all.len() as int) =~= all);
        out
    }

    /// The directory of the parser.
    pub fn current_dir_id(&self) -> (r: TupId)
        ensures
            r == self.dir_id,
    {
        self.dir_id
    }
}

} // verus!
