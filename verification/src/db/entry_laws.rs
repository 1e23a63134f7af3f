//! What holds of the entries that are held in memory.
use vstd::prelude::*;

use crate::db::entry::{CacheText, EntryText};
use crate::db::rows::RowText;
use crate::types::TupId;

verus! {

/// Whether the entries and their names agree: every entry stands under its own
/// identifier and is found by its name, and a name leads to the entry with it.
pub open spec fn names_agree(c: CacheText) -> bool {
    &&& forall|id: TupId| #[trigger]
        c.entries.dom().contains(id) ==> {
            let row = c.entries[id].row;
            &&& row.id == id
            &&& c.names.dom().contains((row.dir, row.name))
            &&& c.names[(row.dir, row.name)] == id
        }
    &&& forall|k: (TupId, Seq<char>)| #[trigger]
        c.names.dom().contains(k) ==> {
            let id = c.names[k];
            &&& c.entries.dom().contains(id)
            &&& (c.entries[id].row.dir, c.entries[id].row.name) == k
        }
}

/// The entries and the names of an empty cache agree.
pub proof fn an_empty_cache_agrees()
    ensures
        names_agree(CacheText { entries: Map::empty(), names: Map::empty() }),
{
}

/// An entry that was added is found by its identifier and by its name, and the
/// entries and their names agree as before.
pub proof fn an_added_entry_is_found(c: CacheText, e: EntryText)
    requires
        names_agree(c),
        !c.entries.dom().contains(e.row.id),
        c.named(e.row.dir, e.row.name) is None,
    ensures
        c.add(e).entries[e.row.id] == e,
        c.add(e).named(e.row.dir, e.row.name) == Some(e),
        names_agree(c.add(e)),
{
    let a = c.add(e);
    let key = (e.row.dir, e.row.name);
    assert(!c.names.dom().contains(key));
    assert forall|id: TupId| #[trigger] a.entries.dom().contains(id) implies {
        let row = a.entries[id].row;
        &&& row.id == id
        &&& a.names.dom().contains((row.dir, row.name))
        &&& a.names[(row.dir, row.name)] == id
    } by {
        if id != e.row.id {
            assert(c.entries.dom().contains(id));
        }
    }
    assert forall|k: (TupId, Seq<char>)| #[trigger] a.names.dom().contains(k) implies {
        let id = a.names[k];
        &&& a.entries.dom().contains(id)
        &&& (a.entries[id].row.dir, a.entries[id].row.name) == k
    } by {
        if k != key {
            assert(c.names.dom().contains(k));
        }
    }
}

/// To add an entry again changes nothing.
pub proof fn an_entry_is_added_once(c: CacheText, e: EntryText)
    requires
        names_agree(c),
        c.entries.dom().contains(e.row.id),
        c.entries[e.row.id].row.dir == e.row.dir,
        c.entries[e.row.id].row.name == e.row.name,
    ensures
        c.add(e) == c,
{
    assert(c.add(e).names =~= c.names);
}

/// An entry that was removed is found neither by its identifier nor by its name,
/// and the entries and their names agree as before.
pub proof fn a_removed_entry_is_gone(c: CacheText, id: TupId)
    requires
        names_agree(c),
        c.entries.dom().contains(id),
        c.remove_error(id) is None,
    ensures
        !c.remove(id).entries.dom().contains(id),
        c.remove(id).named(c.entries[id].row.dir, c.entries[id].row.name) is None,
        names_agree(c.remove(id)),
{
    let r = c.remove(id);
    assert forall|x: TupId| #[trigger] r.entries.dom().contains(x) implies {
        let row = r.entries[x].row;
        &&& row.id == x
        &&& r.names.dom().contains((row.dir, row.name))
        &&& r.names[(row.dir, row.name)] == x
    } by {
        assert(c.entries.dom().contains(x));
    }
    assert forall|k: (TupId, Seq<char>)| #[trigger] r.names.dom().contains(k) implies {
        let x = r.names[k];
        &&& r.entries.dom().contains(x)
        &&& (r.entries[x].row.dir, r.entries[x].row.name) == k
    } by {
        assert(c.names.dom().contains(k));
    }
}

/// An entry with a new name is found under it and not under the old one, and the
/// entries and their names agree as before.
pub proof fn a_renamed_entry_is_found(c: CacheText, id: TupId, name: Seq<char>, dir: TupId)
    requires
        names_agree(c),
        c.entries.dom().contains(id),
        c.named(dir, name) is None,
    ensures
        c.rename(id, name, dir).named(dir, name) == Some(c.rename(id, name, dir).entries[id]),
        c.rename(id, name, dir).named(c.entries[id].row.dir, c.entries[id].row.name) is None,
        names_agree(c.rename(id, name, dir)),
{
    let r = c.rename(id, name, dir);
    let old_key = (c.entries[id].row.dir, c.entries[id].row.name);
    assert(!c.names.dom().contains((dir, name)));
    assert(old_key != (dir, name));
    assert forall|x: TupId| #[trigger] r.entries.dom().contains(x) implies {
        let row = r.entries[x].row;
        &&& row.id == x
        &&& r.names.dom().contains((row.dir, row.name))
        &&& r.names[(row.dir, row.name)] == x
    } by {
        assert(c.entries.dom().contains(x));
    }
    assert forall|k: (TupId, Seq<char>)| #[trigger] r.names.dom().contains(k) implies {
        let x = r.names[k];
        &&& r.entries.dom().contains(x)
        &&& (r.entries[x].row.dir, r.entries[x].row.name) == k
    } by {
        if k != (dir, name) {
            assert(c.names.dom().contains(k));
        }
    }
}

/// What else changes in an entry leaves entries and names in agreement.
pub proof fn an_edited_entry_agrees(c: CacheText, id: TupId, row: RowText)
    requires
        names_agree(c),
        c.entries.dom().contains(id),
        row.id == id,
        row.dir == c.entries[id].row.dir,
        row.name == c.entries[id].row.name,
    ensures
        names_agree(c.with_row(id, row)),
{
    let r = c.with_row(id, row);
    assert forall|x: TupId| #[trigger] r.entries.dom().contains(x) implies {
        let row = r.entries[x].row;
        &&& row.id == x
        &&& r.names.dom().contains((row.dir, row.name))
        &&& r.names[(row.dir, row.name)] == x
    } by {
        assert(c.entries.dom().contains(x));
    }
}

} // verus!
