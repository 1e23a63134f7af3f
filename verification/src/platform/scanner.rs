//! Files and directories of a project.
use vstd::prelude::*;

use crate::db::sync::is_hidden;
use crate::ordmap::{
    lemma_text_lt_irreflexive, lemma_text_lt_total, lemma_text_lt_transitive, sorted_keys, text_lt,
    text_order, Key, OrdMap, Order,
};
use crate::paths::{components, path_join, str_components, str_path_join};
use crate::text::{lemma_texts_push, same, str_first_is, texts};

verus! {

/// A file of a project.
#[derive(Debug)]
pub struct ScannedFile {
    /// The path from the project's directory.
    pub path: String,
    /// Time of the last change in seconds.
    pub mtime: i64,
    /// The part of a second of that time, in nanoseconds.
    pub mtime_ns: i64,
}

/// A file as texts.
#[verifier::ext_equal]
pub struct ScannedText {
    pub path: Seq<char>,
    pub mtime: i64,
    pub mtime_ns: i64,
}

impl View for ScannedFile {
    type V = ScannedText;

    open spec fn view(&self) -> ScannedText {
        ScannedText { path: self.path@, mtime: self.mtime, mtime_ns: self.mtime_ns }
    }
}

impl Clone for ScannedFile {
    fn clone(&self) -> (r: Self)
        ensures
            r@ == self@,
    {
        ScannedFile { path: self.path.clone(), mtime: self.mtime, mtime_ns: self.mtime_ns }
    }
}

pub open spec fn scanned_texts(v: Seq<ScannedFile>) -> Seq<ScannedText> {
    Seq::new(v.len(), |i: int| v[i]@)
}

/// What a scan found.
#[derive(Debug)]
pub struct ScanResult {
    /// Files that are not known.
    pub new_files: Vec<ScannedFile>,
    /// Files that changed.
    pub modified_files: Vec<ScannedFile>,
    /// Files that are known and not there.
    pub deleted_files: Vec<String>,
    pub directories: Vec<String>,
}

/// An entry of a directory on disk.
#[derive(Debug)]
pub struct ScanEntry {
    pub name: String,
    pub kind: ScanKind,
}

/// What an entry is.
#[derive(Debug)]
pub enum ScanKind {
    File { mtime: i64, mtime_ns: i64 },
    Dir { entries: Vec<ScanEntry> },
    /// Neither a file nor a directory.
    Other,
}

/// The files and directories that were found.
#[verifier::ext_equal]
pub struct ScanText {
    pub files: Seq<ScannedText>,
    pub dirs: Seq<Seq<char>>,
}

impl ScanText {
    pub open spec fn then_all(self, other: ScanText) -> ScanText {
        ScanText { files: self.files + other.files, dirs: self.dirs + other.dirs }
    }
}

/// The files and directories among the first entries of a directory, in the
/// order in which they stand there, a directory before what is in it. Hidden
/// ones are left out.
pub open spec fn scan(entries: Seq<ScanEntry>, prefix: Seq<char>, n: nat) -> ScanText
    decreases entries, n,
{
    if n == 0 || n > entries.len() {
        ScanText { files: Seq::empty(), dirs: Seq::empty() }
    } else {
        let before = scan(entries, prefix, (n - 1) as nat);
        let e = entries[n - 1];
        let path = path_join(prefix, e.name@);
        if is_hidden(e.name@) {
            before
        } else {
            match e.kind {
                ScanKind::File { mtime, mtime_ns } => ScanText {
                    files: before.files.push(ScannedText { path, mtime, mtime_ns }),
                    ..before
                },
                ScanKind::Dir { entries: sub } => ScanText {
                    dirs: before.dirs.push(path),
                    ..before
                }.then_all(scan(sub@, path, sub@.len())),
                ScanKind::Other => before,
            }
        }
    }
}

fn scan_recursive(entries: &Vec<ScanEntry>, prefix: &str, result: &mut ScanResult)
    ensures
        scanned_texts(final(result).new_files@) == scanned_texts(old(result).new_files@) + scan(
            entries@,
            prefix@,
            entries@.len(),
        ).files,
        texts(final(result).directories@) == texts(old(result).directories@) + scan(
            entries@,
            prefix@,
            entries@.len(),
        ).dirs,
        final(result).modified_files == old(result).modified_files,
        final(result).deleted_files == old(result).deleted_files,
    decreases entries@,
{
    let ghost files = scanned_texts(result.new_files@);
    let ghost dirs = texts(result.directories@);
    let mut i: usize = 0;
    proof {
        assert(files + Seq::<ScannedText>::empty() =~= files);
        assert(dirs + Seq::<Seq<char>>::empty() =~= dirs);
    }
    while i < entries.len()
        invariant
            i <= entries.len(),
            scanned_texts(result.new_files@) == files + scan(
                entries@,
                prefix@,
                i as nat,
            ).files,
            texts(result.directories@) == dirs + scan(entries@, prefix@, i as nat).dirs,
            result.modified_files == old(result).modified_files,
            result.deleted_files == old(result).deleted_files,
        decreases entries.len() - i,
    {
        let e = &entries[i];
        let ghost here = scan(entries@, prefix@, i as nat);
        if !str_first_is(e.name.as_str(), '.') {
            let path = str_path_join(prefix, e.name.as_str());
            let ghost path_text = path@;
            match &e.kind {
                ScanKind::File { mtime, mtime_ns } => {
                    let ghost before = result.new_files@;
                    let file = ScannedFile { path, mtime: *mtime, mtime_ns: *mtime_ns };
                    let ghost text = file@;
                    result.new_files.push(file);
                    proof {
                        assert(scanned_texts(result.new_files@) =~= scanned_texts(before).push(
                            text,
                        ));
                        assert(files + here.files.push(text) =~= (files + here.files).push(text));
                    }
                },
                ScanKind::Dir { entries: sub } => {
                    let ghost before = result.directories@;
                    result.directories.push(path.clone());
                    proof {
                        lemma_texts_push(before, result.directories@.last());
                        assert(texts(result.directories@) =~= texts(before).push(path_text));
                        assert(decreases_to!(entries@ => entries@[i as int]));
                    }
                    scan_recursive(sub, path.as_str(), result);
                    proof {
                        let below = scan(sub@, path_text, sub@.len());
                        assert(files + (here.files + below.files) =~= (files + here.files)
                            + below.files);
                        assert(dirs + (here.dirs.push(path_text) + below.dirs) =~= (dirs
                            + here.dirs).push(path_text) + below.dirs);
                    }
                },
                ScanKind::Other => {},
            }
        }
        i += 1;
    }
}

/// All files and directories of a project, apart from hidden ones.
pub fn scan_directory(entries: &Vec<ScanEntry>) -> (r: ScanResult)
    ensures
        scanned_texts(r.new_files@) == scan(entries@, ""@, entries@.len()).files,
        texts(r.directories@) == scan(entries@, ""@, entries@.len()).dirs,
        r.modified_files@.len() == 0,
        r.deleted_files@.len() == 0,
{
    let mut result = ScanResult {
        new_files: Vec::new(),
        modified_files: Vec::new(),
        deleted_files: Vec::new(),
        directories: Vec::new(),
    };
    proof {
        assert(scanned_texts(result.new_files@) =~= Seq::empty());
        assert(texts(result.directories@) =~= Seq::empty());
    }
    scan_recursive(entries, "", &mut result);
    proof {
        let s = scan(entries@, ""@, entries@.len());
        assert(Seq::<ScannedText>::empty() + s.files =~= s.files);
        assert(Seq::<Seq<char>>::empty() + s.dirs =~= s.dirs);
    }
    result
}

// ------------------------------------------------ what changed

/// The files that are not known.
pub open spec fn new_of(
    scanned: Seq<ScannedText>,
    known: Set<Seq<char>>,
) -> Seq<ScannedText>
    decreases scanned.len(),
{
    if scanned.len() == 0 {
        Seq::empty()
    } else {
        let before = new_of(scanned.drop_last(), known);
        if known.contains(scanned.last().path) {
            before
        } else {
            before.push(scanned.last())
        }
    }
}

/// Whether a known file has another time of its last change than is known.
pub open spec fn is_modified(
    f: ScannedText,
    known: Set<Seq<char>>,
    mtimes: Map<Seq<char>, (i64, i64)>,
) -> bool {
    &&& known.contains(f.path)
    &&& mtimes.dom().contains(f.path)
    &&& mtimes[f.path] != (f.mtime, f.mtime_ns)
}

pub open spec fn modified_of(
    scanned: Seq<ScannedText>,
    known: Set<Seq<char>>,
    mtimes: Map<Seq<char>, (i64, i64)>,
) -> Seq<ScannedText>
    decreases scanned.len(),
{
    if scanned.len() == 0 {
        Seq::empty()
    } else {
        let before = modified_of(scanned.drop_last(), known, mtimes);
        if is_modified(scanned.last(), known, mtimes) {
            before.push(scanned.last())
        } else {
            before
        }
    }
}

/// Whether a scan found a path.
pub open spec fn was_found(scanned: Seq<ScannedText>, path: Seq<char>) -> bool {
    exists|i: int| 0 <= i < scanned.len() && (#[trigger] scanned[i]).path == path
}

fn found(scanned: &[ScannedFile], path: &str) -> (r: bool)
    ensures
        r == was_found(scanned_texts(scanned@), path@),
{
    let ghost all = scanned_texts(scanned@);
    let mut i: usize = 0;
    while i < scanned.len()
        invariant
            i <= scanned.len(),
            all == scanned_texts(scanned@),
            forall|j: int| 0 <= j < i ==> (#[trigger] all[j]).path != path@,
        decreases scanned.len() - i,
    {
        assert(all[i as int] == scanned@[i as int]@);
        if same(scanned[i].path.as_str(), path) {
            return true;
        }
        i += 1;
    }
    false
}

/// Compares what a scan found with what is known: files that are new, files
/// that changed, and the paths of files that are gone, in their order.
pub fn diff_scan(
    scanned: &[ScannedFile],
    known_files: &OrdMap<String, ()>,
    known_mtimes: &OrdMap<String, (i64, i64)>,
) -> (r: (Vec<ScannedFile>, Vec<ScannedFile>, Vec<String>))
    ensures
        scanned_texts(r.0@) == new_of(scanned_texts(scanned@), known_files@.dom()),
        scanned_texts(r.1@) == modified_of(
            scanned_texts(scanned@),
            known_files@.dom(),
            known_mtimes@,
        ),
        forall|i: int, j: int|
            0 <= i < j < r.2@.len() ==> text_lt((#[trigger] r.2@[i])@, (#[trigger] r.2@[j])@),
        forall|p: Seq<char>| #[trigger]
            texts(r.2@).contains(p) <==> known_files@.dom().contains(p) && !was_found(
                scanned_texts(scanned@),
                p,
            ),
{
    let ghost all = scanned_texts(scanned@);
    let ghost known = known_files@.dom();
    let mut new_files: Vec<ScannedFile> = Vec::new();
    let mut modified_files: Vec<ScannedFile> = Vec::new();
    let mut i: usize = 0;
    proof {
        assert(all.take(0) =~= Seq::empty());
        assert(scanned_texts(new_files@) =~= Seq::empty());
        assert(scanned_texts(modified_files@) =~= Seq::empty());
    }
    while i < scanned.len()
        invariant
            i <= scanned.len(),
            all == scanned_texts(scanned@),
            known == known_files@.dom(),
            scanned_texts(new_files@) == new_of(all.take(i as int), known),
            scanned_texts(modified_files@) == modified_of(
                all.take(i as int),
                known,
                known_mtimes@,
            ),
        decreases scanned.len() - i,
    {
        let file = &scanned[i];
        proof {
            assert(all.take(i + 1).drop_last() =~= all.take(i as int));
            assert(all.take(i + 1).last() == file@);
        }
        if !known_files.contains(&file.path) {
            let ghost before = new_files@;
            new_files.push(file.clone());
            assert(scanned_texts(new_files@) =~= scanned_texts(before).push(file@));
        } else if let Some(m) = known_mtimes.get(&file.path) {
            if file.mtime != m.0 || file.mtime_ns != m.1 {
                let ghost before = modified_files@;
                modified_files.push(file.clone());
                assert(scanned_texts(modified_files@) =~= scanned_texts(before).push(file@));
            }
        }
        i += 1;
    }
    assert(all.take(all.len() as int) =~= all);
    let deleted = gone(scanned, known_files);
    (new_files, modified_files, deleted)
}

fn gone(scanned: &[ScannedFile], known_files: &OrdMap<String, ()>) -> (r: Vec<String>)
    ensures
        forall|i: int, j: int|
            0 <= i < j < r@.len() ==> text_lt((#[trigger] r@[i])@, (#[trigger] r@[j])@),
        forall|p: Seq<char>| #[trigger]
            texts(r@).contains(p) <==> known_files@.dom().contains(p) && !was_found(
                scanned_texts(scanned@),
                p,
            ),
{
    let ghost all = scanned_texts(scanned@);
    let n = known_files.len();
    let ghost p = known_files.pairs();
    let mut out: Vec<String> = Vec::new();
    let mut i: usize = 0;
    while i < n
        invariant
            i <= n,
            n == known_files.pairs().len(),
            p == known_files.pairs(),
            all == scanned_texts(scanned@),
            sorted_keys(p),
            forall|a: int, b: int|
                0 <= a < b < out@.len() ==> text_lt((#[trigger] out@[a])@, (#[trigger] out@[b])@),
            forall|a: int|
                0 <= a < out@.len() ==> is_gone(p, all, i as int, (#[trigger] out@[a])@),
            forall|k: int|
                0 <= k < i && !was_found(all, (#[trigger] p[k]).0@) ==> texts(out@).contains(
                    p[k].0@,
                ),
        decreases n - i,
    {
        let (key, _) = known_files.at(i);
        let ghost before = out@;
        let hit = found(scanned, key.as_str());
        if !hit {
            out.push(key.clone());
        }
        proof {
            let t = texts(out@);
            if !hit {
                assert(t =~= texts(before).push(key@));
            }
            assert forall|a: int, b: int| 0 <= a < b < out@.len() implies text_lt(
                (#[trigger] out@[a])@,
                (#[trigger] out@[b])@,
            ) by {
                if b == before.len() {
                    assert(is_gone(p, all, i as int, before[a]@));
                    let k = choose|k: int| 0 <= k < i && (#[trigger] p[k]).0@ == before[a]@;
                    assert(<String as Key>::lt(p[k].0@, p[i as int].0@));
                }
            }
            assert forall|a: int| 0 <= a < out@.len() implies is_gone(
                p,
                all,
                i + 1,
                (#[trigger] out@[a])@,
            ) by {
                if a < before.len() {
                    assert(is_gone(p, all, i as int, before[a]@));
                    let k = choose|k: int| 0 <= k < i && (#[trigger] p[k]).0@ == before[a]@;
                    assert(p[k].0@ == out@[a]@);
                } else {
                    assert(p[i as int].0@ == out@[a]@);
                }
            }
            assert forall|k: int|
                0 <= k < i + 1 && !was_found(all, (#[trigger] p[k]).0@) implies t.contains(
                p[k].0@,
            ) by {
                if k < i {
                    assert(texts(before).contains(p[k].0@));
                    let m = choose|m: int|
                        0 <= m < texts(before).len() && texts(before)[m] == p[k].0@;
                    assert(t[m] == p[k].0@);
                } else {
                    assert(t[before.len() as int] == key@);
                }
            }
        }
        i += 1;
    }
    proof {
        let t = texts(out@);
        assert forall|q: Seq<char>| #[trigger]
            t.contains(q) <==> known_files@.dom().contains(q) && !was_found(all, q) by {
            if t.contains(q) {
                let a = choose|a: int| 0 <= a < t.len() && t[a] == q;
                assert(is_gone(p, all, i as int, out@[a]@));
                let k = choose|k: int| 0 <= k < i && (#[trigger] p[k]).0@ == q;
                assert(known_files@.dom().contains(p[k].0@));
            }
            if known_files@.dom().contains(q) && !was_found(all, q) {
                let k = choose|k: int| 0 <= k < p.len() && #[trigger] p[k].0@ == q;
                assert(t.contains(p[k].0@));
            }
        }
    }
    out
}

spec fn is_gone(p: Seq<(String, ())>, all: Seq<ScannedText>, n: int, path: Seq<char>) -> bool {
    &&& exists|k: int| 0 <= k < n && (#[trigger] p[k]).0@ == path
    &&& !was_found(all, path)
}

/// A file whose time of the last change is as it is known is neither new nor
/// changed.
pub proof fn known_files_are_not_reported(
    scanned: Seq<ScannedText>,
    known: Set<Seq<char>>,
    mtimes: Map<Seq<char>, (i64, i64)>,
)
    requires
        forall|i: int|
            0 <= i < scanned.len() ==> known.contains((#[trigger] scanned[i]).path)
                && mtimes.dom().contains(scanned[i].path) && mtimes[scanned[i].path] == (
                scanned[i].mtime,
                scanned[i].mtime_ns,
            ),
    ensures
        new_of(scanned, known).len() == 0,
        modified_of(scanned, known, mtimes).len() == 0,
    decreases scanned.len(),
{
    if scanned.len() > 0 {
        let b = scanned.drop_last();
        assert forall|i: int| 0 <= i < b.len() implies known.contains((#[trigger] b[i]).path)
            && mtimes.dom().contains(b[i].path) && mtimes[b[i].path] == (
            b[i].mtime,
            b[i].mtime_ns,
        ) by {
            assert(b[i] == scanned[i]);
        }
        known_files_are_not_reported(b, known, mtimes);
        assert(scanned.last() == scanned[scanned.len() - 1]);
    }
}

// ------------------------------------------------ files with rules

/// Paths are ordered by their components, one after the other.
pub open spec fn parts_lt(a: Seq<Seq<char>>, b: Seq<Seq<char>>) -> bool
    decreases a.len(),
{
    if b.len() == 0 {
        false
    } else if a.len() == 0 {
        true
    } else if a[0] == b[0] {
        parts_lt(a.drop_first(), b.drop_first())
    } else {
        text_lt(a[0], b[0])
    }
}

pub open spec fn path_lt(a: Seq<char>, b: Seq<char>) -> bool {
    parts_lt(components(a), components(b))
}

fn path_below(a: &str, b: &str) -> (r: bool)
    ensures
        r == path_lt(a@, b@),
{
    let x = str_components(a);
    let y = str_components(b);
    let ghost p = texts(x@);
    let ghost q = texts(y@);
    let mut i: usize = 0;
    proof {
        assert(p.skip(0) =~= p);
        assert(q.skip(0) =~= q);
    }
    while i < x.len() && i < y.len()
        invariant
            i <= x.len(),
            i <= y.len(),
            p == texts(x@),
            q == texts(y@),
            parts_lt(p, q) == parts_lt(p.skip(i as int), q.skip(i as int)),
            p == components(a@),
            q == components(b@),
        decreases x.len() - i,
    {
        proof {
            assert(p.skip(i as int)[0] == x@[i as int]@);
            assert(q.skip(i as int)[0] == y@[i as int]@);
            assert(p.skip(i as int).drop_first() =~= p.skip(i + 1));
            assert(q.skip(i as int).drop_first() =~= q.skip(i + 1));
        }
        match text_order(x[i].as_str(), y[i].as_str()) {
            Order::Less => {
                proof {
                    lemma_text_lt_irreflexive(x@[i as int]@);
                }
                return true;
            },
            Order::Greater => {
                proof {
                    lemma_text_lt_irreflexive(x@[i as int]@);
                    if text_lt(x@[i as int]@, y@[i as int]@) {
                        lemma_text_lt_transitive(x@[i as int]@, y@[i as int]@, x@[i as int]@);
                    }
                }
                return false;
            },
            Order::Equal => {},
        }
        i += 1;
    }
    proof {
        assert(p.skip(i as int).len() == x@.len() - i);
        assert(q.skip(i as int).len() == y@.len() - i);
    }
    i < y.len()
}

/// A list with a path after the last one that is not above it.
pub open spec fn path_placed(s: Seq<Seq<char>>, p: Seq<char>) -> Seq<Seq<char>>
    decreases s.len(),
{
    if s.len() == 0 || !path_lt(p, s.last()) {
        s.push(p)
    } else {
        path_placed(s.drop_last(), p).push(s.last())
    }
}

/// Paths in their order.
pub open spec fn path_sorted(s: Seq<Seq<char>>) -> Seq<Seq<char>>
    decreases s.len(),
{
    if s.len() == 0 {
        Seq::empty()
    } else {
        path_placed(path_sorted(s.drop_last()), s.last())
    }
}

/// The files with rules among the first entries of a directory.
pub open spec fn tupfiles(entries: Seq<ScanEntry>, prefix: Seq<char>, n: nat) -> Seq<Seq<char>>
    decreases entries, n,
{
    if n == 0 || n > entries.len() {
        Seq::empty()
    } else {
        let before = tupfiles(entries, prefix, (n - 1) as nat);
        let e = entries[n - 1];
        let path = path_join(prefix, e.name@);
        if is_hidden(e.name@) {
            before
        } else {
            match e.kind {
                ScanKind::Dir { entries: sub } => before + tupfiles(sub@, path, sub@.len()),
                _ => if e.name@ == "Tupfile"@ || e.name@ == "Tupfile.lua"@ {
                    before.push(path)
                } else {
                    before
                },
            }
        }
    }
}

fn find_tupfiles_recursive(entries: &Vec<ScanEntry>, prefix: &str, found: &mut Vec<String>)
    ensures
        texts(final(found)@) == texts(old(found)@) + tupfiles(entries@, prefix@, entries@.len()),
    decreases entries@,
{
    let ghost start = texts(found@);
    let mut i: usize = 0;
    assert(start + Seq::<Seq<char>>::empty() =~= start);
    while i < entries.len()
        invariant
            i <= entries.len(),
            texts(found@) == start + tupfiles(entries@, prefix@, i as nat),
        decreases entries.len() - i,
    {
        let e = &entries[i];
        let ghost here = tupfiles(entries@, prefix@, i as nat);
        if !str_first_is(e.name.as_str(), '.') {
            let path = str_path_join(prefix, e.name.as_str());
            let ghost path_text = path@;
            match &e.kind {
                ScanKind::Dir { entries: sub } => {
                    proof {
                        assert(decreases_to!(entries@ => entries@[i as int]));
                    }
                    find_tupfiles_recursive(sub, path.as_str(), found);
                    proof {
                        let below = tupfiles(sub@, path_text, sub@.len());
                        assert(start + (here + below) =~= (start + here) + below);
                    }
                },
                _ => {
                    if same(e.name.as_str(), "Tupfile") || same(e.name.as_str(), "Tupfile.lua") {
                        let ghost before = found@;
                        found.push(path);
                        proof {
                            assert(texts(found@) =~= texts(before).push(path_text));
                            assert(start + here.push(path_text) =~= (start + here).push(path_text));
                        }
                    }
                },
            }
        }
        i += 1;
    }
}

/// All files with rules of a project, in the order of their paths.
pub fn find_tupfiles(entries: &Vec<ScanEntry>) -> (r: Vec<String>)
    ensures
        texts(r@) == path_sorted(tupfiles(entries@, ""@, entries@.len())),
{
    let mut found: Vec<String> = Vec::new();
    assert(texts(found@) =~= Seq::empty());
    find_tupfiles_recursive(entries, "", &mut found);
    let ghost all = texts(found@);
    proof {
        let t = tupfiles(entries@, ""@, entries@.len());
        assert(Seq::<Seq<char>>::empty() + t =~= t);
    }
    let mut out: Vec<String> = Vec::new();
    let mut i: usize = 0;
    proof {
        assert(all.take(0) =~= Seq::empty());
        assert(texts(out@) =~= Seq::empty());
    }
    while i < found.len()
        invariant
            i <= found.len(),
            all == texts(found@),
            texts(out@) == path_sorted(all.take(i as int)),
        decreases found.len() - i,
    {
        let ghost path = found@[i as int]@;
        proof {
            assert(all.take(i + 1).drop_last() =~= all.take(i as int));
            assert(all.take(i + 1).last() == path);
        }
        let ghost base = texts(out@);
        let mut k: usize = out.len();
        proof {
            assert(base.take(k as int) =~= base);
            assert(base.skip(k as int) =~= Seq::empty());
            assert(path_placed(base.take(k as int), path) + base.skip(k as int) =~= path_placed(
                base,
                path,
            ));
        }
        while k > 0 && path_below(found[i].as_str(), out[k - 1].as_str())
            invariant
                i < found.len(),
                k <= out.len(),
                path == found@[i as int]@,
                base == texts(out@),
                path_placed(base.take(k as int), path) + base.skip(k as int) == path_placed(
                    base,
                    path,
                ),
            decreases k,
        {
            proof {
                let a = base.take(k as int);
                let b = base.take(k - 1);
                assert(a.drop_last() =~= b);
                assert(a.last() == out@[k - 1]@);
                assert(path_placed(b, path).push(base[k - 1]) + base.skip(k as int) =~= path_placed(
                    b,
                    path,
                ) + base.skip(k - 1));
            }
            k = k - 1;
        }
        out.insert(k, found[i].clone());
        proof {
            assert(path_placed(base.take(k as int), path) == base.take(k as int).push(path)) by {
                if k > 0 {
                    assert(base.take(k as int).last() == base[k - 1]);
                }
            }
            assert(texts(out@) =~= base.take(k as int).push(path) + base.skip(k as int));
        }
        i += 1;
    }
    assert(all.take(all.len() as int) =~= all);
    out
}

// ------------------------------------------------ the order of paths

/// What is between two paths that are in order is after the first or before the
/// second.
proof fn lemma_parts_between(a: Seq<Seq<char>>, b: Seq<Seq<char>>, c: Seq<Seq<char>>)
    requires
        parts_lt(a, c),
    ensures
        parts_lt(a, b) || parts_lt(b, c),
    decreases a.len(),
{
    if a.len() > 0 && b.len() > 0 {
        lemma_text_lt_total(a[0], b[0]);
        lemma_text_lt_total(b[0], c[0]);
        if a[0] == c[0] {
            if a[0] == b[0] {
                lemma_parts_between(a.drop_first(), b.drop_first(), c.drop_first());
            }
        } else if text_lt(b[0], a[0]) {
            lemma_text_lt_transitive(b[0], a[0], c[0]);
            lemma_text_lt_irreflexive(b[0]);
        }
    }
}

/// Whether no path of a list is before one that stands before it.
pub open spec fn is_ascending(s: Seq<Seq<char>>) -> bool {
    forall|i: int, j: int| 0 <= i < j < s.len() ==> !path_lt(#[trigger] s[j], #[trigger] s[i])
}

proof fn lemma_placed(s: Seq<Seq<char>>, p: Seq<char>)
    requires
        is_ascending(s),
    ensures
        is_ascending(path_placed(s, p)),
        path_placed(s, p).to_multiset() == s.to_multiset().insert(p),
        path_placed(s, p).len() == s.len() + 1,
        forall|i: int|
            0 <= i < path_placed(s, p).len() ==> (#[trigger] path_placed(s, p)[i]) == p
                || s.contains(path_placed(s, p)[i]),
    decreases s.len(),
{
    let r = path_placed(s, p);
    s.to_multiset_ensures();
    if s.len() == 0 || !path_lt(p, s.last()) {
        assert forall|i: int, j: int| 0 <= i < j < r.len() implies !path_lt(
            #[trigger] r[j],
            #[trigger] r[i],
        ) by {
            if j == s.len() && path_lt(p, s[i]) {
                lemma_parts_between(components(p), components(s.last()), components(s[i]));
                if i < s.len() - 1 {
                    assert(!path_lt(s[s.len() - 1], s[i]));
                }
            } else if j < s.len() {
                assert(!path_lt(s[j], s[i]));
            }
        }
        assert forall|i: int| 0 <= i < r.len() implies (#[trigger] r[i]) == p || s.contains(
            r[i],
        ) by {
            if i < s.len() {
                assert(r[i] == s[i]);
            }
        }
    } else {
        let t = s.drop_last();
        let l = s.last();
        assert forall|i: int, j: int| 0 <= i < j < t.len() implies !path_lt(
            #[trigger] t[j],
            #[trigger] t[i],
        ) by {
            assert(!path_lt(s[j], s[i]));
        }
        lemma_placed(t, p);
        let q = path_placed(t, p);
        q.to_multiset_ensures();
        t.to_multiset_ensures();
        assert(s =~= t.push(l));
        assert(r == q.push(l));
        assert(r.to_multiset() =~= s.to_multiset().insert(p));
        assert forall|i: int, j: int| 0 <= i < j < r.len() implies !path_lt(
            #[trigger] r[j],
            #[trigger] r[i],
        ) by {
            if j < q.len() {
                assert(!path_lt(q[j], q[i]));
            } else {
                assert(r[i] == q[i]);
                if q[i] == p {
                    if path_lt(l, p) {
                        lemma_parts_cycle(components(l), components(p));
                    }
                } else {
                    let k = choose|k: int| 0 <= k < t.len() && t[k] == q[i];
                    assert(!path_lt(s[s.len() - 1], s[k]));
                }
            }
        }
        assert forall|i: int| 0 <= i < r.len() implies (#[trigger] r[i]) == p || s.contains(
            r[i],
        ) by {
            if i < q.len() {
                assert(r[i] == q[i]);
                if q[i] != p {
                    let k = choose|k: int| 0 <= k < t.len() && t[k] == q[i];
                    assert(s[k] == r[i]);
                }
            } else {
                assert(s[s.len() - 1] == r[i]);
            }
        }
    }
}

/// Of two paths only one is before the other.
proof fn lemma_parts_cycle(a: Seq<Seq<char>>, b: Seq<Seq<char>>)
    requires
        parts_lt(a, b),
    ensures
        !parts_lt(b, a),
    decreases a.len(),
{
    if a.len() > 0 && b.len() > 0 {
        if a[0] == b[0] {
            lemma_parts_cycle(a.drop_first(), b.drop_first());
        } else if text_lt(b[0], a[0]) {
            lemma_text_lt_transitive(a[0], b[0], a[0]);
            lemma_text_lt_irreflexive(a[0]);
        }
    }
}

/// Paths that are put in order are the same paths, each as often, and none stands
/// after one that it is before.
pub proof fn paths_are_put_in_order(s: Seq<Seq<char>>)
    ensures
        is_ascending(path_sorted(s)),
        path_sorted(s).to_multiset() == s.to_multiset(),
    decreases s.len(),
{
    if s.len() == 0 {
        assert(path_sorted(s) =~= s);
    } else {
        let before = s.drop_last();
        paths_are_put_in_order(before);
        lemma_placed(path_sorted(before), s.last());
        before.to_multiset_ensures();
        assert(s =~= before.push(s.last()));
    }
}

} // verus!
