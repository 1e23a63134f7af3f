//! What holds of scanning a directory tree.
use vstd::prelude::*;

use crate::ordmap::text_lt;
use crate::paths::path_join;
use crate::platform::scanner::{
    modified_of, new_of, parts_lt, scan, tupfiles, ScanEntry, ScanKind, ScannedText,
};

verus! {

proof fn lemma_files_concat(a: Seq<ScannedText>, b: Seq<ScannedText>, f: ScannedText)
    ensures
        (a + b).contains(f) <==> a.contains(f) || b.contains(f),
{
    let all = a + b;
    if a.contains(f) {
        let i = choose|i: int| 0 <= i < a.len() && a[i] == f;
        assert(all[i] == f);
    }
    if b.contains(f) {
        let i = choose|i: int| 0 <= i < b.len() && b[i] == f;
        assert(all[a.len() + i] == f);
    }
    if all.contains(f) {
        let i = choose|i: int| 0 <= i < all.len() && all[i] == f;
        if i < a.len() {
            assert(a[i] == f);
        } else {
            assert(b[i - a.len()] == f);
        }
    }
}

proof fn lemma_paths_concat(a: Seq<Seq<char>>, b: Seq<Seq<char>>, p: Seq<char>)
    ensures
        (a + b).contains(p) <==> a.contains(p) || b.contains(p),
{
    let all = a + b;
    if a.contains(p) {
        let i = choose|i: int| 0 <= i < a.len() && a[i] == p;
        assert(all[i] == p);
    }
    if b.contains(p) {
        let i = choose|i: int| 0 <= i < b.len() && b[i] == p;
        assert(all[a.len() + i] == p);
    }
    if all.contains(p) {
        let i = choose|i: int| 0 <= i < all.len() && all[i] == p;
        if i < a.len() {
            assert(a[i] == p);
        } else {
            assert(b[i - a.len()] == p);
        }
    }
}

/// Whether a name is left out of a scan: it begins with a dot.
pub open spec fn is_left_out(name: Seq<char>) -> bool {
    name.len() > 0 && name[0] == '.'
}

/// Whether a file is that of an entry, or in the directory that the entry is.
pub open spec fn gives_file(e: ScanEntry, prefix: Seq<char>, f: ScannedText) -> bool {
    &&& !is_left_out(e.name@)
    &&& match e.kind {
        ScanKind::File { mtime, mtime_ns } => f.path == path_join(prefix, e.name@) && f.mtime
            == mtime && f.mtime_ns == mtime_ns,
        ScanKind::Dir { entries } => scan(
            entries@,
            path_join(prefix, e.name@),
            entries@.len(),
        ).files.contains(f),
        ScanKind::Other => false,
    }
}

/// Whether a directory is an entry, or in the directory that the entry is.
pub open spec fn gives_dir(e: ScanEntry, prefix: Seq<char>, d: Seq<char>) -> bool {
    &&& !is_left_out(e.name@)
    &&& match e.kind {
        ScanKind::Dir { entries } => d == path_join(prefix, e.name@) || scan(
            entries@,
            path_join(prefix, e.name@),
            entries@.len(),
        ).dirs.contains(d),
        _ => false,
    }
}

/// Whether a file of rules is an entry, or in the directory that the entry is.
pub open spec fn gives_rules(e: ScanEntry, prefix: Seq<char>, p: Seq<char>) -> bool {
    &&& !is_left_out(e.name@)
    &&& match e.kind {
        ScanKind::Dir { entries } => tupfiles(
            entries@,
            path_join(prefix, e.name@),
            entries@.len(),
        ).contains(p),
        _ => p == path_join(prefix, e.name@) && (e.name@ == "Tupfile"@ || e.name@
            == "Tupfile.lua"@),
    }
}

/// A scan finds every file and every directory of a tree under its path from the top, but
/// those with a hidden name on the way, and nothing else.
pub proof fn a_scan_finds_the_whole_tree(
    entries: Seq<ScanEntry>,
    prefix: Seq<char>,
    n: nat,
    f: ScannedText,
    d: Seq<char>,
)
    requires
        n <= entries.len(),
    ensures
        scan(entries, prefix, n).files.contains(f) <==> exists|i: int|
            0 <= i < n && gives_file(#[trigger] entries[i], prefix, f),
        scan(entries, prefix, n).dirs.contains(d) <==> exists|i: int|
            0 <= i < n && gives_dir(#[trigger] entries[i], prefix, d),
    decreases n,
{
    if n > 0 {
        let m = (n - 1) as nat;
        a_scan_finds_the_whole_tree(entries, prefix, m, f, d);
        let had = scan(entries, prefix, m);
        let now = scan(entries, prefix, n);
        let e = entries[n - 1];
        let path = path_join(prefix, e.name@);
        assert(now.files.contains(f) <==> had.files.contains(f) || gives_file(e, prefix, f)) by {
            match e.kind {
                ScanKind::File { mtime, mtime_ns } => {
                    let g = ScannedText { path, mtime, mtime_ns };
                    lemma_files_concat(had.files, seq![g], f);
                    assert(had.files.push(g) =~= had.files + seq![g]);
                    assert(seq![g][0] == g);
                },
                ScanKind::Dir { entries: sub } => {
                    lemma_files_concat(had.files, scan(sub@, path, sub@.len()).files, f);
                },
                ScanKind::Other => {},
            }
        }
        assert(now.dirs.contains(d) <==> had.dirs.contains(d) || gives_dir(e, prefix, d)) by {
            match e.kind {
                ScanKind::Dir { entries: sub } => {
                    lemma_paths_concat(had.dirs, seq![path], d);
                    assert(had.dirs.push(path) =~= had.dirs + seq![path]);
                    assert(seq![path][0] == path);
                    lemma_paths_concat(
                        had.dirs.push(path),
                        scan(sub@, path, sub@.len()).dirs,
                        d,
                    );
                },
                _ => {},
            }
        }
        if exists|i: int| 0 <= i < n && gives_file(#[trigger] entries[i], prefix, f) {
            let i = choose|i: int| 0 <= i < n && gives_file(#[trigger] entries[i], prefix, f);
            if i < m {
                assert(gives_file(entries[i], prefix, f));
            }
        }
        if exists|i: int| 0 <= i < n && gives_dir(#[trigger] entries[i], prefix, d) {
            let i = choose|i: int| 0 <= i < n && gives_dir(#[trigger] entries[i], prefix, d);
            if i < m {
                assert(gives_dir(entries[i], prefix, d));
            }
        }
    }
}

/// Every file of rules of a tree is found, but those with a hidden name on the way, and
/// nothing else.
pub proof fn all_files_of_rules_are_found(
    entries: Seq<ScanEntry>,
    prefix: Seq<char>,
    n: nat,
    p: Seq<char>,
)
    requires
        n <= entries.len(),
    ensures
        tupfiles(entries, prefix, n).contains(p) <==> exists|i: int|
            0 <= i < n && gives_rules(#[trigger] entries[i], prefix, p),
    decreases n,
{
    if n > 0 {
        let m = (n - 1) as nat;
        all_files_of_rules_are_found(entries, prefix, m, p);
        let had = tupfiles(entries, prefix, m);
        let now = tupfiles(entries, prefix, n);
        let e = entries[n - 1];
        let path = path_join(prefix, e.name@);
        assert(now.contains(p) <==> had.contains(p) || gives_rules(e, prefix, p)) by {
            match e.kind {
                ScanKind::Dir { entries: sub } => {
                    lemma_paths_concat(had, tupfiles(sub@, path, sub@.len()), p);
                },
                _ => {
                    lemma_paths_concat(had, seq![path], p);
                    assert(had.push(path) =~= had + seq![path]);
                    assert(seq![path][0] == path);
                },
            }
        }
        if exists|i: int| 0 <= i < n && gives_rules(#[trigger] entries[i], prefix, p) {
            let i = choose|i: int| 0 <= i < n && gives_rules(#[trigger] entries[i], prefix, p);
            if i < m {
                assert(gives_rules(entries[i], prefix, p));
            }
        }
    }
}

/// Of the files that were found, those that were not known are new, and those are modified
/// that were known with another time; all of them and nothing else.
pub proof fn new_and_modified_files_are_told_apart(
    scanned: Seq<ScannedText>,
    known: Set<Seq<char>>,
    mtimes: Map<Seq<char>, (i64, i64)>,
    f: ScannedText,
)
    ensures
        new_of(scanned, known).contains(f) <==> scanned.contains(f) && !known.contains(f.path),
        modified_of(scanned, known, mtimes).contains(f) <==> {
            &&& scanned.contains(f)
            &&& known.contains(f.path)
            &&& mtimes.dom().contains(f.path)
            &&& mtimes[f.path].0 != f.mtime || mtimes[f.path].1 != f.mtime_ns
        },
    decreases scanned.len(),
{
    if scanned.len() > 0 {
        let before = scanned.drop_last();
        let last = scanned.last();
        new_and_modified_files_are_told_apart(before, known, mtimes, f);
        lemma_files_concat(before, seq![last], f);
        assert(scanned =~= before + seq![last]);
        assert(seq![last].contains(f) <==> f == last) by {
            assert(seq![last][0] == last);
        }
        let a = new_of(before, known);
        lemma_files_concat(a, seq![last], f);
        assert(a.push(last) =~= a + seq![last]);
        let b = modified_of(before, known, mtimes);
        lemma_files_concat(b, seq![last], f);
        assert(b.push(last) =~= b + seq![last]);
    }
}

/// Paths are ordered by the first component in which they differ; what a directory holds comes
/// after the directory.
pub proof fn paths_are_ordered_by_components(
    c: Seq<Seq<char>>,
    a: Seq<Seq<char>>,
    b: Seq<Seq<char>>,
    x: Seq<char>,
    y: Seq<char>,
)
    requires
        x != y,
    ensures
        parts_lt(c + seq![x] + a, c + seq![y] + b) == text_lt(x, y),
        parts_lt(c, c + seq![x] + a),
        !parts_lt(c + a, c),
    decreases c.len(),
{
    if c.len() == 0 {
        assert((c + seq![x] + a)[0] == x);
        assert((c + seq![y] + b)[0] == y);
    } else {
        let d = c.drop_first();
        paths_are_ordered_by_components(d, a, b, x, y);
        assert((c + seq![x] + a).drop_first() =~= d + seq![x] + a);
        assert((c + seq![y] + b).drop_first() =~= d + seq![y] + b);
        assert((c + a).drop_first() =~= d + a);
        assert((c + seq![x] + a)[0] == c[0] && (c + seq![y] + b)[0] == c[0] && (c + a)[0] == c[0]);
    }
}

} // verus!
