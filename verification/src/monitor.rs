//! Changes of files while they are watched.
use vstd::prelude::*;

use crate::paths::{
    components, is_absolute, str_components, str_is_absolute, str_trim_tail, trim_tail,
};
use crate::text::{
    concat3, copy_str, find, join, join_strings, same, split, str_find, str_first_is, str_split,
    str_starts_with, texts,
};

verus! {

/// A change of a file.
#[derive(Debug)]
pub struct FileEvent {
    pub kind: FileEventKind,
    /// The path from the project's directory.
    pub path: String,
}

/// What happened to a file.
#[derive(Debug, Clone, Copy, PartialEq, Eq, Structural)]
pub enum FileEventKind {
    Created,
    Modified,
    Deleted,
    Renamed,
}

/// A change as texts.
#[verifier::ext_equal]
pub struct EventText {
    pub kind: FileEventKind,
    pub path: Seq<char>,
}

impl View for FileEvent {
    type V = EventText;

    open spec fn view(&self) -> EventText {
        EventText { kind: self.kind, path: self.path@ }
    }
}

impl Clone for FileEvent {
    fn clone(&self) -> (r: Self)
        ensures
            r@ == self@,
    {
        FileEvent { kind: self.kind, path: self.path.clone() }
    }
}

pub open spec fn event_texts(v: Seq<FileEvent>) -> Seq<EventText> {
    Seq::new(v.len(), |i: int| v[i]@)
}

/// What a watcher tells of files.
#[derive(Debug, Clone, Copy, PartialEq, Eq, Structural)]
pub enum WatchKind {
    Create,
    Modify,
    Remove,
    /// Something that is no change, such as an access.
    Other,
}

/// The change that a watcher tells of.
pub open spec fn change_of(k: WatchKind) -> Option<FileEventKind> {
    match k {
        WatchKind::Create => Some(FileEventKind::Created),
        WatchKind::Modify => Some(FileEventKind::Modified),
        WatchKind::Remove => Some(FileEventKind::Deleted),
        WatchKind::Other => None,
    }
}

/// Directories in which nothing is watched.
pub open spec fn ignored_dirs() -> Seq<Seq<char>> {
    seq![".tup"@, ".git"@, ".hg"@, ".svn"@, ".bzr"@]
}

/// Whether a path lies in a directory of a name, or begins like it.
pub open spec fn touches(path: Seq<char>, dir: Seq<char>) -> bool {
    ||| dir.is_prefix_of(path)
    ||| find(path, "/"@ + dir + "/"@) is Some
}

/// Whether changes of a path do not matter: it lies in a directory in which
/// nothing is watched, or a part of it is hidden.
pub open spec fn is_ignored(path: Seq<char>) -> bool {
    ||| exists|i: int|
        0 <= i < ignored_dirs().len() && touches(path, #[trigger] ignored_dirs()[i])
    ||| exists|i: int|
        0 <= i < split(path, "/"@).len() && is_hidden_part(#[trigger] split(path, "/"@)[i])
}

pub open spec fn is_hidden_part(part: Seq<char>) -> bool {
    part.len() > 0 && part[0] == '.' && part != "."@
}

fn is_ignored_path(path: &str) -> (r: bool)
    ensures
        r == is_ignored(path@),
{
    let dirs = vec![".tup", ".git", ".hg", ".svn", ".bzr"];
    let ghost d = ignored_dirs();
    let mut i: usize = 0;
    while i < dirs.len()
        invariant
            i <= dirs.len(),
            dirs@.len() == d.len(),
            d == ignored_dirs(),
            forall|j: int| 0 <= j < d.len() ==> d[j] == (#[trigger] dirs@[j])@,
            forall|j: int| 0 <= j < i ==> !touches(path@, #[trigger] d[j]),
        decreases dirs.len() - i,
    {
        assert(d[i as int] == dirs@[i as int]@);
        let inner = concat3("/", dirs[i], "/");
        if str_starts_with(path, dirs[i]) || str_find(path, inner.as_str()).is_some() {
            assert(touches(path@, d[i as int]));
            return true;
        }
        i += 1;
    }
    proof {
        reveal_strlit("/");
    }
    let parts = str_split(path, "/");
    let ghost all = split(path@, "/"@);
    let mut k: usize = 0;
    while k < parts.len()
        invariant
            k <= parts.len(),
            all == texts(parts@),
            all == split(path@, "/"@),
            forall|j: int| 0 <= j < k ==> !is_hidden_part(#[trigger] all[j]),
        decreases parts.len() - k,
    {
        assert(all[k as int] == parts@[k as int]@);
        if str_first_is(parts[k].as_str(), '.') && !same(parts[k].as_str(), ".") {
            return true;
        }
        k += 1;
    }
    assert(all.len() == parts@.len());
    false
}

/// Pieces of a path without a number of components and without the separators and
/// `.` that stand before what follows them.
pub open spec fn after_components(pieces: Seq<Seq<char>>, k: nat) -> Seq<Seq<char>>
    decreases pieces.len(),
{
    if pieces.len() == 0 {
        pieces
    } else if pieces[0].len() == 0 || pieces[0] == seq!['.'] {
        after_components(pieces.drop_first(), k)
    } else if k == 0 {
        pieces
    } else {
        after_components(pieces.drop_first(), (k - 1) as nat)
    }
}

/// Whether a path begins with a component that is not between separators: the
/// root or `.`.
pub open spec fn has_head(path: Seq<char>) -> bool {
    is_absolute(path) || split(path, "/"@)[0] == seq!['.']
}

/// The path below a directory, if it is below it, as it is written: from its
/// first component below the directory to its last.
pub open spec fn path_under(root: Seq<char>, path: Seq<char>) -> Option<Seq<char>> {
    let r = components(root);
    if !r.is_prefix_of(components(path)) {
        None
    } else if r.len() == 0 {
        Some(trim_tail(path))
    } else {
        let k = if has_head(path) {
            (r.len() - 1) as nat
        } else {
            r.len()
        };
        Some(trim_tail(join(after_components(split(path, "/"@), k), "/"@)))
    }
}

/// The text of a path after a number of its components.
fn text_after(path: &str, count: usize) -> (r: String)
    requires
        count > 0,
    ensures
        r@ == trim_tail(
            join(
                after_components(
                    split(path@, "/"@),
                    if has_head(path@) {
                        (count - 1) as nat
                    } else {
                        count as nat
                    },
                ),
                "/"@,
            ),
        ),
{
    proof {
        reveal_strlit("/");
        reveal_strlit(".");
        assert("."@ =~= seq!['.']);
    }
    let pieces = str_split(path, "/");
    let ghost all = texts(pieces@);
    assert(all[0] == pieces@[0]@);
    let head = str_is_absolute(path) || same(pieces[0].as_str(), ".");
    let ghost want: nat = if head {
        (count - 1) as nat
    } else {
        count as nat
    };
    let mut left: usize = if head {
        count - 1
    } else {
        count
    };
    let mut i: usize = 0;
    let mut found = false;
    assert(all.skip(0) =~= all);
    while i < pieces.len() && !found
        invariant
            i <= pieces.len(),
            all == texts(pieces@),
            seq!['.'] == "."@,
            after_components(all, want) == after_components(all.skip(i as int), left as nat),
            found ==> after_components(all, want) == all.skip(i as int),
        decreases pieces.len() - i, (if found {
            0nat
        } else {
            1
        }),
    {
        let p = pieces[i].as_str();
        proof {
            assert(all.skip(i as int)[0] == p@);
            assert(all.skip(i as int).drop_first() =~= all.skip(i + 1));
        }
        if p.is_empty() || same(p, ".") {
            i += 1;
        } else if left == 0 {
            found = true;
        } else {
            left -= 1;
            i += 1;
        }
    }
    assert(after_components(all, want) =~= all.skip(i as int));
    let mut rest: Vec<String> = Vec::new();
    let ghost from = i as int;
    assert(texts(rest@) =~= all.skip(from).take(0));
    while i < pieces.len()
        invariant
            0 <= from <= i <= pieces.len(),
            all == texts(pieces@),
            texts(rest@) == all.skip(from).take(i - from),
        decreases pieces.len() - i,
    {
        let ghost before = texts(rest@);
        rest.push(pieces[i].clone());
        proof {
            assert(texts(rest@) =~= before.push(all[i as int]));
            assert(all.skip(from).take(i + 1 - from) =~= before.push(all[i as int]));
        }
        i += 1;
    }
    assert(all.skip(from).take(i - from) =~= all.skip(from));
    let text = join_strings(rest.as_slice(), "/");
    copy_str(str_trim_tail(text.as_str()))
}

fn under(root: &str, path: &str) -> (res: Option<String>)
    ensures
        match res {
            Some(s) => path_under(root@, path@) == Some(s@),
            None => path_under(root@, path@) is None,
        },
{
    let r = str_components(root);
    let p = str_components(path);
    let ghost a = components(root@);
    let ghost b = components(path@);
    proof {
        assert(a.len() == r@.len());
        assert(b.len() == p@.len());
    }
    if r.len() > p.len() {
        return None;
    }
    let mut i: usize = 0;
    while i < r.len()
        invariant
            i <= r.len(),
            r.len() <= p.len(),
            a == texts(r@),
            b == texts(p@),
            a == components(root@),
            b == components(path@),
            forall|j: int| 0 <= j < i ==> #[trigger] a[j] == b[j],
        decreases r.len() - i,
    {
        assert(a[i as int] == r@[i as int]@);
        assert(b[i as int] == p@[i as int]@);
        if !same(r[i].as_str(), p[i].as_str()) {
            return None;
        }
        i += 1;
    }
    assert(a =~= b.subrange(0, a.len() as int));
    if r.len() == 0 {
        Some(copy_str(str_trim_tail(path)))
    } else {
        Some(text_after(path, r.len()))
    }
}

/// The changes among paths that a watcher tells of.
pub open spec fn changes(
    root: Seq<char>,
    kind: FileEventKind,
    paths: Seq<Seq<char>>,
) -> Seq<EventText>
    decreases paths.len(),
{
    if paths.len() == 0 {
        Seq::empty()
    } else {
        let before = changes(root, kind, paths.drop_last());
        match path_under(root, paths.last()) {
            Some(path) => if is_ignored(path) {
                before
            } else {
                before.push(EventText { kind, path })
            },
            None => before,
        }
    }
}

/// The changes of the files of a project.
#[derive(Debug)]
pub struct Monitor {
    root: String,
    events: Vec<FileEvent>,
    running: bool,
}

/// The state of a monitor.
#[verifier::ext_equal]
pub struct MonitorText {
    pub root: Seq<char>,
    pub events: Seq<EventText>,
    pub running: bool,
}

impl View for Monitor {
    type V = MonitorText;

    closed spec fn view(&self) -> MonitorText {
        MonitorText {
            root: self.root@,
            events: event_texts(self.events@),
            running: self.running,
        }
    }
}

impl Monitor {
    /// A monitor of a project's directory that does not run.
    pub fn new(root: &str) -> (r: Self)
        ensures
            r@ == (MonitorText { root: root@, events: Seq::empty(), running: false }),
    {
        let r = Monitor { root: copy_str(root), events: Vec::new(), running: false };
        assert(r@.events =~= Seq::empty());
        r
    }

    /// Takes note that watching begins.
    pub fn start(&mut self)
        ensures
            final(self)@ == (MonitorText { running: true, ..old(self)@ }),
    {
        self.running = true;
    }

    /// Takes note that watching ends, and hands out the changes.
    pub fn collect_events(&mut self) -> (r: Vec<FileEvent>)
        ensures
            event_texts(r@) == old(self)@.events,
            final(self)@ == (MonitorText {
                running: false,
                events: Seq::empty(),
                ..old(self)@
            }),
    {
        self.running = false;
        let mut events: Vec<FileEvent> = Vec::new();
        std::mem::swap(&mut events, &mut self.events);
        assert(self@.events =~= Seq::empty());
        events
    }

    /// Whether the monitor runs.
    pub fn is_running(&self) -> (r: bool)
        ensures
            r == self@.running,
    {
        self.running
    }

    /// Takes note of what a watcher tells.
    pub fn process_event(&mut self, kind: WatchKind, paths: &[String])
        ensures
            final(self)@ == match change_of(kind) {
                None => old(self)@,
                Some(k) => MonitorText {
                    events: old(self)@.events + changes(old(self)@.root, k, texts(paths@)),
                    ..old(self)@
                },
            },
    {
        let change = match kind {
            WatchKind::Create => FileEventKind::Created,
            WatchKind::Modify => FileEventKind::Modified,
            WatchKind::Remove => FileEventKind::Deleted,
            WatchKind::Other => {
                return;
            },
        };
        let ghost start = self@;
        let ghost all = texts(paths@);
        let mut i: usize = 0;
        proof {
            assert(all.take(0) =~= Seq::empty());
            assert(start.events + Seq::<EventText>::empty() =~= start.events);
        }
        while i < paths.len()
            invariant
                i <= paths.len(),
                all == texts(paths@),
                start == old(self)@,
                change_of(kind) == Some(change),
                self@ == (MonitorText {
                    events: start.events + changes(start.root, change, all.take(i as int)),
                    ..start
                }),
            decreases paths.len() - i,
        {
            proof {
                assert(all.take(i + 1).drop_last() =~= all.take(i as int));
                assert(all.take(i + 1).last() == paths@[i as int]@);
            }
            let ghost here = changes(start.root, change, all.take(i as int));
            if let Some(path) = under(self.root.as_str(), paths[i].as_str()) {
                if !self.should_ignore(path.as_str()) {
                    let ghost before = self.events@;
                    let event = FileEvent { kind: change, path };
                    let ghost text = event@;
                    self.events.push(event);
                    proof {
                        assert(event_texts(self.events@) =~= event_texts(before).push(text));
                        assert(start.events + here.push(text) =~= (start.events + here).push(text));
                    }
                }
            }
            i += 1;
        }
        assert(all.take(all.len() as int) =~= all);
    }

    /// Whether changes of a path do not matter.
    pub fn should_ignore(&self, path: &str) -> (r: bool)
        ensures
            r == is_ignored(path@),
    {
        is_ignored_path(path)
    }
}

// ------------------------------------------------ the last change of each file

/// Whether a change of a path is among some changes.
pub open spec fn mentions(events: Seq<EventText>, path: Seq<char>) -> bool {
    exists|i: int| 0 <= i < events.len() && (#[trigger] events[i]).path == path
}

/// The changes that no later change of the same file follows.
pub open spec fn deduplicated(events: Seq<EventText>) -> Seq<EventText>
    decreases events.len(),
{
    if events.len() == 0 {
        Seq::empty()
    } else {
        let rest = events.drop_first();
        if mentions(rest, events[0].path) {
            deduplicated(rest)
        } else {
            seq![events[0]] + deduplicated(rest)
        }
    }
}

fn mentioned(events: &[FileEvent], from: usize, path: &str) -> (r: bool)
    requires
        from <= events@.len(),
    ensures
        r == mentions(event_texts(events@).skip(from as int), path@),
{
    let ghost rest = event_texts(events@).skip(from as int);
    let mut i: usize = from;
    while i < events.len()
        invariant
            from <= i <= events.len(),
            rest == event_texts(events@).skip(from as int),
            forall|j: int| 0 <= j < i - from ==> (#[trigger] rest[j]).path != path@,
        decreases events.len() - i,
    {
        assert(rest[i - from] == events@[i as int]@);
        if same(events[i].path.as_str(), path) {
            return true;
        }
        i += 1;
    }
    false
}

/// Keeps the last change of each file.
pub fn deduplicate_events(events: &[FileEvent]) -> (r: Vec<FileEvent>)
    ensures
        event_texts(r@) == deduplicated(event_texts(events@)),
{
    let ghost all = event_texts(events@);
    let mut out: Vec<FileEvent> = Vec::new();
    let mut i: usize = 0;
    proof {
        assert(all.skip(0) =~= all);
        assert(event_texts(out@) + deduplicated(all) =~= deduplicated(all));
    }
    while i < events.len()
        invariant
            i <= events.len(),
            all == event_texts(events@),
            deduplicated(all) == event_texts(out@) + deduplicated(all.skip(i as int)),
        decreases events.len() - i,
    {
        proof {
            assert(all.skip(i as int)[0] == events@[i as int]@);
            assert(all.skip(i as int).drop_first() =~= all.skip(i + 1));
        }
        if !mentioned(events, i + 1, events[i].path.as_str()) {
            let ghost before = event_texts(out@);
            out.push(events[i].clone());
            proof {
                let e = events@[i as int]@;
                assert(event_texts(out@) =~= before.push(e));
                assert(before + (seq![e] + deduplicated(all.skip(i + 1))) =~= event_texts(out@)
                    + deduplicated(all.skip(i + 1)));
            }
        }
        i += 1;
    }
    assert(event_texts(out@) + Seq::<EventText>::empty() =~= event_texts(out@));
    out
}

proof fn lemma_same_files(events: Seq<EventText>, p: Seq<char>)
    ensures
        mentions(deduplicated(events), p) <==> mentions(events, p),
    decreases events.len(),
{
    if events.len() > 0 {
        let rest = events.drop_first();
        lemma_same_files(rest, p);
        let d = deduplicated(rest);
        let r = deduplicated(events);
        let kept = !mentions(rest, events[0].path);
        if mentions(events, p) {
            let i = choose|i: int| 0 <= i < events.len() && (#[trigger] events[i]).path == p;
            if i > 0 {
                assert(rest[i - 1].path == p);
            }
        }
        if mentions(rest, p) {
            let i = choose|i: int| 0 <= i < rest.len() && (#[trigger] rest[i]).path == p;
            assert(events[i + 1].path == p);
        }
        if mentions(d, p) {
            let i = choose|i: int| 0 <= i < d.len() && (#[trigger] d[i]).path == p;
            if kept {
                assert(r[i + 1].path == p);
            }
        }
        if kept {
            assert(r[0] == events[0]);
            if mentions(r, p) {
                let i = choose|i: int| 0 <= i < r.len() && (#[trigger] r[i]).path == p;
                if i > 0 {
                    assert(d[i - 1].path == p);
                }
            }
        }
    }
}

proof fn lemma_one_each(events: Seq<EventText>)
    ensures
        forall|i: int, j: int|
            0 <= i < j < deduplicated(events).len() ==> (#[trigger] deduplicated(events)[i]).path
                != (#[trigger] deduplicated(events)[j]).path,
    decreases events.len(),
{
    if events.len() > 0 {
        let rest = events.drop_first();
        lemma_one_each(rest);
        let d = deduplicated(rest);
        let r = deduplicated(events);
        let first = events[0].path;
        lemma_same_files(rest, first);
        if !mentions(rest, first) {
            assert forall|i: int, j: int| 0 <= i < j < r.len() implies (#[trigger] r[i]).path != (
            #[trigger] r[j]).path by {
                assert(r[j] == d[j - 1]);
                if i == 0 {
                    assert(d[j - 1].path != first);
                } else {
                    assert(r[i] == d[i - 1]);
                }
            }
        }
    }
}

proof fn lemma_last_kept(events: Seq<EventText>, k: int)
    requires
        0 <= k < events.len(),
        !mentions(events.skip(k + 1), events[k].path),
    ensures
        deduplicated(events).contains(events[k]),
    decreases events.len(),
{
    let rest = events.drop_first();
    let d = deduplicated(rest);
    let r = deduplicated(events);
    if k == 0 {
        assert(events.skip(1) =~= rest);
        assert(r[0] == events[0]);
    } else {
        assert(rest.skip(k) =~= events.skip(k + 1));
        lemma_last_kept(rest, k - 1);
        let m = choose|m: int| 0 <= m < d.len() && d[m] == events[k];
        if !mentions(rest, events[0].path) {
            assert(r[m + 1] == events[k]);
        }
    }
}

/// Every file that changed has one change left, which is its last one.
pub proof fn one_change_of_each_file_is_left(events: Seq<EventText>)
    ensures
        forall|p: Seq<char>| mentions(deduplicated(events), p) <==> #[trigger] mentions(events, p),
        forall|i: int, j: int|
            0 <= i < j < deduplicated(events).len() ==> (#[trigger] deduplicated(events)[i]).path
                != (#[trigger] deduplicated(events)[j]).path,
        forall|k: int|
            0 <= k < events.len() && !mentions(events.skip(k + 1), (#[trigger] events[k]).path)
                ==> deduplicated(events).contains(events[k]),
{
    assert forall|p: Seq<char>| mentions(deduplicated(events), p) <==> #[trigger] mentions(
        events,
        p,
    ) by {
        lemma_same_files(events, p);
    }
    lemma_one_each(events);
    assert forall|k: int|
        0 <= k < events.len() && !mentions(
            events.skip(k + 1),
            (#[trigger] events[k]).path,
        ) implies deduplicated(events).contains(events[k]) by {
        lemma_last_kept(events, k);
    }
}

} // verus!
