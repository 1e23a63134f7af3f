//! How a project is set up, and how it is found.
use vstd::prelude::*;

use crate::paths::{parent, parent_is_shorter, path_join, str_parent, str_path_join};
use crate::text::{concat2, concat3, copy_str, texts};

verus! {

/// Why a project was not set up.
#[derive(Debug)]
pub enum InitError {
    /// The directory is that of a project already.
    AlreadyInitialized(String),
    /// The database could not be created.
    Database(String),
    /// What went wrong with a file, and the file.
    Io(String, String),
}

/// An error as texts.
#[verifier::ext_equal]
pub enum InitErrorText {
    AlreadyInitialized(Seq<char>),
    Database(Seq<char>),
    Io(Seq<char>, Seq<char>),
}

impl View for InitError {
    type V = InitErrorText;

    open spec fn view(&self) -> InitErrorText {
        match *self {
            InitError::AlreadyInitialized(p) => InitErrorText::AlreadyInitialized(p@),
            InitError::Database(m) => InitErrorText::Database(m@),
            InitError::Io(e, p) => InitErrorText::Io(e@, p@),
        }
    }
}

pub open spec fn init_error_message(e: InitErrorText) -> Seq<char> {
    match e {
        InitErrorText::AlreadyInitialized(p) => "tup database already exists in: "@ + p,
        InitErrorText::Database(m) => "database error: "@ + m,
        InitErrorText::Io(e, p) => "I/O error at "@ + p + ": "@ + e,
    }
}

impl InitError {
    /// What the error says.
    pub fn message(&self) -> (r: String)
        ensures
            r@ == init_error_message(self@),
    {
        match self {
            InitError::AlreadyInitialized(p) => concat2(
                "tup database already exists in: ",
                p.as_str(),
            ),
            InitError::Database(m) => concat2("database error: ", m.as_str()),
            InitError::Io(e, p) => {
                let head = concat3("I/O error at ", p.as_str(), ": ");
                concat2(head.as_str(), e.as_str())
            },
        }
    }
}

/// The file of the database of a project.
pub open spec fn database_of(dir: Seq<char>) -> Seq<char> {
    path_join(path_join(dir, ".tup"@), "db"@)
}

/// Decides whether a directory can be set up: it cannot where it is that of a
/// project, unless that is forced, and it cannot where the file of the database is
/// there. The result is what goes into its file of options, where it gets one.
pub fn init_command(
    dir: &str,
    is_project: bool,
    has_database: bool,
    db_sync: bool,
    force: bool,
) -> (r: Result<Option<&'static str>, InitError>)
    ensures
        match r {
            Err(e) => if is_project && !force {
                e@ == InitErrorText::AlreadyInitialized(dir@)
            } else {
                has_database && e@ == InitErrorText::Database(
                    "database already exists at "@ + database_of(dir@),
                )
            },
            Ok(options) => {
                &&& !is_project || force
                &&& !has_database
                &&& match options {
                    None => db_sync,
                    Some(text) => !db_sync && text@ == "[db]\n\tsync = 0\n"@,
                }
            },
        },
{
    if is_project && !force {
        Err(InitError::AlreadyInitialized(copy_str(dir)))
    } else if has_database {
        let tup = str_path_join(dir, ".tup");
        let file = str_path_join(tup.as_str(), "db");
        Err(InitError::Database(concat2("database already exists at ", file.as_str())))
    } else if db_sync {
        Ok(None)
    } else {
        Ok(Some("[db]\n\tsync = 0\n"))
    }
}

/// A directory and all those above it.
pub open spec fn and_above(dir: Seq<char>) -> Seq<Seq<char>>
    decreases dir.len(),
{
    match parent(dir) {
        Some(p) => {
            proof {
                parent_is_shorter(dir);
            }
            seq![dir] + and_above(p)
        },
        None => seq![dir],
    }
}

/// A directory and all those above it, in which the files of a project may be
/// looked for.
pub fn search_path(dir: &str) -> (r: Vec<String>)
    ensures
        texts(r@) == and_above(dir@),
{
    let mut out: Vec<String> = Vec::new();
    let mut current = dir;
    let mut going = true;
    assert(texts(out@) + and_above(dir@) =~= and_above(dir@));
    while going
        invariant
            going ==> and_above(dir@) == texts(out@) + and_above(current@),
            !going ==> and_above(dir@) == texts(out@),
        decreases current@.len(), (if going { 1int } else { 0int }),
    {
        let ghost before = texts(out@);
        let ghost here = current@;
        out.push(copy_str(current));
        assert(texts(out@) =~= before.push(here));
        match str_parent(current) {
            Some(p) => {
                proof {
                    parent_is_shorter(here);
                    assert(before + (seq![here] + and_above(p@)) =~= texts(out@) + and_above(p@));
                }
                current = p;
            },
            None => {
                going = false;
                assert(before + seq![here] =~= texts(out@));
            },
        }
    }
    out
}

/// Finds the directory of the project that a directory is in: the nearest one
/// of [`search_path`] that has the files of a project, as `found` says of each.
pub fn find_tup_dir(start: &str, found: &[bool]) -> (r: Option<String>)
    requires
        found@.len() == and_above(start@).len(),
    ensures
        match r {
            Some(dir) => exists|i: int| #[trigger]
                first_true(found@, i) && dir@ == and_above(start@)[i],
            None => forall|i: int| 0 <= i < found@.len() ==> !#[trigger] found@[i],
        },
{
    let dirs = search_path(start);
    assert(texts(dirs@).len() == dirs@.len());
    let mut i: usize = 0;
    while i < dirs.len()
        invariant
            i <= dirs.len(),
            dirs@.len() == found@.len(),
            texts(dirs@) == and_above(start@),
            forall|j: int| 0 <= j < i ==> !#[trigger] found@[j],
        decreases dirs.len() - i,
    {
        if found[i] {
            proof {
                assert(first_true(found@, i as int));
                assert(texts(dirs@)[i as int] == dirs@[i as int]@);
            }
            return Some(dirs[i].clone());
        }
        i += 1;
    }
    None
}

/// Whether a place holds the first `true` of a list.
pub open spec fn first_true(s: Seq<bool>, i: int) -> bool {
    &&& 0 <= i < s.len()
    &&& s[i]
    &&& forall|j: int| 0 <= j < i ==> !#[trigger] s[j]
}

} // verus!
