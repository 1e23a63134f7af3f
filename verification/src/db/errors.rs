//! Errors of the database.
use vstd::prelude::*;

use crate::text::{concat2, concat3};
use crate::types::{i64_to_string, int_text, TupId};

verus! {

/// Errors of database operations.
#[derive(Debug)]
pub enum DbError {
    /// An error of the store itself.
    Sqlite(String),
    AlreadyExists { path: String },
    NotFound { path: String },
    VersionMismatch { expected: i32, found: i32 },
    ParserVersionMismatch { expected: i32, found: i32 },
    InvalidNodeType(i32),
    InvalidLinkType(i32),
    NodeNotFound(TupId),
    Other(String),
}

/// An error as texts.
#[verifier::ext_equal]
pub enum DbErrorText {
    Sqlite(Seq<char>),
    AlreadyExists { path: Seq<char> },
    NotFound { path: Seq<char> },
    VersionMismatch { expected: i32, found: i32 },
    ParserVersionMismatch { expected: i32, found: i32 },
    InvalidNodeType(i32),
    InvalidLinkType(i32),
    NodeNotFound(TupId),
    Other(Seq<char>),
}

impl View for DbError {
    type V = DbErrorText;

    open spec fn view(&self) -> DbErrorText {
        match *self {
            DbError::Sqlite(m) => DbErrorText::Sqlite(m@),
            DbError::AlreadyExists { path } => DbErrorText::AlreadyExists { path: path@ },
            DbError::NotFound { path } => DbErrorText::NotFound { path: path@ },
            DbError::VersionMismatch { expected, found } => DbErrorText::VersionMismatch {
                expected,
                found,
            },
            DbError::ParserVersionMismatch { expected, found } =>
                DbErrorText::ParserVersionMismatch { expected, found },
            DbError::InvalidNodeType(n) => DbErrorText::InvalidNodeType(n),
            DbError::InvalidLinkType(n) => DbErrorText::InvalidLinkType(n),
            DbError::NodeNotFound(id) => DbErrorText::NodeNotFound(id),
            DbError::Other(m) => DbErrorText::Other(m@),
        }
    }
}

/// What an error says.
pub open spec fn db_error_message(e: DbErrorText) -> Seq<char> {
    match e {
        DbErrorText::Sqlite(m) => "SQLite error: "@ + m,
        DbErrorText::AlreadyExists { path } => "database already exists at "@ + path,
        DbErrorText::NotFound { path } => "database not found at "@ + path,
        DbErrorText::VersionMismatch { expected, found } =>
            "schema version mismatch: expected "@ + int_text(expected as int) + ", found "@
            + int_text(found as int),
        DbErrorText::ParserVersionMismatch { expected, found } =>
            "parser version mismatch: expected "@ + int_text(expected as int) + ", found "@
            + int_text(found as int),
        DbErrorText::InvalidNodeType(n) => "invalid node type: "@ + int_text(n as int),
        DbErrorText::InvalidLinkType(n) => "invalid link type: "@ + int_text(n as int),
        DbErrorText::NodeNotFound(id) => "node not found: "@ + int_text(id.0 as int),
        DbErrorText::Other(m) => m,
    }
}

impl DbError {
    /// What the error says.
    pub fn message(&self) -> (r: String)
        ensures
            r@ == db_error_message(self@),
    {
        match self {
            DbError::Sqlite(m) => concat2("SQLite error: ", m.as_str()),
            DbError::AlreadyExists { path } => concat2(
                "database already exists at ",
                path.as_str(),
            ),
            DbError::NotFound { path } => concat2("database not found at ", path.as_str()),
            DbError::VersionMismatch { expected, found } => {
                let a = i64_to_string(*expected as i64);
                let b = i64_to_string(*found as i64);
                let head = concat3(
                    "schema version mismatch: expected ",
                    a.as_str(),
                    ", found ",
                );
                concat2(head.as_str(), b.as_str())
            },
            DbError::ParserVersionMismatch { expected, found } => {
                let a = i64_to_string(*expected as i64);
                let b = i64_to_string(*found as i64);
                let head = concat3(
                    "parser version mismatch: expected ",
                    a.as_str(),
                    ", found ",
                );
                concat2(head.as_str(), b.as_str())
            },
            DbError::InvalidNodeType(n) => {
                let a = i64_to_string(*n as i64);
                concat2("invalid node type: ", a.as_str())
            },
            DbError::InvalidLinkType(n) => {
                let a = i64_to_string(*n as i64);
                concat2("invalid link type: ", a.as_str())
            },
            DbError::NodeNotFound(id) => {
                let a = i64_to_string(id.raw());
                concat2("node not found: ", a.as_str())
            },
            DbError::Other(m) => m.clone(),
        }
    }
}

} // verus!
