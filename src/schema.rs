//! The statements that create the store's tables and write its rows.
use vstd::prelude::*;

verus! {

/// One row per commit, keyed by the commit id.
pub const CREATE_COMMIT_DETAILS: &'static str = "CREATE TABLE commit_details (
            id TEXT PRIMARY KEY,
            author TEXT NOT NULL,
            date INTEGER NOT NULL,
            message TEXT NOT NULL
        )";

/// One row per (parent, child) edge; the pair is the key.
pub const CREATE_COMMIT_RELATION: &'static str = "CREATE TABLE commit_relation (
            parent TEXT NOT NULL,
            child TEXT NOT NULL,
            PRIMARY KEY (parent, child)
        )";

/// References by name and target id; nothing writes to it yet.
pub const CREATE_REF_DETAILS: &'static str = "CREATE TABLE ref_details (
            name TEXT NOT NULL,
            id TEXT NOT NULL,
            kind TEXT NOT NULL,
            PRIMARY KEY (name, id)
        )";

/// Inserts one commit row from its id, author, date and message.
pub const INSERT_COMMIT_DETAILS: &'static str =
    "INSERT INTO commit_details (id, author, date, message) VALUES (?1, ?2, ?3, ?4)";

/// Inserts one edge from its parent id and child id.
pub const INSERT_COMMIT_RELATION: &'static str =
    "INSERT INTO commit_relation (parent, child) VALUES (?1, ?2)";

/// The statements that create a fresh store, in the order they run:
/// commits, edges, references.
pub fn schema_statements() -> (r: Vec<&'static str>)
    ensures
        r@ == seq![CREATE_COMMIT_DETAILS, CREATE_COMMIT_RELATION, CREATE_REF_DETAILS],
{
    let r = vec![CREATE_COMMIT_DETAILS, CREATE_COMMIT_RELATION, CREATE_REF_DETAILS];
    assert(r@ =~= seq![CREATE_COMMIT_DETAILS, CREATE_COMMIT_RELATION, CREATE_REF_DETAILS]);
    r
}

} // verus!
