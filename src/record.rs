//! The normalised record that is kept for one commit.
use vstd::prelude::*;

verus! {

/// Author recorded when a commit carries no readable author name.
pub const UNKNOWN_AUTHOR: &'static str = "Unknown";

/// Message recorded when a commit carries no readable message.
pub const NO_MESSAGE: &'static str = "No message";

/// One commit as it is persisted: its id, author, commit time in seconds
/// since the epoch, message, and the ids of its parents in the order the
/// commit lists them.
pub struct CommitDetails {
    pub id: String,
    pub author: String,
    pub date: i64,
    pub message: String,
    pub parents: Vec<String>,
}

/// Mathematical view of a `CommitDetails`.
pub struct CommitModel {
    pub id: Seq<char>,
    pub author: Seq<char>,
    pub date: int,
    pub message: Seq<char>,
    pub parents: Seq<Seq<char>>,
}

impl View for CommitDetails {
    type V = CommitModel;

    open spec fn view(&self) -> CommitModel {
        CommitModel {
            id: self.id@,
            author: self.author@,
            date: self.date as int,
            message: self.message@,
            parents: self.parents@.map_values(|p: String| p@),
        }
    }
}

/// The text held by `v`, or `fallback` where there is none.
pub open spec fn text_or(v: Option<&str>, fallback: &str) -> Seq<char> {
    match v {
        Some(s) => s@,
        None => fallback@,
    }
}

fn owned_or(v: Option<&str>, fallback: &str) -> (r: String)
    ensures
        r@ == text_or(v, fallback),
{
    match v {
        Some(s) => s.to_owned(),
        None => fallback.to_owned(),
    }
}

impl CommitDetails {
    /// Builds the record of a commit from what was read of it: a missing
    /// author becomes `"Unknown"` and a missing message `"No message"`.
    pub fn from_parts(
        id: String,
        author: Option<&str>,
        date: i64,
        message: Option<&str>,
        parents: Vec<String>,
    ) -> (r: CommitDetails)
        ensures
            r.id@ == id@,
            r.author@ == text_or(author, UNKNOWN_AUTHOR),
            r.date == date,
            r.message@ == text_or(message, NO_MESSAGE),
            r.parents@ == parents@,
    {
        CommitDetails {
            id,
            author: owned_or(author, UNKNOWN_AUTHOR),
            date,
            message: owned_or(message, NO_MESSAGE),
            parents,
        }
    }
}

} // verus!
