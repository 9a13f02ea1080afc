//! Reading a `CommitDetails` out of a commit object of git2.
use crate::record::{text_or, CommitDetails, NO_MESSAGE, UNKNOWN_AUTHOR};
use vstd::prelude::*;

verus! {

#[verifier::external_type_specification]
#[verifier::external_body]
pub struct ExCommit<'repo>(git2::Commit<'repo>);

/// The commit's id as text.
pub uninterp spec fn id_text_of(c: &git2::Commit) -> Seq<char>;

/// The author's name, where it is valid UTF-8.
pub uninterp spec fn author_name_of(c: &git2::Commit) -> Option<Seq<char>>;

/// The commit time, in seconds since the epoch.
pub uninterp spec fn seconds_of(c: &git2::Commit) -> int;

/// The message, where it is valid UTF-8.
pub uninterp spec fn message_of(c: &git2::Commit) -> Option<Seq<char>>;

/// The ids of the commit's parents as text, in the order the commit lists them.
pub uninterp spec fn parent_ids_of(c: &git2::Commit) -> Seq<Seq<char>>;

/// Forty lowercase hexadecimal digits: the text of a SHA-1 object id.
pub open spec fn is_hex_id(s: Seq<char>) -> bool {
    &&& s.len() == 40
    &&& forall|k: int| 0 <= k < s.len() ==> {
        let ch = #[trigger] s[k];
        ('0' <= ch && ch <= '9') || ('a' <= ch && ch <= 'f')
    }
}

/// The text held by an optional string slice.
pub open spec fn str_text(v: Option<&str>) -> Option<Seq<char>> {
    match v {
        Some(s) => Some(s@),
        None => None,
    }
}

/// The text held by an optional string.
pub open spec fn string_text(v: Option<String>) -> Option<Seq<char>> {
    match v {
        Some(s) => Some(s@),
        None => None,
    }
}

/// Relies on git2's `Commit::message`: the message, or `None` where it is
/// not valid UTF-8.
pub assume_specification<'repo, 'c>[ git2::Commit::<'repo>::message ](c: &'c git2::Commit<'repo>) -> (r: Option<&'c str>)
    ensures
        str_text(r) == message_of(c),
;

/// Relies on git2's `Commit::parent_count`: the number of parents.
pub assume_specification<'repo>[ git2::Commit::<'repo>::parent_count ](c: &git2::Commit<'repo>) -> (r: usize)
    ensures
        r == parent_ids_of(c).len(),
;

/// Relies on git2's `Commit::id` and the `Display` impl of `Oid`: the id as
/// forty lowercase hexadecimal digits.
#[verifier::external_body]
fn commit_id_text(commit: &git2::Commit) -> (r: String)
    ensures
        r@ == id_text_of(commit),
        is_hex_id(r@),
{
    commit.id().to_string()
}

/// Relies on git2's `Commit::author` and `Signature::name`: the author's
/// name, or `None` where it is not valid UTF-8.
#[verifier::external_body]
fn author_name(commit: &git2::Commit) -> (r: Option<String>)
    ensures
        string_text(r) == author_name_of(commit),
{
    commit.author().name().map(String::from)
}

/// Relies on git2's `Commit::time` and `Time::seconds`: the commit time in
/// seconds since the epoch.
#[verifier::external_body]
fn commit_seconds(commit: &git2::Commit) -> (r: i64)
    ensures
        r as int == seconds_of(commit),
{
    commit.time().seconds()
}

/// Relies on git2's `Commit::parent_id` and the `Display` impl of `Oid`:
/// below the parent count, the id of that parent as forty lowercase
/// hexadecimal digits.
#[verifier::external_body]
fn parent_id_text(commit: &git2::Commit, i: usize) -> (r: Option<String>)
    ensures
        i < parent_ids_of(commit).len() ==> r is Some && r->Some_0@ == parent_ids_of(commit)[i as int]
            && is_hex_id(r->Some_0@),
{
    match commit.parent_id(i) {
        Ok(oid) => Some(oid.to_string()),
        Err(_) => None,
    }
}

/// Ids of the parents of `commit`, in the order the commit lists them.
fn parent_ids(commit: &git2::Commit) -> (r: Vec<String>)
    ensures
        r@.map_values(|p: String| p@) == parent_ids_of(commit),
        forall|k: int| 0 <= k < r@.len() ==> is_hex_id((#[trigger] r@[k])@),
{
    let n = commit.parent_count();
    let mut ids: Vec<String> = Vec::new();
    let mut i: usize = 0;
    while i < n
        invariant
            n == parent_ids_of(commit).len(),
            i <= n,
            ids@.map_values(|p: String| p@) == parent_ids_of(commit).take(i as int),
            forall|k: int| 0 <= k < ids@.len() ==> is_hex_id((#[trigger] ids@[k])@),
        decreases n - i,
    {
        let ghost before = ids@;
        assert(before.map_values(|p: String| p@).len() == before.len());
        assert(before.len() == i);
        match parent_id_text(commit, i) {
            Some(id) => ids.push(id),
            None => return ids,
        }
        proof {
            assert forall|k: int| 0 <= k < i implies ids@[k]@ == parent_ids_of(commit)[k] by {
                assert(ids@[k] == before[k]);
                assert(before.map_values(|p: String| p@)[k] == parent_ids_of(commit).take(i as int)[k]);
            }
        }
        i = i + 1;
        assert(ids@.map_values(|p: String| p@) =~= parent_ids_of(commit).take(i as int));
    }
    assert(parent_ids_of(commit).take(n as int) =~= parent_ids_of(commit));
    ids
}

/// The record of one commit: its id, author name, commit time, message and
/// parent ids, with `"Unknown"` for an author name and `"No message"` for a
/// message that is not valid UTF-8.
pub fn extract_commit_details(commit: &git2::Commit) -> (r: CommitDetails)
    ensures
        r.id@ == id_text_of(commit),
        is_hex_id(r.id@),
        r.author@ == match author_name_of(commit) {
            Some(a) => a,
            None => UNKNOWN_AUTHOR@,
        },
        r.date as int == seconds_of(commit),
        r.message@ == match message_of(commit) {
            Some(m) => m,
            None => NO_MESSAGE@,
        },
        r@.parents == parent_ids_of(commit),
        forall|k: int| 0 <= k < r.parents@.len() ==> is_hex_id((#[trigger] r.parents@[k])@),
{
    let id = commit_id_text(commit);
    let author = author_name(commit);
    let author_ref: Option<&str> = match &author {
        Some(a) => Some(a.as_str()),
        None => None,
    };
    let date = commit_seconds(commit);
    let message = commit.message();
    let r = CommitDetails::from_parts(id, author_ref, date, message, parent_ids(commit));
    assert(text_or(author_ref, UNKNOWN_AUTHOR) == match author_name_of(commit) {
        Some(a) => a,
        None => UNKNOWN_AUTHOR@,
    });
    r
}

} // verus!
