use git_history_store::record::{CommitDetails, NO_MESSAGE, UNKNOWN_AUTHOR};
use git_history_store::schema::{
    schema_statements, CREATE_COMMIT_DETAILS, CREATE_COMMIT_RELATION, CREATE_REF_DETAILS,
};
use git_history_store::ingest::{window_bounds, WINDOW_SIZE};

#[test]
fn missing_author_and_message_fall_back() {
    let c = CommitDetails::from_parts("a".repeat(40), None, 7, None, vec![]);
    assert_eq!(c.author, "Unknown");
    assert_eq!(c.message, "No message");
    assert_eq!(UNKNOWN_AUTHOR, "Unknown");
    assert_eq!(NO_MESSAGE, "No message");
    assert_eq!(c.date, 7);
    assert!(c.parents.is_empty());
}

#[test]
fn present_author_and_message_are_kept() {
    let parents = vec!["b".repeat(40), "c".repeat(40)];
    let c = CommitDetails::from_parts("a".repeat(40), Some("Ada"), -5, Some("fix\n"), parents.clone());
    assert_eq!(c.id, "a".repeat(40));
    assert_eq!(c.author, "Ada");
    assert_eq!(c.date, -5);
    assert_eq!(c.message, "fix\n");
    assert_eq!(c.parents, parents);
}

#[test]
fn empty_author_is_not_replaced() {
    let c = CommitDetails::from_parts("d".repeat(40), Some(""), 0, Some(""), vec![]);
    assert_eq!(c.author, "");
    assert_eq!(c.message, "");
}

#[test]
fn schema_creates_three_tables_in_order() {
    let s = schema_statements();
    assert_eq!(s, vec![CREATE_COMMIT_DETAILS, CREATE_COMMIT_RELATION, CREATE_REF_DETAILS]);
    assert!(s[0].contains("commit_details"));
    assert!(s[1].contains("commit_relation"));
    assert!(s[2].contains("ref_details"));
}

#[test]
fn windows_of_fifty() {
    assert_eq!(WINDOW_SIZE, 50);
    assert_eq!(window_bounds(120, WINDOW_SIZE), vec![(0, 50), (50, 100), (100, 120)]);
    assert_eq!(window_bounds(100, WINDOW_SIZE), vec![(0, 50), (50, 100)]);
    assert_eq!(window_bounds(1, WINDOW_SIZE), vec![(0, 1)]);
}

#[test]
fn no_records_no_windows() {
    assert!(window_bounds(0, WINDOW_SIZE).is_empty());
}
