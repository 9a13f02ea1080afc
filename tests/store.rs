use git_history_store::ingest::{Ingestion, StoreFailure, StoreStep};
use git_history_store::record::CommitDetails;
use git_history_store::schema::{schema_statements, INSERT_COMMIT_DETAILS, INSERT_COMMIT_RELATION};
use rusqlite::{Connection, ErrorCode, Transaction};

fn failure(e: rusqlite::Error) -> StoreFailure {
    if e.sqlite_error_code() == Some(ErrorCode::ConstraintViolation) {
        StoreFailure::UniqueViolation(e.to_string())
    } else {
        StoreFailure::Other(e.to_string())
    }
}

fn fresh_store() -> Connection {
    let conn = Connection::open_in_memory().unwrap();
    for sql in schema_statements() {
        conn.execute(sql, ()).unwrap();
    }
    conn
}

fn run(conn: &Connection, commits: Vec<CommitDetails>) -> Result<(), StoreFailure> {
    let mut ingestion = Ingestion::new(commits);
    let mut tx: Option<Transaction> = None;
    let mut outcome: Result<(), StoreFailure> = Ok(());
    loop {
        match ingestion.next_step(outcome) {
            StoreStep::Begin => outcome = conn.unchecked_transaction().map(|t| tx = Some(t)).map_err(failure),
            StoreStep::InsertCommit(id, author, date, message) => {
                let t = tx.as_ref().unwrap();
                outcome = t.execute(INSERT_COMMIT_DETAILS, (id, author, date, message)).map(|_| ()).map_err(failure);
            }
            StoreStep::InsertRelation(parent, child) => {
                let t = tx.as_ref().unwrap();
                outcome = t.execute(INSERT_COMMIT_RELATION, (parent, child)).map(|_| ()).map_err(failure);
            }
            StoreStep::Commit => outcome = tx.take().unwrap().commit().map_err(failure),
            StoreStep::Finished => return Ok(()),
            StoreStep::Stopped(f) => return Err(f),
        }
    }
}

fn commit(id: &str, parents: &[&str]) -> CommitDetails {
    CommitDetails::from_parts(
        id.to_string(),
        Some("dev"),
        1_700_000_000,
        Some("msg"),
        parents.iter().map(|p| p.to_string()).collect(),
    )
}

fn ids(conn: &Connection) -> Vec<String> {
    let mut st = conn.prepare("SELECT id FROM commit_details ORDER BY id").unwrap();
    let rows = st.query_map((), |r| r.get::<_, String>(0)).unwrap();
    rows.map(|r| r.unwrap()).collect()
}

fn edges(conn: &Connection) -> Vec<(String, String)> {
    let mut st = conn.prepare("SELECT parent, child FROM commit_relation ORDER BY parent, child").unwrap();
    let rows = st.query_map((), |r| Ok((r.get::<_, String>(0)?, r.get::<_, String>(1)?))).unwrap();
    rows.map(|r| r.unwrap()).collect()
}

fn pair(p: &str, c: &str) -> (String, String) {
    (p.to_string(), c.to_string())
}

#[test]
fn linear_history_rows() {
    let conn = fresh_store();
    let history = vec![commit("C", &["B"]), commit("B", &["A"]), commit("A", &[])];
    assert!(run(&conn, history).is_ok());
    assert_eq!(ids(&conn), vec!["A", "B", "C"]);
    assert_eq!(edges(&conn), vec![pair("A", "B"), pair("B", "C")]);
}

#[test]
fn merge_history_rows() {
    let conn = fresh_store();
    let history = vec![commit("M", &["B", "A"]), commit("B", &["A"]), commit("A", &[])];
    assert!(run(&conn, history).is_ok());
    assert_eq!(ids(&conn), vec!["A", "B", "M"]);
    assert_eq!(edges(&conn), vec![pair("A", "B"), pair("A", "M"), pair("B", "M")]);
}

#[test]
fn relation_count_is_parent_total() {
    let conn = fresh_store();
    let history = vec![
        commit("E", &["D", "C", "B"]),
        commit("D", &["A"]),
        commit("C", &["A"]),
        commit("B", &["A"]),
        commit("A", &[]),
    ];
    assert!(run(&conn, history).is_ok());
    assert_eq!(edges(&conn).len(), 6);
    let root_as_child = edges(&conn).iter().filter(|e| e.1 == "A").count();
    let root_as_parent = edges(&conn).iter().filter(|e| e.0 == "A").count();
    assert_eq!(root_as_child, 0);
    assert_eq!(root_as_parent, 3);
}

#[test]
fn rerun_fails_on_first_commit() {
    let conn = fresh_store();
    let history = || vec![commit("C", &["B"]), commit("B", &["A"]), commit("A", &[])];
    assert!(run(&conn, history()).is_ok());
    match run(&conn, history()) {
        Err(StoreFailure::UniqueViolation(_)) => {}
        _ => panic!("a second run must hit the commit id key"),
    }
    assert_eq!(ids(&conn), vec!["A", "B", "C"]);
    assert_eq!(edges(&conn).len(), 2);
}

#[test]
fn failure_keeps_earlier_transactions() {
    let conn = fresh_store();
    assert!(run(&conn, vec![commit("B", &["A"])]).is_ok());
    let history = vec![commit("X", &["W"]), commit("B", &["Z"]), commit("Y", &["X"])];
    assert!(matches!(run(&conn, history), Err(StoreFailure::UniqueViolation(_))));
    assert_eq!(ids(&conn), vec!["B", "X"]);
    assert_eq!(edges(&conn), vec![pair("A", "B"), pair("W", "X")]);
}

#[test]
fn steps_of_one_merge_commit() {
    let mut ing = Ingestion::new(vec![commit("M", &["Left", "Right"])]);
    assert!(matches!(ing.next_step(Ok(())), StoreStep::Begin));
    match ing.next_step(Ok(())) {
        StoreStep::InsertCommit(id, author, date, message) => {
            assert_eq!((id.as_str(), author.as_str(), date, message.as_str()), ("M", "dev", 1_700_000_000, "msg"));
        }
        _ => panic!("expected the commit row"),
    }
    match ing.next_step(Ok(())) {
        StoreStep::InsertRelation(p, c) => assert_eq!((p.as_str(), c.as_str()), ("Left", "M")),
        _ => panic!("expected the first edge"),
    }
    match ing.next_step(Ok(())) {
        StoreStep::InsertRelation(p, c) => assert_eq!((p.as_str(), c.as_str()), ("Right", "M")),
        _ => panic!("expected the second edge"),
    }
    assert!(matches!(ing.next_step(Ok(())), StoreStep::Commit));
    assert!(!ing.is_over());
    assert!(matches!(ing.next_step(Ok(())), StoreStep::Finished));
    assert!(ing.is_over());
}

#[test]
fn failure_stops_the_run() {
    let mut ing = Ingestion::new(vec![commit("A", &[]), commit("B", &["A"])]);
    assert!(matches!(ing.next_step(Ok(())), StoreStep::Begin));
    assert!(matches!(ing.next_step(Ok(())), StoreStep::InsertCommit(..)));
    match ing.next_step(Err(StoreFailure::Other("disk".to_string()))) {
        StoreStep::Stopped(StoreFailure::Other(m)) => assert_eq!(m, "disk"),
        _ => panic!("a failure must stop the run"),
    }
    assert!(ing.is_over());
}

#[test]
fn empty_history_finishes_at_once() {
    let mut ing = Ingestion::new(vec![]);
    assert!(matches!(ing.next_step(Ok(())), StoreStep::Finished));
    assert!(ing.is_over());
}
