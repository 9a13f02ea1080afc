use git2::{Odb, Oid, Repository, Signature, Time};
use git_history_store::extract::extract_commit_details;

fn memory_repo() -> Repository {
    let repo = Repository::from_odb(Odb::new().unwrap()).unwrap();
    repo.odb().unwrap().add_new_mempack_backend(1000).unwrap();
    repo
}

fn make_commit(repo: &Repository, name: &str, secs: i64, message: &str, parents: &[Oid]) -> Oid {
    let sig = Signature::new(name, "dev@example.com", &Time::new(secs, 0)).unwrap();
    let tree_id = repo.treebuilder(None).unwrap().write().unwrap();
    let tree = repo.find_tree(tree_id).unwrap();
    let parent_commits: Vec<_> = parents.iter().map(|p| repo.find_commit(*p).unwrap()).collect();
    let refs: Vec<_> = parent_commits.iter().collect();
    repo.commit(None, &sig, &sig, message, &tree, &refs).unwrap()
}

#[test]
fn extracts_root_commit() {
    let repo = memory_repo();
    let a = make_commit(&repo, "Ada", 1_600_000_000, "first", &[]);
    let d = extract_commit_details(&repo.find_commit(a).unwrap());
    assert_eq!(d.id, a.to_string());
    assert_eq!(d.id.len(), 40);
    assert!(d.id.chars().all(|ch| ch.is_ascii_digit() || ('a'..='f').contains(&ch)));
    assert_eq!(d.author, "Ada");
    assert_eq!(d.date, 1_600_000_000);
    assert_eq!(d.message, "first");
    assert!(d.parents.is_empty());
}

#[test]
fn extracts_merge_parents_in_order() {
    let repo = memory_repo();
    let a = make_commit(&repo, "Ada", 100, "a", &[]);
    let b = make_commit(&repo, "Bob", 200, "b", &[a]);
    let m = make_commit(&repo, "Cy", 300, "merge", &[b, a]);
    let d = extract_commit_details(&repo.find_commit(m).unwrap());
    assert_eq!(d.id, m.to_string());
    assert_eq!(d.parents, vec![b.to_string(), a.to_string()]);
    assert_eq!(d.message, "merge");
    assert_eq!(d.author, "Cy");
    assert_eq!(d.date, 300);
}
