use rogit::database::{change, commit, contributor, relation, repository, Store};
use rogit::database::datetime::{get_time, TimeError};
use rogit::graph::{CommitNode, Delta, GraphError, RepoGraph, Status, Timestamp};
use rogit::update::{run, update_commit_all, update_commit_from, update_repository, RepoInput};

fn ts(seconds: i64) -> Timestamp {
    get_time(seconds, 0).unwrap()
}

fn node(hash: &str, tree: &str, parents: Vec<u64>, diffs: Vec<Vec<Delta>>) -> CommitNode {
    CommitNode {
        hash: hash.to_string(),
        tree: tree.to_string(),
        parents,
        diffs,
        committer_name: "alice".to_string(),
        committer_mail: "alice@example.org".to_string(),
        author_name: "alice".to_string(),
        author_mail: "alice@example.org".to_string(),
        message: format!("commit {}", hash),
        time: ts(1000),
        author_time: ts(900),
    }
}

fn delta(path: &str, status: Status) -> Delta {
    Delta { path: path.to_string(), status }
}

/// Root commit R and child C1 on one tip: first pass inserts 2 commits and
/// 1 relation with the edge's change rows; a second pass inserts nothing.
#[test]
fn scenario_root_and_child() {
    let mut g = RepoGraph::new();
    let r = g.push_commit(node("hr", "tr", vec![], vec![])).unwrap();
    let c1 = g
        .push_commit(node(
            "hc1",
            "tc1",
            vec![r],
            vec![vec![delta("a.txt", Status::Added), delta("b.txt", Status::Modified)]],
        ))
        .unwrap();
    let mut s = Store::new();
    let rid = update_repository(&mut s, &"repo".to_string(), &"d".to_string(), &"main".to_string());
    let count = update_commit_from(&mut s, &g, rid, c1).unwrap();
    assert_eq!(count, 2);
    assert_eq!(s.commits.len(), 2);
    assert_eq!(s.relations.len(), 1);
    // the tip C1 was inserted first, the root R behind it
    let c1_row = commit::get_id(&s, &"hc1".to_string(), rid).unwrap();
    let r_row = commit::get_id(&s, &"hr".to_string(), rid).unwrap();
    let rel = &s.relations[0];
    assert_eq!(rel.child, c1_row);
    assert_eq!(rel.parent, r_row);
    assert_eq!(rel.changes.len(), 2);
    assert_eq!(s.editfiles[rel.changes[0].file as usize], "a.txt");
    assert_eq!(rel.changes[0].mode, Status::Added);
    assert_eq!(s.editfiles[rel.changes[1].file as usize], "b.txt");
    assert_eq!(rel.changes[1].mode, Status::Modified);
    // second pass: zero new rows anywhere
    let count2 = update_commit_from(&mut s, &g, rid, c1).unwrap();
    assert_eq!(count2, 0);
    assert_eq!(s.commits.len(), 2);
    assert_eq!(s.relations.len(), 1);
    assert_eq!(s.messages.len(), 2);
    assert_eq!(s.contributors.len(), 1);
    assert_eq!(s.editfiles.len(), 2);
}

/// A second tip reaches R through a different child C2: R's commit row is
/// reused, one new relation (child C2, parent R) with its own diff appears,
/// and R's parents are not re-walked.
#[test]
fn scenario_second_tip_merges_back() {
    let mut g = RepoGraph::new();
    let r = g.push_commit(node("hr", "tr", vec![], vec![])).unwrap();
    let c1 = g
        .push_commit(node("hc1", "tc1", vec![r], vec![vec![delta("a.txt", Status::Added)]]))
        .unwrap();
    let c2 = g
        .push_commit(node("hc2", "tc2", vec![r], vec![vec![delta("c.txt", Status::Deleted)]]))
        .unwrap();
    let mut s = Store::new();
    let rid = update_repository(&mut s, &"repo".to_string(), &"d".to_string(), &"main".to_string());
    let first = update_commit_from(&mut s, &g, rid, c1).unwrap();
    assert_eq!(first, 2);
    let second = update_commit_from(&mut s, &g, rid, c2).unwrap();
    assert_eq!(second, 1);
    assert_eq!(s.commits.len(), 3);
    assert_eq!(s.relations.len(), 2);
    let r_row = commit::get_id(&s, &"hr".to_string(), rid).unwrap();
    let c2_row = commit::get_id(&s, &"hc2".to_string(), rid).unwrap();
    let rel = relation::get_id(&s, r_row, c2_row, rid).unwrap();
    let changes = &s.relations[rel as usize].changes;
    assert_eq!(changes.len(), 1);
    assert_eq!(s.editfiles[changes[0].file as usize], "c.txt");
    assert_eq!(changes[0].mode, Status::Deleted);
}

fn one_repo_input(name: &str) -> RepoInput {
    let mut g = RepoGraph::new();
    let r = g.push_commit(node("hr", "tr", vec![], vec![])).unwrap();
    let c1 = g
        .push_commit(node("hc1", "tc1", vec![r], vec![vec![delta("a.txt", Status::Added)]]))
        .unwrap();
    RepoInput {
        name: name.to_string(),
        show: "a description".to_string(),
        head: "main".to_string(),
        graph: g,
        tips: vec![c1],
    }
}

/// A repository present in an earlier pass but omitted from this one is
/// swept: its row is no longer live.
#[test]
fn scenario_omitted_repository_is_swept() {
    let mut s = Store::new();
    let pass1 = vec![one_repo_input("keep"), one_repo_input("drop")];
    run(&mut s, &pass1).unwrap();
    assert_eq!(s.repositories.len(), 2);
    assert!(s.repositories.iter().all(|r| r.alive));
    let pass2 = vec![one_repo_input("keep")];
    run(&mut s, &pass2).unwrap();
    assert!(repository::get_id(&s, &"keep".to_string()).is_some());
    assert!(repository::get_id(&s, &"drop".to_string()).is_none());
    let dropped = s.repositories.iter().find(|r| r.name == "drop").unwrap();
    assert!(!dropped.alive);
}

/// Running a whole pass twice on an unchanged repository set inserts zero
/// rows the second time and leaves every table as it was.
#[test]
fn pass_runs_idempotently() {
    let mut s = Store::new();
    let inputs = vec![one_repo_input("one"), one_repo_input("two")];
    run(&mut s, &inputs).unwrap();
    let commits = s.commits.len();
    let relations = s.relations.len();
    let messages = s.messages.len();
    let contributors = s.contributors.len();
    let files = s.editfiles.len();
    let repos = s.repositories.len();
    let flags: Vec<(bool, bool)> = s.repositories.iter().map(|r| (r.alive, r.stale)).collect();
    run(&mut s, &inputs).unwrap();
    assert_eq!(s.commits.len(), commits);
    assert_eq!(s.relations.len(), relations);
    assert_eq!(s.messages.len(), messages);
    assert_eq!(s.contributors.len(), contributors);
    assert_eq!(s.editfiles.len(), files);
    assert_eq!(s.repositories.len(), repos);
    let flags2: Vec<(bool, bool)> = s.repositories.iter().map(|r| (r.alive, r.stale)).collect();
    assert_eq!(flags, flags2);
}

/// A merge commit lists both parents; each edge gets its own relation and
/// its own diff, and shared ancestry is walked once.
#[test]
fn merge_commit_records_both_edges() {
    let mut g = RepoGraph::new();
    let r = g.push_commit(node("hr", "tr", vec![], vec![])).unwrap();
    let a = g
        .push_commit(node("ha", "ta", vec![r], vec![vec![delta("a.txt", Status::Added)]]))
        .unwrap();
    let b = g
        .push_commit(node("hb", "tb", vec![r], vec![vec![delta("b.txt", Status::Added)]]))
        .unwrap();
    let m = g
        .push_commit(node(
            "hm",
            "tm",
            vec![a, b],
            vec![
                vec![delta("b.txt", Status::Added)],
                vec![delta("a.txt", Status::Added)],
            ],
        ))
        .unwrap();
    let mut s = Store::new();
    let rid = update_repository(&mut s, &"repo".to_string(), &"d".to_string(), &"main".to_string());
    let count = update_commit_all(&mut s, &g, rid, &vec![m]).unwrap();
    assert_eq!(count, 4);
    assert_eq!(s.commits.len(), 4);
    assert_eq!(s.relations.len(), 4);
}

/// A tip that does not name a commit of the graph is a read failure and
/// changes nothing.
#[test]
fn unresolved_tip_aborts() {
    let g = RepoGraph::new();
    let mut s = Store::new();
    let rid = update_repository(&mut s, &"repo".to_string(), &"d".to_string(), &"main".to_string());
    let r = update_commit_from(&mut s, &g, rid, 0);
    assert!(r.is_err());
    assert_eq!(s.commits.len(), 0);
}

/// The upsert refreshes an existing repository row instead of inserting a
/// second one.
#[test]
fn repository_upsert_refreshes_in_place() {
    let mut s = Store::new();
    let first = update_repository(&mut s, &"repo".to_string(), &"old".to_string(), &"main".to_string());
    let second = update_repository(&mut s, &"repo".to_string(), &"new".to_string(), &"trunk".to_string());
    assert_eq!(first, second);
    assert_eq!(s.repositories.len(), 1);
    assert_eq!(s.repositories[0].show, "new");
    assert_eq!(s.repositories[0].head, "trunk");
}

/// Contributor identities are interned: the same (name, mail) pair always
/// yields the same id, a different mail a different one.
#[test]
fn contributor_identity_is_interned() {
    let mut s = Store::new();
    let a = contributor::get_id(&mut s, &"alice".to_string(), &"a@x".to_string());
    let b = contributor::get_id(&mut s, &"alice".to_string(), &"a@x".to_string());
    let c = contributor::get_id(&mut s, &"alice".to_string(), &"other@x".to_string());
    assert_eq!(a, b);
    assert_ne!(a, c);
    assert_eq!(s.contributors.len(), 2);
}

/// Paths are interned globally: one dictionary entry per distinct path.
#[test]
fn paths_are_interned() {
    let mut s = Store::new();
    let a = change::get_file(&mut s, &"src/a.rs".to_string());
    let b = change::get_file(&mut s, &"src/b.rs".to_string());
    let a2 = change::get_file(&mut s, &"src/a.rs".to_string());
    assert_eq!(a, a2);
    assert_ne!(a, b);
    assert_eq!(s.editfiles.len(), 2);
}

/// Each status classification keeps its fixed persisted code.
#[test]
fn status_codes_are_fixed() {
    assert_eq!(change::get_mode(Status::Unmodified), 0);
    assert_eq!(change::get_mode(Status::Added), 1);
    assert_eq!(change::get_mode(Status::Deleted), 2);
    assert_eq!(change::get_mode(Status::Modified), 3);
    assert_eq!(change::get_mode(Status::Renamed), 4);
    assert_eq!(change::get_mode(Status::Copied), 5);
    assert_eq!(change::get_mode(Status::Ignored), 6);
    assert_eq!(change::get_mode(Status::Untracked), 7);
    assert_eq!(change::get_mode(Status::Typechange), 8);
    assert_eq!(change::get_mode(Status::Unreadable), 9);
    assert_eq!(change::get_mode(Status::Conflicted), 10);
}

/// Raw commit times are validated against the representable ranges.
#[test]
fn time_ranges_are_checked() {
    assert_eq!(get_time(0, 0).unwrap(), Timestamp { seconds: 0, offset_minutes: 0 });
    assert_eq!(
        get_time(1_546_300_800, -330).unwrap(),
        Timestamp { seconds: 1_546_300_800, offset_minutes: -330 },
    );
    assert!(get_time(0, 1559).is_ok());
    assert!(get_time(0, -1559).is_ok());
    assert_eq!(get_time(0, 1560), Err(TimeError::OffsetRange));
    assert_eq!(get_time(0, -1560), Err(TimeError::OffsetRange));
    assert!(get_time(253_402_300_799, 0).is_ok());
    assert_eq!(get_time(253_402_300_800, 0), Err(TimeError::TimestampRange));
    assert!(get_time(-377_705_116_800, 0).is_ok());
    assert_eq!(get_time(-377_705_116_801, 0), Err(TimeError::TimestampRange));
}

/// A graph refuses nodes that would break its shape.
#[test]
fn graph_refuses_bad_nodes() {
    let mut g = RepoGraph::new();
    assert_eq!(
        g.push_commit(node("h0", "t0", vec![3], vec![vec![]])),
        Err(GraphError::MissingParent),
    );
    let r = g.push_commit(node("h0", "t0", vec![], vec![])).unwrap();
    assert_eq!(
        g.push_commit(node("h1", "t1", vec![r, r], vec![vec![], vec![]])),
        Err(GraphError::DuplicateParent),
    );
    assert_eq!(
        g.push_commit(node("h1", "t1", vec![r], vec![])),
        Err(GraphError::DiffArity),
    );
    assert_eq!(
        g.push_commit(node("h0", "t1", vec![r], vec![vec![]])),
        Err(GraphError::DuplicateHash),
    );
    assert_eq!(g.node_count(), 1);
}

/// Tree hashes are stored with each commit and can be read back both ways.
#[test]
fn tree_lookups() {
    let mut g = RepoGraph::new();
    let r = g.push_commit(node("hr", "treehash", vec![], vec![])).unwrap();
    let mut s = Store::new();
    let rid = update_repository(&mut s, &"repo".to_string(), &"d".to_string(), &"main".to_string());
    update_commit_from(&mut s, &g, rid, r).unwrap();
    let row = commit::get_id(&s, &"hr".to_string(), rid).unwrap();
    assert_eq!(commit::get_tree_by_id(&s, row, rid).unwrap(), "treehash");
    assert_eq!(commit::get_tree_by_hash(&s, &"hr".to_string(), rid).unwrap(), "treehash");
    assert!(commit::get_tree_by_id(&s, 99, rid).is_none());
}

/// Commit messages are stored with the author's identity and authored time,
/// the commit row with the committer's.
#[test]
fn message_and_contributor_rows() {
    let mut g = RepoGraph::new();
    let mut n = node("hr", "tr", vec![], vec![]);
    n.author_name = "bob".to_string();
    n.author_mail = "bob@x".to_string();
    n.author_time = ts(1234);
    g.push_commit(n).unwrap();
    let mut s = Store::new();
    let rid = update_repository(&mut s, &"repo".to_string(), &"d".to_string(), &"main".to_string());
    update_commit_from(&mut s, &g, rid, 0).unwrap();
    assert_eq!(s.commits.len(), 1);
    assert_eq!(s.messages.len(), 1);
    assert_eq!(s.contributors.len(), 2);
    let crow = &s.commits[0];
    assert_eq!(s.contributors[crow.c7r as usize].name, "alice");
    let msg = &s.messages[crow.msg as usize];
    assert_eq!(msg.msg, "commit hr");
    assert_eq!(msg.date.seconds, 1234);
    assert_eq!(s.contributors[msg.author as usize].name, "bob");
    assert_eq!(s.contributors[msg.author as usize].mail, "bob@x");
}
