use branchdb::grammar::{Cmd, CommitReference};
use branchdb::interpreter::{execute_cmd, message, render, run_line};
use branchdb::store::{Database, DatabaseError, Event};

fn lines(out: Vec<Vec<u8>>) -> Vec<String> {
    out.into_iter().map(|l| String::from_utf8(l).unwrap()).collect()
}

fn run(db: &mut Database, line: &str) -> Vec<String> {
    lines(run_line(db, line.as_bytes()))
}

fn listing(db: &mut Database) -> Vec<String> {
    run(db, "examine")
}

fn seeded(root: &str) -> Database {
    Database::new(root.as_bytes().to_vec())
}

#[test]
fn seeding_announces_master() {
    let db = seeded("root");
    assert_eq!(String::from_utf8(render(&db.root_event())).unwrap(), "master -> 'root'");
}

#[test]
fn examine_lists_history() {
    let mut db = seeded("root");
    run(&mut db, "new commit 'c1' master");
    assert_eq!(listing(&mut db), vec!["master: 'c1' 'root'".to_string()]);
}

#[test]
fn new_branch_at_offset_zero_is_same_commit() {
    let mut db = seeded("root");
    run(&mut db, "new commit 'c1' master");
    assert_eq!(run(&mut db, "new branch copy master"), vec!["copy -> 'c1'".to_string()]);
    let l = listing(&mut db);
    assert!(l.contains(&"copy: 'c1' 'root'".to_string()));
    assert!(l.contains(&"master: 'c1' 'root'".to_string()));
}

#[test]
fn branch_back_over_chained_commits() {
    let mut db = seeded("root");
    for k in 0..4 {
        run(&mut db, &format!("new commit 'c{}' master", k));
    }
    assert_eq!(run(&mut db, "new branch back master~4"), vec!["back -> 'root'".to_string()]);
    assert_eq!(run(&mut db, "new branch mid master~2"), vec!["mid -> 'c1'".to_string()]);
}

#[test]
fn too_deep_fails_with_requested_offset() {
    let mut db = seeded("root");
    run(&mut db, "new commit 'c1' master");
    let before = listing(&mut db);
    let c = Cmd::NewBranch(
        b"x".to_vec(),
        CommitReference { base: b"master".to_vec(), offset: 5 },
    );
    match execute_cmd(&mut db, &c) {
        Err(DatabaseError::CommitNotDeepEnough(n, k)) => {
            assert_eq!(n, b"master".to_vec());
            assert_eq!(k, 5);
        },
        _ => panic!("expected an offset error"),
    }
    assert_eq!(run(&mut db, "new branch x master~2"), vec!["Error".to_string()]);
    assert_eq!(listing(&mut db), before);
}

#[test]
fn unknown_branch_fails_for_every_command() {
    let mut db = seeded("root");
    let before = listing(&mut db);
    for c in [
        Cmd::NewBranch(b"x".to_vec(), CommitReference { base: b"nope".to_vec(), offset: 0 }),
        Cmd::NewCommit(b"a".to_vec(), b"nope".to_vec()),
        Cmd::DeleteBranch(b"nope".to_vec()),
    ] {
        match execute_cmd(&mut db, &c) {
            Err(DatabaseError::BranchDoesntExist(n)) => assert_eq!(n, b"nope".to_vec()),
            _ => panic!("expected a missing branch error"),
        }
    }
    assert_eq!(listing(&mut db), before);
}

#[test]
fn deleted_branch_is_unknown() {
    let mut db = seeded("root");
    run(&mut db, "new branch x master");
    assert_eq!(run(&mut db, "delete branch x"), vec!["x deleted".to_string()]);
    assert_eq!(run(&mut db, "delete branch x"), vec!["Error".to_string()]);
    assert_eq!(run(&mut db, "new commit 'a' x"), vec!["Error".to_string()]);
}

#[test]
fn delete_cascades_up_orphaned_history() {
    let mut db = seeded("root");
    run(&mut db, "new branch side master");
    run(&mut db, "new commit 's1' side");
    run(&mut db, "new commit 's2' side");
    assert_eq!(
        run(&mut db, "delete branch side"),
        vec!["side deleted".to_string(), "'s2' deleted".to_string(), "'s1' deleted".to_string()]
    );
    assert_eq!(listing(&mut db), vec!["master: 'root'".to_string()]);
}

#[test]
fn delete_reports_events_in_order() {
    let mut db = seeded("root");
    run(&mut db, "new branch x master");
    run(&mut db, "new commit 'a' x");
    match execute_cmd(&mut db, &Cmd::DeleteBranch(b"x".to_vec())) {
        Ok(evs) => {
            assert_eq!(evs.len(), 2);
            assert!(matches!(&evs[0], Event::BranchDeleted { name } if name == b"x"));
            assert!(matches!(&evs[1], Event::CommitDestroyed { payload, .. } if payload == b"a"));
        },
        Err(_) => panic!("delete should succeed"),
    }
}

#[test]
fn rebinding_spares_commits_other_branches_reach() {
    let mut db = seeded("root");
    run(&mut db, "new commit 'c1' master");
    run(&mut db, "new branch keep master");
    assert_eq!(run(&mut db, "new commit 'c2' master"), vec!["master -> 'c2'".to_string()]);
    assert_eq!(run(&mut db, "new branch master keep~1"), vec!["master -> 'root'".to_string(), "'c2' deleted".to_string()]);
    assert!(listing(&mut db).contains(&"keep: 'c1' 'root'".to_string()));
}

#[test]
fn rebinding_to_self_destroys_nothing() {
    let mut db = seeded("root");
    run(&mut db, "new commit 'c1' master");
    assert_eq!(run(&mut db, "new branch master master"), vec!["master -> 'c1'".to_string()]);
}

#[test]
fn round_trip_destroys_only_new_commit() {
    let mut db = seeded("root");
    assert_eq!(run(&mut db, "new branch X master"), vec!["X -> 'root'".to_string()]);
    assert_eq!(run(&mut db, "new commit 'a' X"), vec!["X -> 'a'".to_string()]);
    assert_eq!(
        run(&mut db, "delete branch X"),
        vec!["X deleted".to_string(), "'a' deleted".to_string()]
    );
    assert_eq!(listing(&mut db), vec!["master: 'root'".to_string()]);
}

#[test]
fn scenario_commit_branch_back_and_delete_both() {
    let mut db = seeded("root");
    assert_eq!(run(&mut db, "new commit 'c1' master"), vec!["master -> 'c1'".to_string()]);
    assert_eq!(run(&mut db, "new branch old master~1"), vec!["old -> 'root'".to_string()]);
    assert_eq!(
        run(&mut db, "delete branch master"),
        vec!["master deleted".to_string(), "'c1' deleted".to_string()]
    );
    assert_eq!(
        run(&mut db, "delete branch old"),
        vec!["old deleted".to_string(), "'root' deleted".to_string()]
    );
    assert!(listing(&mut db).is_empty());
}

#[test]
fn malformed_line_leaves_table_unchanged() {
    let mut db = seeded("root");
    run(&mut db, "new commit 'c1' master");
    let before = listing(&mut db);
    assert_eq!(run(&mut db, "new branch"), vec!["Error".to_string()]);
    assert_eq!(listing(&mut db), before);
}

#[test]
fn render_each_event() {
    let b = Event::Bound { name: b"m".to_vec(), payload: b"p q".to_vec() };
    assert_eq!(render(&b), b"m -> 'p q'".to_vec());
    let d = Event::BranchDeleted { name: b"m".to_vec() };
    assert_eq!(render(&d), b"m deleted".to_vec());
    let c = Event::CommitDestroyed { id: 3, payload: b"x".to_vec() };
    assert_eq!(render(&c), b"'x' deleted".to_vec());
    let l = Event::Listing { name: b"m".to_vec(), history: vec![b"b".to_vec(), b"a".to_vec()] };
    assert_eq!(render(&l), b"m: 'b' 'a'".to_vec());
}

#[test]
fn error_messages() {
    let m = |e: DatabaseError| String::from_utf8(message(&e)).unwrap();
    assert_eq!(m(DatabaseError::BranchDoesntExist(b"x".to_vec())), "Branch ``x'' doesn't exist");
    assert_eq!(
        m(DatabaseError::CommitNotDeepEnough(b"m".to_vec(), 1)),
        "Branch ``m'' does not go back 1 commit"
    );
    assert_eq!(
        m(DatabaseError::CommitNotDeepEnough(b"m".to_vec(), 12)),
        "Branch ``m'' does not go back 12 commits"
    );
    assert_eq!(
        m(DatabaseError::CommitNotDeepEnough(b"m".to_vec(), 0)),
        "Branch ``m'' does not go back 0 commits"
    );
}
