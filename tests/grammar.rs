use branchdb::grammar::{command, Cmd};

fn parse(s: &str) -> Option<Cmd> {
    command(s.as_bytes())
}

fn as_new_branch(c: Option<Cmd>) -> (Vec<u8>, Vec<u8>, usize) {
    match c {
        Some(Cmd::NewBranch(n, r)) => (n, r.base, r.offset),
        _ => panic!("not a new branch command"),
    }
}

#[test]
fn new_branch_without_offset() {
    let (n, b, k) = as_new_branch(parse("new branch feature master"));
    assert_eq!(n, b"feature".to_vec());
    assert_eq!(b, b"master".to_vec());
    assert_eq!(k, 0);
}

#[test]
fn new_branch_with_offset() {
    let (n, b, k) = as_new_branch(parse("new branch old master~12"));
    assert_eq!(n, b"old".to_vec());
    assert_eq!(b, b"master".to_vec());
    assert_eq!(k, 12);
}

#[test]
fn new_branch_with_spaces_around_tilde() {
    let (_, b, k) = as_new_branch(parse("  new   branch x1  master  ~  3"));
    assert_eq!(b, b"master".to_vec());
    assert_eq!(k, 3);
}

#[test]
fn new_branch_offset_that_overflows_is_rejected() {
    assert!(parse("new branch x master~99999999999999999999999999").is_none());
}

#[test]
fn new_branch_largest_offset() {
    let line = format!("new branch x master~{}", usize::MAX);
    let (_, _, k) = as_new_branch(command(line.as_bytes()));
    assert_eq!(k, usize::MAX);
}

#[test]
fn new_branch_missing_tokens_is_rejected() {
    assert!(parse("new branch").is_none());
    assert!(parse("new branch x").is_none());
    assert!(parse("new branch x master~").is_none());
}

#[test]
fn trailing_content_is_rejected() {
    assert!(parse("new branch x master extra").is_none());
    assert!(parse("new branch x master~2x").is_none());
    assert!(parse("delete branch x y").is_none());
    assert!(parse("examine now").is_none());
    assert!(parse("new commit 'a' x y").is_none());
}

#[test]
fn names_must_be_alphanumeric() {
    assert!(parse("new branch my-branch master").is_none());
    assert!(parse("delete branch under_score").is_none());
}

#[test]
fn tabs_do_not_separate_tokens() {
    assert!(parse("new\tbranch x master").is_none());
}

#[test]
fn delete_branch_parses() {
    match parse("delete branch topic2") {
        Some(Cmd::DeleteBranch(n)) => assert_eq!(n, b"topic2".to_vec()),
        _ => panic!("not a delete command"),
    }
}

#[test]
fn new_commit_parses_payload_with_spaces() {
    match parse("new commit 'fix the bug, again' master") {
        Some(Cmd::NewCommit(p, b)) => {
            assert_eq!(p, b"fix the bug, again".to_vec());
            assert_eq!(b, b"master".to_vec());
        },
        _ => panic!("not a new commit command"),
    }
}

#[test]
fn new_commit_empty_payload() {
    match parse("new commit '' master") {
        Some(Cmd::NewCommit(p, _)) => assert!(p.is_empty()),
        _ => panic!("not a new commit command"),
    }
}

#[test]
fn new_commit_needs_space_after_payload() {
    assert!(parse("new commit 'a'master").is_none());
}

#[test]
fn new_commit_unterminated_quote_is_rejected() {
    assert!(parse("new commit 'abc master").is_none());
}

#[test]
fn examine_parses() {
    assert!(matches!(parse("examine"), Some(Cmd::Examine)));
    assert!(matches!(parse("   examine"), Some(Cmd::Examine)));
}

#[test]
fn empty_and_unknown_lines_are_rejected() {
    assert!(parse("").is_none());
    assert!(parse("merge branch x").is_none());
    assert!(parse("newbranch x master").is_none());
}
