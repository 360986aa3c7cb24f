use rust_git::errors::GitError;
use rust_git::repo::Repository;
use rust_git::store::write_blob;
use rust_git::tree::TreeFile;

const AUTHOR: &[u8] = b"Test User <test@example.com>";
const TS: &[u8] = b"1700000000 +0000";

fn stage(repo: &mut Repository, path: &[u8], content: &[u8]) {
    let oid = write_blob(&mut repo.store, content);
    repo.index.add_file(path, 0, oid.as_slice());
}

#[test]
fn test_checkout_create_branch() {
    let mut repo = Repository::init(AUTHOR, TS);
    stage(&mut repo, b"a", b"1\n");
    let c1 = repo.commit(b"one", AUTHOR, TS).unwrap().unwrap();
    let working: Vec<TreeFile> = Vec::new();
    repo.checkout(b"feature", true, &working).unwrap();
    assert_eq!(repo.current_branch().unwrap(), b"feature".to_vec());
    assert_eq!(
        rust_git::refs::read_ref(&repo.refs, b"refs/heads/feature").unwrap(),
        c1
    );
}

#[test]
fn test_checkout_create_existing_branch_refused() {
    let mut repo = Repository::init(AUTHOR, TS);
    let working: Vec<TreeFile> = Vec::new();
    match repo.checkout(b"master", true, &working) {
        Err(e) => assert_eq!(e, GitError::BranchExists),
        Ok(_) => panic!("expected a refusal"),
    }
}

#[test]
fn test_checkout_unknown_branch_refused() {
    let mut repo = Repository::init(AUTHOR, TS);
    let working: Vec<TreeFile> = Vec::new();
    match repo.checkout(b"ghost", false, &working) {
        Err(e) => assert_eq!(e, GitError::UnknownBranch),
        Ok(_) => panic!("expected a refusal"),
    }
}

#[test]
fn test_checkout_plan_and_untracked_guard() {
    let mut repo = Repository::init(AUTHOR, TS);
    let root = rust_git::refs::get_head_commit(&repo.refs).unwrap();
    // master gains file `a`; `other` stays at the empty root commit
    rust_git::refs::create_branch(&mut repo.refs, b"other", root.as_slice());
    stage(&mut repo, b"a", b"1\n");
    repo.commit(b"add a", AUTHOR, TS).unwrap().unwrap();
    let a_oid = write_blob(&mut repo.store, b"1\n");

    // switch to `other`: the plan removes `a`, writes nothing
    let working: Vec<TreeFile> = Vec::new();
    let plan = repo.checkout(b"other", false, &working).unwrap();
    assert_eq!(plan.removals, vec![b"a".to_vec()]);
    assert!(plan.writes.is_empty());
    assert_eq!(repo.current_branch().unwrap(), b"other".to_vec());
    repo.index = rust_git::index::Index::new();

    // an untracked `a` with different content blocks the switch back
    let untracked_oid = write_blob(&mut repo.store, b"local edit\n");
    let working = vec![TreeFile { name: b"a".to_vec(), oid: untracked_oid }];
    match repo.checkout(b"master", false, &working) {
        Err(e) => assert_eq!(e, GitError::InvalidArgument),
        Ok(_) => panic!("expected a refusal"),
    }

    // an untracked `a` whose content matches the target is fine
    let working = vec![TreeFile { name: b"a".to_vec(), oid: a_oid.clone() }];
    let plan = repo.checkout(b"master", false, &working).unwrap();
    assert!(plan.removals.is_empty());
    assert_eq!(plan.writes.len(), 1);
    assert_eq!(plan.writes[0].name, b"a".to_vec());
    assert_eq!(plan.writes[0].oid, a_oid);
    // the index follows the target tree
    assert_eq!(repo.index.get_entries().len(), 1);
    assert_eq!(repo.index.get_entries()[0].path, b"a".to_vec());
}

#[test]
fn test_checkout_preserves_unrelated_staged_change() {
    // a staged change on a path the switch does not touch survives it
    let mut repo = Repository::init(AUTHOR, TS);
    stage(&mut repo, b"a", b"1\n");
    repo.commit(b"base", AUTHOR, TS).unwrap().unwrap();
    let working: Vec<TreeFile> = Vec::new();
    repo.checkout(b"side", true, &working).unwrap();
    // stage a new file, then switch back: the staged entry survives
    stage(&mut repo, b"new.txt", b"staged\n");
    repo.checkout(b"master", false, &working).unwrap();
    assert!(repo
        .index
        .get_entries()
        .iter()
        .any(|e| e.path == b"new.txt".to_vec()));
    assert!(repo.index.get_entries().iter().any(|e| e.path == b"a".to_vec()));
}

#[test]
fn test_checkout_drops_unstaged_removed_file() {
    // a file the target branch lacks, with no staged change, leaves
    // the index on switch
    let mut repo = Repository::init(AUTHOR, TS);
    let root = rust_git::refs::get_head_commit(&repo.refs).unwrap();
    rust_git::refs::create_branch(&mut repo.refs, b"empty", root.as_slice());
    stage(&mut repo, b"a", b"1\n");
    repo.commit(b"add a", AUTHOR, TS).unwrap().unwrap();
    let working: Vec<TreeFile> = Vec::new();
    repo.checkout(b"empty", false, &working).unwrap();
    assert!(repo.index.get_entries().iter().all(|e| e.path != b"a".to_vec()));
}
