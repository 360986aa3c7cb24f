use rust_git::ancestry::{find_merge_base, is_ancestor};
use rust_git::commitobj::parse_commit_parents;
use rust_git::mergeeng::{conflict_ranges, get_files_from_commit};
use rust_git::repo::{MergeOutcome, Repository};
use rust_git::store::{read_object, write_blob};

const AUTHOR: &[u8] = b"Test User <test@example.com>";
const TS: &[u8] = b"1700000000 +0000";

fn stage(repo: &mut Repository, path: &[u8], content: &[u8]) {
    let oid = write_blob(&mut repo.store, content);
    repo.index.add_file(path, 0, oid.as_slice());
}

fn commit(repo: &mut Repository, msg: &[u8]) -> Vec<u8> {
    repo.commit(msg, AUTHOR, TS).unwrap().unwrap()
}

fn branch_oid(repo: &Repository, name: &[u8]) -> Vec<u8> {
    let mut full = b"refs/heads/".to_vec();
    full.extend_from_slice(name);
    rust_git::refs::read_ref(&repo.refs, full.as_slice()).unwrap()
}

fn switch(repo: &mut Repository, name: &[u8], files: &[(&[u8], &[u8])]) {
    let mut head = b"ref: refs/heads/".to_vec();
    head.extend_from_slice(name);
    repo.refs.head = head;
    repo.index = rust_git::index::Index::new();
    for (p, c) in files {
        stage(repo, p, c);
    }
}

#[test]
fn test_merge_without_conflict() {
    let mut repo = Repository::init(AUTHOR, TS);
    stage(&mut repo, b"a", b"1\n");
    let c0 = commit(&mut repo, b"c0");
    rust_git::refs::create_branch(&mut repo.refs, b"feat", c0.as_slice());

    // on master: add b
    stage(&mut repo, b"b", b"2\n");
    let c1 = commit(&mut repo, b"c1");

    // on feat: add c
    switch(&mut repo, b"feat", &[(b"a", b"1\n"), (b"c", b"3\n")]);
    let c2 = commit(&mut repo, b"c2");

    // back on master, merge feat
    switch(&mut repo, b"master", &[(b"a", b"1\n"), (b"b", b"2\n")]);
    let outcome = repo.merge(b"feat", AUTHOR, TS).unwrap();
    match outcome {
        MergeOutcome::Merged { commit, writes, .. } => {
            let (_, payload) = read_object(&repo.store, commit.as_slice()).unwrap();
            let parents = parse_commit_parents(payload.as_slice());
            assert_eq!(parents, vec![c1.clone(), c2.clone()]);
            let mut names: Vec<Vec<u8>> = writes.iter().map(|f| f.name.clone()).collect();
            names.sort();
            assert_eq!(names, vec![b"a".to_vec(), b"b".to_vec(), b"c".to_vec()]);
            assert_eq!(branch_oid(&repo, b"master"), commit);
            let merged_files = get_files_from_commit(&repo.store, commit.as_slice()).unwrap();
            assert_eq!(merged_files.len(), 3);
        },
        _ => panic!("expected a clean merge"),
    }
}

#[test]
fn test_merge_with_edit_edit_conflict() {
    let mut repo = Repository::init(AUTHOR, TS);
    stage(&mut repo, b"a", b"x\n");
    let c0 = commit(&mut repo, b"c0");
    rust_git::refs::create_branch(&mut repo.refs, b"feat", c0.as_slice());

    stage(&mut repo, b"a", b"y\n");
    let c1 = commit(&mut repo, b"master edit");

    switch(&mut repo, b"feat", &[(b"a", b"z\n")]);
    let _c2 = commit(&mut repo, b"feat edit");

    switch(&mut repo, b"master", &[(b"a", b"y\n")]);
    let outcome = repo.merge(b"feat", AUTHOR, TS).unwrap();
    match outcome {
        MergeOutcome::Conflicts { reports } => {
            assert_eq!(reports.len(), 1);
            assert_eq!(reports[0].path, b"a".to_vec());
            assert_eq!(reports[0].ranges, vec![(1, 1)]);
        },
        _ => panic!("expected a conflict"),
    }
    // master is unchanged
    assert_eq!(branch_oid(&repo, b"master"), c1);
}

#[test]
fn test_merge_already_up_to_date() {
    let mut repo = Repository::init(AUTHOR, TS);
    let c0 = branch_oid(&repo, b"master");
    rust_git::refs::create_branch(&mut repo.refs, b"same", c0.as_slice());
    match repo.merge(b"same", AUTHOR, TS).unwrap() {
        MergeOutcome::AlreadyUpToDate => {},
        _ => panic!("expected up to date"),
    }
    match repo.merge(b"master", AUTHOR, TS).unwrap() {
        MergeOutcome::AlreadyUpToDate => {},
        _ => panic!("expected up to date"),
    }
}

#[test]
fn test_merge_unknown_branch() {
    let mut repo = Repository::init(AUTHOR, TS);
    match repo.merge(b"ghost", AUTHOR, TS) {
        Err(e) => assert_eq!(e, rust_git::errors::GitError::UnknownBranch),
        Ok(_) => panic!("expected an unknown-branch error"),
    }
}

#[test]
fn test_is_ancestor_reflexive_and_parent() {
    let mut repo = Repository::init(AUTHOR, TS);
    let c0 = branch_oid(&repo, b"master");
    stage(&mut repo, b"a", b"1\n");
    let c1 = commit(&mut repo, b"first");
    stage(&mut repo, b"b", b"2\n");
    let c2 = commit(&mut repo, b"second");

    assert!(is_ancestor(&repo.store, c2.as_slice(), c2.as_slice()));
    assert!(is_ancestor(&repo.store, c1.as_slice(), c2.as_slice()));
    assert!(is_ancestor(&repo.store, c0.as_slice(), c2.as_slice()));
    assert!(!is_ancestor(&repo.store, c2.as_slice(), c0.as_slice()));
    assert!(!is_ancestor(&repo.store, c1.as_slice(), c0.as_slice()));
}

#[test]
fn test_find_merge_base() {
    let mut repo = Repository::init(AUTHOR, TS);
    stage(&mut repo, b"a", b"1\n");
    let c0 = commit(&mut repo, b"c0");
    rust_git::refs::create_branch(&mut repo.refs, b"feat", c0.as_slice());
    stage(&mut repo, b"b", b"2\n");
    let c1 = commit(&mut repo, b"c1");
    switch(&mut repo, b"feat", &[(b"a", b"1\n"), (b"c", b"3\n")]);
    let c2 = commit(&mut repo, b"c2");

    let base = find_merge_base(&repo.store, c1.as_slice(), c2.as_slice()).unwrap();
    assert!(is_ancestor(&repo.store, base.as_slice(), c1.as_slice()));
    assert!(is_ancestor(&repo.store, base.as_slice(), c2.as_slice()));
    assert_eq!(base, c0);

    let disjoint = find_merge_base(
        &repo.store,
        c1.as_slice(),
        b"0000000000000000000000000000000000000000",
    );
    assert!(disjoint.is_none());
}

#[test]
fn test_conflict_ranges_runs() {
    assert_eq!(conflict_ranges(b"x\n", b"y\n"), vec![(1, 1)]);
    assert_eq!(
        conflict_ranges(b"same\na\nb\nsame\n", b"same\nc\nd\nsame\n"),
        vec![(2, 3)]
    );
    assert_eq!(conflict_ranges(b"same\n", b"same\n"), Vec::<(usize, usize)>::new());
    assert_eq!(conflict_ranges(b"a\nb\n", b"a\n"), vec![(2, 2)]);
}

#[test]
fn test_write_tree_stable() {
    // the same staged content always produces the same root tree id
    let mut repo1 = Repository::init(AUTHOR, TS);
    stage(&mut repo1, b"f1", b"one\n");
    stage(&mut repo1, b"f2", b"two\n");
    let t1 = rust_git::tree::write_tree(&mut repo1.store, &repo1.index);

    let mut repo2 = Repository::init(AUTHOR, TS);
    stage(&mut repo2, b"f2", b"two\n");
    stage(&mut repo2, b"f1", b"one\n");
    let t2 = rust_git::tree::write_tree(&mut repo2.store, &repo2.index);
    assert_eq!(t1, t2);

    let t1_again = rust_git::tree::write_tree(&mut repo1.store, &repo1.index);
    assert_eq!(t1, t1_again);
}
