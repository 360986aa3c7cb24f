use rust_git::errors::GitError;
use rust_git::refs::{
    create_branch, delete_branch, get_head_commit, list_branches, read_ref, resolve_ref_path,
    update_ref, RefStore,
};

const OID: &[u8] = b"abcdef0123456789abcdef0123456789abcdef01";

fn fresh_refs() -> RefStore {
    RefStore { entries: Vec::new(), head: b"ref: refs/heads/master".to_vec() }
}

#[test]
fn test_resolve_ref_path() {
    let refs = fresh_refs();
    assert_eq!(
        resolve_ref_path(&refs, b"refs/heads/master"),
        b"refs/heads/master".to_vec()
    );
    assert_eq!(resolve_ref_path(&refs, b"HEAD"), b"HEAD".to_vec());
    assert_eq!(
        resolve_ref_path(&refs, b"feature"),
        b"refs/heads/feature".to_vec()
    );
}

#[test]
fn test_resolve_prefers_existing_tag() {
    let mut refs = fresh_refs();
    update_ref(&mut refs, b"refs/tags/v1", OID);
    assert_eq!(resolve_ref_path(&refs, b"v1"), b"refs/tags/v1".to_vec());
}

#[test]
fn test_update_and_read_ref() {
    let mut refs = fresh_refs();
    update_ref(&mut refs, b"refs/heads/master", OID);
    assert_eq!(read_ref(&refs, b"refs/heads/master").unwrap(), OID.to_vec());
    assert_eq!(read_ref(&refs, b"master").unwrap(), OID.to_vec());
}

#[test]
fn test_get_head_commit_symbolic() {
    let mut refs = fresh_refs();
    update_ref(&mut refs, b"refs/heads/master", OID);
    assert_eq!(get_head_commit(&refs).unwrap(), OID.to_vec());
}

#[test]
fn test_get_head_commit_detached() {
    let mut refs = fresh_refs();
    refs.head = OID.to_vec();
    assert_eq!(get_head_commit(&refs).unwrap(), OID.to_vec());
}

#[test]
fn test_branch_operations() {
    let mut refs = fresh_refs();
    let branches = list_branches(&refs);
    assert_eq!(branches.len(), 0);
    create_branch(&mut refs, b"feature", OID);
    let branches = list_branches(&refs);
    assert_eq!(branches.len(), 1);
    assert_eq!(branches[0], b"feature".to_vec());
    delete_branch(&mut refs, b"feature").unwrap();
    let branches = list_branches(&refs);
    assert_eq!(branches.len(), 0);
}

#[test]
fn test_delete_missing_branch() {
    let mut refs = fresh_refs();
    assert_eq!(delete_branch(&mut refs, b"gone"), Err(GitError::UnknownBranch));
}

#[test]
fn test_read_missing_ref() {
    let refs = fresh_refs();
    assert_eq!(read_ref(&refs, b"refs/heads/nope"), Err(GitError::NotFound));
}

#[test]
fn test_branch_listing_sorted() {
    let mut refs = fresh_refs();
    create_branch(&mut refs, b"zeta", OID);
    create_branch(&mut refs, b"alpha", OID);
    create_branch(&mut refs, b"mid", OID);
    let branches = list_branches(&refs);
    assert_eq!(
        branches,
        vec![b"alpha".to_vec(), b"mid".to_vec(), b"zeta".to_vec()]
    );
}
