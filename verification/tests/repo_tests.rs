use rust_git::config::Config;
use rust_git::repo::{resolve_url, Repository};
use rust_git::store::read_object;

const AUTHOR: &[u8] = b"Test User <test@example.com>";
const TS: &[u8] = b"1700000000 +0000";

#[test]
fn test_init() {
    let repo = Repository::init(AUTHOR, TS);
    assert_eq!(repo.refs.head, b"ref: refs/heads/master".to_vec());
    assert_eq!(repo.current_branch().unwrap(), b"master".to_vec());
    assert!(repo.index.is_empty());
    // the master branch points at the root commit, and HEAD follows it
    let master = rust_git::refs::read_ref(&repo.refs, b"refs/heads/master").unwrap();
    assert_eq!(rust_git::refs::get_head_commit(&repo.refs).unwrap(), master);
}

#[test]
fn test_empty_tree_canon() {
    // a fresh repository holds the canonical empty tree
    let repo = Repository::init(AUTHOR, TS);
    let (t, d) = read_object(&repo.store, b"4b825dc642cb6eb9a060e54bf8d69288fbee4904").unwrap();
    assert_eq!(t, rust_git::codec::ObjType::Tree);
    assert_eq!(d, Vec::<u8>::new());
}

#[test]
fn test_first_commit_scenario() {
    let mut repo = Repository::init(AUTHOR, TS);
    let blob = rust_git::store::write_blob(&mut repo.store, b"hi\n");
    assert_eq!(blob, b"45b983be36b73c0788dc9cbcb76cbb80fc7bb057".to_vec());
    repo.index.add_file(b"hello.txt", 0, blob.as_slice());
    let oid = repo.commit(b"init", AUTHOR, TS).unwrap().unwrap();
    let master = rust_git::refs::read_ref(&repo.refs, b"refs/heads/master").unwrap();
    assert_eq!(master, oid);
    assert_eq!(rust_git::refs::get_head_commit(&repo.refs).unwrap(), oid);
}

#[test]
fn test_commit_nothing_to_commit() {
    let mut repo = Repository::init(AUTHOR, TS);
    // the index is empty, matching the root commit's empty tree
    assert_eq!(repo.commit(b"noop", AUTHOR, TS).unwrap(), None);
}

#[test]
fn test_commit_detached_head() {
    let mut repo = Repository::init(AUTHOR, TS);
    repo.refs.head = b"abcdef0123456789abcdef0123456789abcdef01".to_vec();
    assert_eq!(
        repo.commit(b"msg", AUTHOR, TS),
        Err(rust_git::errors::GitError::DetachedHead)
    );
    assert_eq!(
        repo.current_branch(),
        Err(rust_git::errors::GitError::DetachedHead)
    );
}

#[test]
fn test_config_parse_and_remote_url() {
    let text = b"[core]\n\tbare = false\n[remote \"origin\"]\n\turl = http://example.test/repo\n";
    let config = Config::parse(text);
    assert_eq!(
        config.get_remote_url(b"origin").unwrap(),
        b"http://example.test/repo".to_vec()
    );
    assert!(config.get_remote_url(b"absent").is_none());
}

#[test]
fn test_config_first_url_wins() {
    let text = b"[remote \"o\"]\nurl = first\nurl = second\n";
    let config = Config::parse(text);
    assert_eq!(config.get_remote_url(b"o").unwrap(), b"first".to_vec());
}

#[test]
fn test_resolve_url() {
    let mut repo = Repository::init(AUTHOR, TS);
    repo.config = Config::parse(b"[remote \"origin\"]\nurl = http://host/r\n");
    let (u, n) = resolve_url(&repo, b"origin").unwrap();
    assert_eq!(u, b"http://host/r".to_vec());
    assert_eq!(n, b"origin".to_vec());
    let (u2, n2) = resolve_url(&repo, b"https://direct/r").unwrap();
    assert_eq!(u2, b"https://direct/r".to_vec());
    assert_eq!(n2, b"https://direct/r".to_vec());
    assert_eq!(
        resolve_url(&repo, b"nowhere"),
        Err(rust_git::errors::GitError::NotFound)
    );
}

#[test]
fn test_get_head_and_index_files() {
    let mut repo = Repository::init(AUTHOR, TS);
    let blob = rust_git::store::write_blob(&mut repo.store, b"content\n");
    repo.index.add_file(b"file.txt", 0, blob.as_slice());
    repo.commit(b"one file", AUTHOR, TS).unwrap().unwrap();
    let head_files = repo.get_head_files();
    assert_eq!(head_files.len(), 1);
    assert_eq!(head_files[0].name, b"file.txt".to_vec());
    assert_eq!(head_files[0].oid, blob);
    let index_files = repo.get_index_files();
    assert_eq!(index_files.len(), 1);
    assert_eq!(index_files[0].name, b"file.txt".to_vec());
}

#[test]
fn test_remote_config_section_parses_back() {
    let section = rust_git::config::remote_config_section(b"origin", b"http://host/r");
    assert_eq!(
        section,
        b"\n[remote \"origin\"]\n\turl = http://host/r\n".to_vec()
    );
    let config = Config::parse(&section);
    assert_eq!(
        config.get_remote_url(b"origin").unwrap(),
        b"http://host/r".to_vec()
    );
}
