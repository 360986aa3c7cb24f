use rust_git::bundle::{create_bundle, packed_refs_bytes, parse_packed_refs, unbundle};
use rust_git::errors::GitError;
use rust_git::pack::{create_pack, get_pack_header};
use rust_git::refs::RefEntry;
use rust_git::repo::Repository;
use rust_git::store::{read_object, write_blob};
use sha1::Digest;

const AUTHOR: &[u8] = b"Test User <test@example.com>";
const TS: &[u8] = b"1700000000 +0000";

fn stage(repo: &mut Repository, path: &[u8], content: &[u8]) {
    let oid = write_blob(&mut repo.store, content);
    repo.index.add_file(path, 0, oid.as_slice());
}

fn commit(repo: &mut Repository, msg: &[u8]) -> Vec<u8> {
    repo.commit(msg, AUTHOR, TS).unwrap().unwrap()
}

fn branch_oid(repo: &Repository, name: &[u8]) -> Vec<u8> {
    let mut full = b"refs/heads/".to_vec();
    full.extend_from_slice(name);
    rust_git::refs::read_ref(&repo.refs, full.as_slice()).unwrap()
}

#[test]
fn test_bundle_fetch_round_trip() {
    // every object of the sender lands in the receiver, and each
    // sender branch appears as a remote-tracking ref
    let mut r1 = Repository::init(AUTHOR, TS);
    stage(&mut r1, b"hello.txt", b"hi\n");
    let c1 = commit(&mut r1, b"work");

    let mut r2 = Repository::init(b"Other <o@example.com>", b"1700000001 +0000");
    let bundle = create_bundle(&r1.store, &r1.refs);
    unbundle(&mut r2.store, &mut r2.refs, &bundle, Some(&b"x".to_vec())).unwrap();

    for rec in &r1.store.loose {
        let (t, d) = read_object(&r2.store, rec.oid.as_slice()).unwrap();
        assert_eq!(t, rec.otype);
        assert_eq!(d, rec.data);
    }
    assert_eq!(
        rust_git::refs::read_ref(&r2.refs, b"refs/remotes/x/master").unwrap(),
        c1
    );
    assert_eq!(
        rust_git::refs::read_ref(&r2.refs, b"refs/remotes/x/HEAD").unwrap(),
        b"ref: refs/remotes/x/master".to_vec()
    );
}

#[test]
fn test_push_fast_forward() {
    // the sender is ahead of the receiver: the push advances the ref
    let mut r1 = Repository::init(AUTHOR, TS);
    let mut r2 = Repository::init(AUTHOR, TS);
    stage(&mut r1, b"hello.txt", b"hi\n");
    let c1 = commit(&mut r1, b"ahead");

    let bundle = create_bundle(&r1.store, &r1.refs);
    unbundle(&mut r2.store, &mut r2.refs, &bundle, None).unwrap();
    assert_eq!(branch_oid(&r2, b"master"), c1);
}

#[test]
fn test_non_fast_forward_push() {
    // both sides committed different work on top of the same root, so
    // the receiver's ref does not descend from the sender's: the push
    // is refused and the receiver keeps its state
    let mut r1 = Repository::init(AUTHOR, TS);
    let mut r2 = Repository::init(AUTHOR, TS);
    stage(&mut r1, b"a", b"sender\n");
    let _s1 = commit(&mut r1, b"sender work");
    stage(&mut r2, b"a", b"receiver\n");
    let r1_oid = commit(&mut r2, b"receiver work");

    let bundle = create_bundle(&r1.store, &r1.refs);
    let before_refs = r2.refs.entries.len();
    assert_eq!(
        unbundle(&mut r2.store, &mut r2.refs, &bundle, None),
        Err(GitError::NonFastForward)
    );
    assert_eq!(branch_oid(&r2, b"master"), r1_oid);
    assert_eq!(r2.refs.entries.len(), before_refs);
}

#[test]
fn test_push_same_oid_is_noop() {
    let r1 = Repository::init(AUTHOR, TS);
    let mut r2 = Repository::init(AUTHOR, TS);
    let m = branch_oid(&r1, b"master");
    let bundle = create_bundle(&r1.store, &r1.refs);
    unbundle(&mut r2.store, &mut r2.refs, &bundle, None).unwrap();
    assert_eq!(branch_oid(&r2, b"master"), m);
}

#[test]
fn test_packed_refs_round_trip() {
    let refs = vec![
        RefEntry {
            name: b"refs/heads/master".to_vec(),
            oid: b"abcdef0123456789abcdef0123456789abcdef01".to_vec(),
        },
        RefEntry {
            name: b"refs/heads/feat".to_vec(),
            oid: b"1234567890123456789012345678901234567890".to_vec(),
        },
    ];
    let text = packed_refs_bytes(&refs);
    assert_eq!(
        text,
        b"abcdef0123456789abcdef0123456789abcdef01 refs/heads/master\n1234567890123456789012345678901234567890 refs/heads/feat\n".to_vec()
    );
    let parsed = parse_packed_refs(text.as_slice());
    assert_eq!(parsed.len(), 2);
    assert_eq!(parsed[0].oid, refs[0].oid);
    assert_eq!(parsed[0].name, refs[0].name);
    assert_eq!(parsed[1].oid, refs[1].oid);
    assert_eq!(parsed[1].name, refs[1].name);
}

#[test]
fn test_pack_trailer_is_sha1_of_preceding_bytes() {
    let mut repo = Repository::init(AUTHOR, TS);
    stage(&mut repo, b"a", b"first\n");
    stage(&mut repo, b"b", b"second\n");
    commit(&mut repo, b"two files");
    let pack = create_pack(&repo.store.loose);
    assert!(pack.len() > 32);
    assert_eq!(&pack[0..4], b"PACK");
    assert_eq!(&pack[4..8], &[0, 0, 0, 2]);
    let body = &pack[..pack.len() - 20];
    let mut hasher = sha1::Sha1::new();
    hasher.update(body);
    let expect: Vec<u8> = hasher.finalize().to_vec();
    assert_eq!(&pack[pack.len() - 20..], expect.as_slice());
}

#[test]
fn test_pack_header_encoding() {
    // sizes below 16 fit in one byte: tag in bits 4..7
    assert_eq!(get_pack_header(rust_git::codec::ObjType::Blob, 5), vec![0x35]);
    // larger sizes continue seven bits at a time
    assert_eq!(
        get_pack_header(rust_git::codec::ObjType::Commit, 300),
        vec![0x80 | 0x10 | 0x0c, 0x12]
    );
}

#[test]
fn test_repack_keeps_objects_readable() {
    let mut repo = Repository::init(AUTHOR, TS);
    stage(&mut repo, b"a", b"payload\n");
    commit(&mut repo, b"one");
    let oids: Vec<Vec<u8>> = repo.store.loose.iter().map(|r| r.oid.clone()).collect();
    let pack = repo.repack();
    assert!(pack.len() > 12);
    assert_eq!(repo.store.loose.len(), 0);
    for oid in oids {
        assert!(read_object(&repo.store, oid.as_slice()).is_ok());
    }
}
