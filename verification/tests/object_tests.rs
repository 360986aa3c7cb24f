use rust_git::codec::{frame, hash_object, parse_frame, ObjType};
use rust_git::commitobj::{parse_commit_parents, parse_commit_tree, write_commit};
use rust_git::errors::GitError;
use rust_git::store::{decode_loose, encode_loose, read_object, write_blob, write_object, ObjectStore};
use sha1::Digest;

#[test]
fn test_hash_object() {
    let data = b"test content";
    let hash = hash_object(data, ObjType::Blob);
    assert_eq!(hash.len(), 40);
    assert!(hash.iter().all(|c| c.is_ascii_hexdigit()));
    let hash2 = hash_object(data, ObjType::Blob);
    assert_eq!(hash, hash2);
    let hash3 = hash_object(b"different content", ObjType::Blob);
    assert_ne!(hash, hash3);
    let hash4 = hash_object(data, ObjType::Commit);
    assert_ne!(hash, hash4);
}

#[test]
fn test_hash_matches_sha1_of_frame() {
    // The id is exactly the SHA-1 of `TYPE SP LEN NUL PAYLOAD`,
    // recomputed here with the digest crate directly.
    let payload = b"some payload\x00with a NUL";
    let framed = frame(payload, ObjType::Blob);
    let mut expect_frame = b"blob 23\0".to_vec();
    expect_frame.extend_from_slice(payload);
    assert_eq!(framed, expect_frame);
    let mut hasher = sha1::Sha1::new();
    hasher.update(framed.as_slice());
    let expected = hex::encode(hasher.finalize());
    assert_eq!(hash_object(payload, ObjType::Blob), expected.into_bytes());
}

#[test]
fn test_parse_frame_round_trip() {
    let framed = frame(b"payload", ObjType::Tag);
    let (t, d) = parse_frame(framed.as_slice()).unwrap();
    assert_eq!(t, ObjType::Tag);
    assert_eq!(d, b"payload".to_vec());
    assert!(parse_frame(b"not a frame").is_none());
    // a non-canonical length is refused
    assert!(parse_frame(b"blob 07\0payload").is_none());
}

#[test]
fn test_write_and_read_blob() {
    let mut store = ObjectStore::new();
    let data = b"test content";
    let object_id = write_blob(&mut store, data);
    let (object_type, content) = read_object(&store, object_id.as_slice()).unwrap();
    assert_eq!(object_type, ObjType::Blob);
    assert_eq!(content, data.to_vec());
}

#[test]
fn test_read_missing_object() {
    let store = ObjectStore::new();
    assert_eq!(
        read_object(&store, b"4b825dc642cb6eb9a060e54bf8d69288fbee4904"),
        Err(GitError::NotFound)
    );
}

#[test]
fn test_loose_encode_decode_round_trip() {
    let enc = encode_loose(b"hello loose object", ObjType::Blob);
    let (t, d) = decode_loose(enc.as_slice()).unwrap();
    assert_eq!(t, ObjType::Blob);
    assert_eq!(d, b"hello loose object".to_vec());
    assert_eq!(decode_loose(b"junk"), Err(GitError::Corrupt));
}

#[test]
fn test_write_commit() {
    let mut store = ObjectStore::new();
    let tree_id = b"1234567890123456789012345678901234567890";
    let parent_id = b"abcdef0123456789abcdef0123456789abcdef01";
    let message = b"Test commit message";
    let author = b"Test User <test@example.com>";
    let parents = vec![parent_id.to_vec()];
    let commit_id = write_commit(
        &mut store,
        tree_id,
        &parents,
        message,
        author,
        b"1700000000 +0000",
    );
    let (object_type, content) = read_object(&store, commit_id.as_slice()).unwrap();
    assert_eq!(object_type, ObjType::Commit);
    assert_eq!(parse_commit_tree(content.as_slice()), Some(tree_id.to_vec()));
    assert_eq!(parse_commit_parents(content.as_slice()), vec![parent_id.to_vec()]);
    let text = String::from_utf8(content).unwrap();
    assert!(text.contains("Test commit message"));
    assert!(text.contains("Test User <test@example.com>"));
}

#[test]
fn test_object_dedup() {
    let mut store = ObjectStore::new();
    let a = write_object(&mut store, b"same", ObjType::Blob);
    let b = write_object(&mut store, b"same", ObjType::Blob);
    assert_eq!(a, b);
    assert_eq!(store.loose.len(), 1);
}
