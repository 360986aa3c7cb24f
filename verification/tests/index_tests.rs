use rust_git::index::Index;

const OID_A: &[u8] = b"abcdef0123456789abcdef0123456789abcdef01";

#[test]
fn test_index_new() {
    let index = Index::new();
    assert!(index.is_empty());
    assert_eq!(index.get_entries().len(), 0);
}

#[test]
fn test_index_load_nonexistent() {
    // A missing index file hands the loader no bytes at all.
    let index = Index::load(&[]).unwrap();
    assert!(index.is_empty());
}

#[test]
fn test_index_save_load() {
    let index = Index::new();
    let bytes = index.save();
    let loaded_index = Index::load(bytes.as_slice()).unwrap();
    assert!(loaded_index.is_empty());
}

#[test]
fn test_add_file() {
    let mut index = Index::new();
    index.add_file(b"test.txt", 7, OID_A);
    assert!(!index.is_empty());
    assert_eq!(index.get_entries().len(), 1);
    assert_eq!(index.get_entries()[0].path, b"test.txt".to_vec());
    assert_eq!(index.get_entries()[0].object_id, OID_A.to_vec());
    assert_eq!(index.get_entries()[0].mode, 0o100644);
}

#[test]
fn test_remove_file() {
    let mut index = Index::new();
    index.add_file(b"test.txt", 7, OID_A);
    assert!(!index.is_empty());
    let removed = index.remove_path(b"test.txt");
    assert!(index.is_empty());
    assert_eq!(removed.len(), 1);
    assert_eq!(removed[0], b"test.txt".to_vec());
}

#[test]
fn test_add_and_remove_directory() {
    let mut index = Index::new();
    index.add_file(b"subdir/file1.txt", 0, OID_A);
    index.add_file(b"subdir/file2.txt", 0, OID_A);
    assert!(!index.is_empty());
    assert_eq!(index.get_entries().len(), 2);
    let removed = index.remove_path(b"subdir");
    assert!(index.is_empty());
    assert_eq!(removed.len(), 2);
}

#[test]
fn test_add_file_overwrites() {
    let mut index = Index::new();
    index.add_file(b"a.txt", 1, OID_A);
    index.add_file(b"a.txt", 2, b"56a6051ca2b02b04ef92d5150c9ef600403cb1de");
    assert_eq!(index.get_entries().len(), 1);
    assert_eq!(
        index.get_entries()[0].object_id,
        b"56a6051ca2b02b04ef92d5150c9ef600403cb1de".to_vec()
    );
    assert_eq!(index.get_entries()[0].mtime, 2);
}

#[test]
fn test_entries_sorted_by_path() {
    let mut index = Index::new();
    index.add_file(b"b", 0, OID_A);
    index.add_file(b"a", 0, OID_A);
    index.add_file(b"c", 0, OID_A);
    let paths: Vec<Vec<u8>> = index.get_entries().iter().map(|e| e.path.clone()).collect();
    assert_eq!(paths, vec![b"a".to_vec(), b"b".to_vec(), b"c".to_vec()]);
}

#[test]
fn test_index_round_trip_scenario() {
    // Stage `a` = "1" and `b/c` = "2"; save and reload; the two
    // entries come back exactly, with the SHA-1-derived blob ids.
    let mut store = rust_git::store::ObjectStore::new();
    let oid_a = rust_git::store::write_blob(&mut store, b"1");
    let oid_bc = rust_git::store::write_blob(&mut store, b"2");
    assert_eq!(oid_a, b"56a6051ca2b02b04ef92d5150c9ef600403cb1de".to_vec());
    assert_eq!(oid_bc, b"d8263ee9860594d2806b0dfd1bfd17528b0ba2a4".to_vec());

    let mut index = Index::new();
    index.add_file(b"a", 11, oid_a.as_slice());
    index.add_file(b"b/c", 22, oid_bc.as_slice());
    let bytes = index.save();
    let loaded = Index::load(bytes.as_slice()).unwrap();
    assert_eq!(loaded.get_entries().len(), 2);
    assert_eq!(loaded.get_entries()[0].path, b"a".to_vec());
    assert_eq!(loaded.get_entries()[0].object_id, oid_a);
    assert_eq!(loaded.get_entries()[0].mtime, 11);
    assert_eq!(loaded.get_entries()[1].path, b"b/c".to_vec());
    assert_eq!(loaded.get_entries()[1].object_id, oid_bc);
    assert_eq!(loaded.get_entries()[1].mtime, 22);
}

#[test]
fn test_load_rejects_garbage() {
    assert!(Index::load(b"\x01\x02\x03").is_err());
}

#[test]
fn test_normalize_path() {
    assert_eq!(rust_git::index::normalize_path(b"./a/b"), b"a/b".to_vec());
    assert_eq!(rust_git::index::normalize_path(b"a/b"), b"a/b".to_vec());
}
