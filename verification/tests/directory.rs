use dvcs::directory::{BlobRef, Directory};
use dvcs::serializer::{decode_directory, encode_directory};
use sha256::digest;

#[test]
fn serialize_blob_test() {
    let blob = BlobRef::new(dvcs::hash::Hash::new("test-hash"));
    let mut dir = Directory::new();
    dir.insert_file_ref("test-blob", blob.clone());

    let serialized = encode_directory(&dir);
    println!("Serialized: {}", String::from_utf8(serialized.clone()).unwrap());

    let deserialized = decode_directory(&serialized).unwrap();
    println!("Deserialized: {:?}", deserialized);
    assert_eq!(deserialized.get_file_ref("test-blob"), Some(&blob));
}

#[test]
fn directory_serialize_deserialize_test() {
    let mut directory = Directory::new();

    let file_ref1 = BlobRef::new(dvcs::hash::Hash::new("od-file1-hash"));
    directory.insert_file_ref("file1", file_ref1);

    let file_ref2 = BlobRef::new(dvcs::hash::Hash::new("od-filein-hash"));
    directory.insert_file_ref("something/file2", file_ref2);

    let serialized_dir = encode_directory(&directory);
    println!("Serialized: {}", String::from_utf8(serialized_dir.clone()).unwrap());

    let deserialized_dir: Directory = decode_directory(&serialized_dir).unwrap();
    println!("Deserialized: {:?}", deserialized_dir);

    let blob_ref = deserialized_dir.get_file_ref("file1").unwrap();
    assert_eq!(blob_ref.get_content_hash().as_string(), digest("od-file1-hash"));

    let blob_ref2 = deserialized_dir.get_file_ref("something/file2").unwrap();
    assert_eq!(blob_ref2.get_content_hash().as_string(), digest("od-filein-hash"));
}

#[test]
fn insert_keeps_an_existing_entry_and_upsert_replaces_it() {
    let h1 = dvcs::hash::Hash::from(b"1");
    let h2 = dvcs::hash::Hash::from(b"2");
    let mut d = Directory::new();
    assert!(!d.contains_file_ref("a"));
    assert_eq!(d.get_file_ref("a"), None);
    d.insert_file_ref("a", BlobRef::new(h1.clone()));
    d.insert_file_ref("a", BlobRef::new(h2.clone()));
    assert!(d.contains_file_ref("a"));
    assert_eq!(d.get_file_ref("a").unwrap().get_content_hash(), &h1);
    d.upsert_file_ref("a", BlobRef::new(h2.clone()));
    assert_eq!(d.get_file_ref("a").unwrap().get_content_hash(), &h2);
    assert_eq!(d.len(), 1);
}

#[test]
fn remove_and_modify_tell_whether_the_path_was_there() {
    let h1 = dvcs::hash::Hash::from(b"1");
    let h2 = dvcs::hash::Hash::from(b"2");
    let mut d = Directory::new();
    d.insert_file_ref("a", BlobRef::new(h1.clone()));
    assert_eq!(d.modify_file_ref("missing", h2.clone()), None);
    assert_eq!(d.modify_file_ref("a", h2.clone()), Some(()));
    assert_eq!(d.get_file_ref("a").unwrap().get_content_hash(), &h2);
    assert_eq!(d.remove_file_ref("missing"), None);
    assert_eq!(d.remove_file_ref("a"), Some(("a".to_string(), BlobRef::new(h2))));
    assert_eq!(d.len(), 0);
    assert_eq!(d, Directory::new());
}

#[test]
fn entries_come_in_ascending_order_of_path() {
    let h = dvcs::hash::Hash::from(b"1");
    let mut d = Directory::new();
    for p in ["b", "a/z", "a", "é", "B", "ab", ""] {
        d.insert_file_ref(p, BlobRef::new(h.clone()));
    }
    let paths: Vec<String> = d.get_key_value_pairs().into_iter().map(|e| e.0).collect();
    let mut sorted = paths.clone();
    sorted.sort();
    assert_eq!(paths, sorted);
    assert_eq!(paths, vec!["", "B", "a", "a/z", "ab", "b", "é"]);
}

#[test]
fn blob_ref_points_where_it_is_told() {
    let h1 = dvcs::hash::Hash::from(b"1");
    let h2 = dvcs::hash::Hash::from(b"2");
    let mut b = BlobRef::new(h1.clone());
    assert_eq!(b.get_content_hash(), &h1);
    b.update_content_hash(h2.clone());
    assert_eq!(b.get_content_hash(), &h2);
}
