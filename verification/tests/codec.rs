use dvcs::commit::Commit;
use dvcs::directory::{BlobRef, Directory};
use dvcs::hash::DVCSHash;
use dvcs::serializer::{decode_commit, decode_directory, encode_commit, encode_directory};

#[test]
fn commit_encoding_is_the_canonical_record() {
    let dir = dvcs::hash::Hash::from(b"tree");
    let parent = dvcs::hash::Hash::from(b"parent");
    let c = Commit::new(vec![parent.clone()], dir.clone(), "Ann", "say \"hi\"\n", "2024-01-02 03:04:05.678");
    let bytes = encode_commit(&c);
    let expected = format!(
        "{{\"parent_hashes\":[\"{}\"],\"dir_hash\":\"{}\",\"author\":\"Ann\",\"message\":\"say \\\"hi\\\"\\n\",\"timestamp\":\"2024-01-02 03:04:05.678\"}}",
        parent.as_string(),
        dir.as_string()
    );
    assert_eq!(String::from_utf8(bytes.clone()).unwrap(), expected);
    assert_eq!(decode_commit(&bytes), Some(c));
}

#[test]
fn commit_round_trip_with_control_and_wide_characters() {
    let dir = dvcs::hash::Hash::from(b"x");
    let c = Commit::new(vec![], dir, "Zoë \u{1F600}", "tab\there \u{1} \\ / \u{8}\u{c}\r", "t");
    let bytes = encode_commit(&c);
    assert_eq!(decode_commit(&bytes), Some(c));
}

#[test]
fn commit_decoding_rejects_what_is_not_canonical() {
    assert_eq!(decode_commit(b""), None);
    assert_eq!(decode_commit(b"{}"), None);
    assert_eq!(decode_commit(&[0xff, 0xfe]), None);
    let dir = dvcs::hash::Hash::from(b"x");
    let c = Commit::new(vec![], dir, "a", "m", "t");
    let mut bytes = encode_commit(&c);
    bytes.push(b' ');
    assert_eq!(decode_commit(&bytes), None);
}

#[test]
fn directory_round_trip_and_order() {
    let mut d = Directory::new();
    d.insert_file_ref("b.txt", BlobRef::new(dvcs::hash::Hash::from(b"2")));
    d.insert_file_ref("a.txt", BlobRef::new(dvcs::hash::Hash::from(b"1")));
    let bytes = encode_directory(&d);
    let text = String::from_utf8(bytes.clone()).unwrap();
    let expected = format!(
        "{{\"files\":{{\"a.txt\":{{\"content_hash\":\"{}\"}},\"b.txt\":{{\"content_hash\":\"{}\"}}}}}}",
        dvcs::hash::Hash::from(b"1").as_string(),
        dvcs::hash::Hash::from(b"2").as_string()
    );
    assert_eq!(text, expected);
    let back = decode_directory(&bytes).unwrap();
    assert_eq!(back, d);
    assert_eq!(back.get_hash(), d.get_hash());
}

#[test]
fn directory_decoding_passes_over_a_stored_name() {
    let h = dvcs::hash::Hash::from(b"1").as_string();
    let text = format!("{{\"files\":{{\"z\":{{\"name\":\"old\",\"content_hash\":\"{}\"}},\"a\":{{\"content_hash\":\"{}\"}}}}}}", h, h);
    let d = decode_directory(text.as_bytes()).unwrap();
    let pairs = d.get_key_value_pairs();
    assert_eq!(pairs.len(), 2);
    assert_eq!(pairs[0].0, "a");
    assert_eq!(pairs[1].0, "z");
    assert_eq!(pairs[1].1.get_content_hash().as_string(), h);
}

#[test]
fn directory_decoding_rejects_a_path_that_occurs_twice() {
    let h = dvcs::hash::Hash::from(b"1").as_string();
    let text = format!("{{\"files\":{{\"a\":{{\"content_hash\":\"{}\"}},\"a\":{{\"content_hash\":\"{}\"}}}}}}", h, h);
    assert!(decode_directory(text.as_bytes()).is_none());
    assert!(decode_directory(b"{\"files\":{}}").is_some());
}
