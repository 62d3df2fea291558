use dvcs::hash::DVCSHash;
use dvcs::directory::{BlobRef, Directory};

#[test]
fn hash_of_text_is_the_sha256_digest_in_lowercase_hex() {
    let h = dvcs::hash::Hash::new("hello");
    assert_eq!(h.as_string(), "2cf24dba5fb0a30e26e83b2ac5b9e29e1b161e5c1fa7425e73043362938b9824");
    assert_eq!(dvcs::hash::Hash::from(b"hello"), h);
    assert_eq!(h.as_string().len(), 64);
}

#[test]
fn hash_of_bytes_differs_from_its_argument() {
    let h = dvcs::hash::Hash::from(b"");
    assert_eq!(h.as_string(), "e3b0c44298fc1c149afbf4c8996fb92427ae41e4649b934ca495991b7852b855");
}

#[test]
fn rehash_is_the_digest_of_the_digest_text() {
    let once = dvcs::hash::Hash::new("abc");
    let twice = dvcs::hash::Hash::new(once.as_str());
    assert_eq!(twice.as_string(), sha256::digest(sha256::digest("abc")));
    assert_ne!(once, twice);
}

#[test]
fn from_literal_takes_a_digest_as_it_is_and_puts_it_in_lowercase() {
    let text = "2CF24DBA5FB0A30E26E83B2AC5B9E29E1B161E5C1FA7425E73043362938B9824";
    let h = dvcs::hash::Hash::from_literal(text);
    assert_eq!(h, dvcs::hash::Hash::new("hello"));
    assert_eq!(h.as_string(), text.to_lowercase());
    assert!(h.same(&dvcs::hash::Hash::from_literal(&text.to_lowercase())));
}

#[test]
fn parse_refuses_what_is_no_digest() {
    assert!(dvcs::hash::Hash::parse("").is_none());
    assert!(dvcs::hash::Hash::parse("abc").is_none());
    assert!(dvcs::hash::Hash::parse(&"g".repeat(64)).is_none());
    assert!(dvcs::hash::Hash::parse(&"a".repeat(63)).is_none());
    assert!(dvcs::hash::Hash::parse(&"a".repeat(65)).is_none());
    assert!(dvcs::hash::Hash::parse(&"a".repeat(64)).is_some());
    assert!(dvcs::hash::Hash::parse(&"é".repeat(64)).is_none());
}

#[test]
fn hashes_are_ordered_by_their_text() {
    let a = dvcs::hash::Hash::from_literal(&"0".repeat(64));
    let b = dvcs::hash::Hash::from_literal(&format!("{}1", "0".repeat(63)));
    assert!(a.precedes(&b));
    assert!(!b.precedes(&a));
    assert!(!a.precedes(&a));
    assert_eq!(a.precedes(&b), a.as_string() < b.as_string());
}

#[test]
fn directory_hash_is_the_hash_of_paths_and_hashes_in_ascending_order() {
    let h1 = dvcs::hash::Hash::from(b"one");
    let h2 = dvcs::hash::Hash::from(b"two");
    let mut d = Directory::new();
    d.insert_file_ref("z.txt", BlobRef::new(h1.clone()));
    d.insert_file_ref("a/b.txt", BlobRef::new(h2.clone()));
    let expected = sha256::digest(format!("a/b.txt{}z.txt{}", h2.as_string(), h1.as_string()));
    assert_eq!(d.get_hash().as_string(), expected);
    assert_eq!(Directory::new().get_hash().as_string(), sha256::digest(""));
}

#[test]
fn directory_hash_does_not_depend_on_insertion_order() {
    let h1 = dvcs::hash::Hash::from(b"one");
    let h2 = dvcs::hash::Hash::from(b"two");
    let mut d1 = Directory::new();
    d1.insert_file_ref("x", BlobRef::new(h1.clone()));
    d1.insert_file_ref("y", BlobRef::new(h2.clone()));
    let mut d2 = Directory::new();
    d2.insert_file_ref("y", BlobRef::new(h2));
    d2.insert_file_ref("x", BlobRef::new(h1));
    assert_eq!(d1, d2);
    assert_eq!(d1.get_hash(), d2.get_hash());
}

#[test]
fn commit_hash_is_the_hash_of_its_fields_in_order() {
    let first = dvcs::hash::Hash::from(b"first");
    let second = dvcs::hash::Hash::from(b"second");
    let dir = dvcs::hash::Hash::from(b"dir");
    let c = dvcs::commit::Commit::new(vec![first.clone(), second.clone()], dir.clone(), "me", "why", "2024-01-01 00:00:00.000");
    let expected = sha256::digest(format!(
        "{}{}{}mewhy2024-01-01 00:00:00.000",
        first.as_string(),
        second.as_string(),
        dir.as_string()
    ));
    assert_eq!(c.get_hash().as_string(), expected);
    let same = dvcs::commit::Commit::new(vec![first.clone(), second.clone()], dir.clone(), "me", "why", "2024-01-01 00:00:00.000");
    assert_eq!(same.get_hash(), c.get_hash());
    let swapped = dvcs::commit::Commit::new(vec![second, first], dir, "me", "why", "2024-01-01 00:00:00.000");
    assert_ne!(swapped.get_hash(), c.get_hash());
}

#[test]
fn commit_getters_give_the_fields() {
    let p = dvcs::hash::Hash::from(b"p");
    let dir = dvcs::hash::Hash::from(b"dir");
    let c = dvcs::commit::Commit::new(vec![p.clone()], dir.clone(), "Justin", "Initial commit", "t");
    assert_eq!(c.get_parent_hashes(), vec![p]);
    assert_eq!(c.get_dir_hash(), dir);
    assert_eq!(c.get_author(), "Justin");
    assert_eq!(c.get_message(), "Initial commit");
    assert_eq!(c.get_time_stamp(), "t");
    assert_eq!(
        c.to_log_record(),
        format!("Commit:\nhash: {}\nauthor: Justin\nmessage: Initial commit\ntime: t", c.get_hash().as_string())
    );
}
