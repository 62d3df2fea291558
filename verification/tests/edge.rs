use dvcs::builder::build_commit;
use dvcs::directory::{BlobRef, Directory};
use dvcs::error::{ConflictKind, DvcsError};
use dvcs::hash::DVCSHash;
use dvcs::merge::{merge_entry, text_merge_result, MergeDecision};
use dvcs::repository::RepositoryInterface;
use dvcs::serializer::{render_tokens, tokenize, Token};

#[test]
fn equal_commits_in_the_same_millisecond_are_stored_once() {
    let mut repo = RepositoryInterface::init("r");
    let mut dir = Directory::new();
    dir.insert_file_ref("a", BlobRef::new(dvcs::hash::Hash::from(b"a")));
    let one = build_commit("me", &vec![], &dir, "same", "2024-01-01 00:00:00.001", &mut repo);
    let count = repo.get_object_hashes().len();
    let two = build_commit("me", &vec![], &dir, "same", "2024-01-01 00:00:00.001", &mut repo);
    assert_eq!(one, two);
    assert_eq!(one.get_hash(), two.get_hash());
    assert_eq!(repo.get_object_hashes().len(), count);
    assert_eq!(count, 2);
    let later = build_commit("me", &vec![], &dir, "same", "2024-01-01 00:00:00.002", &mut repo);
    assert_ne!(one.get_hash(), later.get_hash());
    assert_eq!(repo.get_object_hashes().len(), 3);
}

#[test]
fn every_failure_has_a_message_on_one_line() {
    let h = dvcs::hash::Hash::from(b"x");
    let all = vec![
        DvcsError::NotARepository,
        DvcsError::IOFailure { path: "p".to_string(), cause: "not found".to_string() },
        DvcsError::DecodeFailure { object: h.clone() },
        DvcsError::HashMismatch { expected: h.clone(), actual: h.clone() },
        DvcsError::EmptyStaging,
        DvcsError::BranchExists { name: "b".to_string() },
        DvcsError::BranchMissing { name: "b".to_string() },
        DvcsError::DetachedHead,
        DvcsError::NoCommonAncestor,
        DvcsError::MergeConflict { paths: vec!["a".to_string(), "b".to_string()], kind: ConflictKind::Content },
        DvcsError::MergeConflict { paths: vec![], kind: ConflictKind::DeleteModify },
        DvcsError::MergeConflict { paths: vec![], kind: ConflictKind::ModifyDelete },
        DvcsError::InvalidPath,
    ];
    for e in all {
        let m = e.message();
        assert!(!m.is_empty());
        assert!(!m.contains('\n'));
    }
    assert_eq!(
        DvcsError::IOFailure { path: "p".to_string(), cause: "not found".to_string() }.message(),
        "i/o failure at p: not found"
    );
}

#[test]
fn the_decision_for_a_path_follows_the_three_hashes() {
    let base = BlobRef::new(dvcs::hash::Hash::from(b"base"));
    let ours = BlobRef::new(dvcs::hash::Hash::from(b"ours"));
    let theirs = BlobRef::new(dvcs::hash::Hash::from(b"theirs"));
    let take = |b: &BlobRef| MergeDecision::Take(b.get_content_hash().clone());
    assert_eq!(merge_entry(Some(&base), Some(&base), Some(&base)), take(&base));
    assert_eq!(merge_entry(Some(&base), Some(&ours), Some(&base)), take(&ours));
    assert_eq!(merge_entry(Some(&base), Some(&base), Some(&theirs)), take(&theirs));
    assert_eq!(merge_entry(Some(&base), Some(&ours), Some(&ours)), take(&ours));
    assert_eq!(
        merge_entry(Some(&base), Some(&ours), Some(&theirs)),
        MergeDecision::TextMerge {
            base: Some(base.get_content_hash().clone()),
            ours: ours.get_content_hash().clone(),
            theirs: theirs.get_content_hash().clone()
        }
    );
    assert_eq!(merge_entry(Some(&base), None, Some(&base)), MergeDecision::Absent);
    assert_eq!(merge_entry(Some(&base), Some(&base), None), MergeDecision::Absent);
    assert_eq!(merge_entry(Some(&base), None, Some(&theirs)), MergeDecision::Conflict(ConflictKind::DeleteModify));
    assert_eq!(merge_entry(Some(&base), Some(&ours), None), MergeDecision::Conflict(ConflictKind::ModifyDelete));
    assert_eq!(merge_entry(Some(&base), None, None), MergeDecision::Absent);
    assert_eq!(merge_entry(None, Some(&ours), None), take(&ours));
    assert_eq!(merge_entry(None, None, Some(&theirs)), take(&theirs));
    assert_eq!(merge_entry(None, Some(&ours), Some(&ours)), take(&ours));
    assert_eq!(
        merge_entry(None, Some(&ours), Some(&theirs)),
        MergeDecision::TextMerge {
            base: None,
            ours: ours.get_content_hash().clone(),
            theirs: theirs.get_content_hash().clone()
        }
    );
    assert_eq!(merge_entry(None, None, None), MergeDecision::Absent);
}

#[test]
fn a_finished_line_merge_gives_the_bytes_of_the_text_or_nothing() {
    assert_eq!(text_merge_result(Ok("héllo\n".to_string())), Some("héllo\n".as_bytes().to_vec()));
    assert_eq!(text_merge_result(Ok(String::new())), Some(vec![]));
    assert_eq!(text_merge_result(Err("<<<<<<< ours\n".to_string())), None);
}

#[test]
fn tokens_are_written_and_read_back() {
    let tokens = vec![
        Token::Punct('{'),
        Token::Text("a \"b\" \\ \n\r\t\u{8}\u{c}\u{1f}\u{7f} é".to_string()),
        Token::Punct(':'),
        Token::Punct('['),
        Token::Text(String::new()),
        Token::Punct(','),
        Token::Punct(']'),
        Token::Punct('}'),
    ];
    let text = render_tokens(&tokens);
    assert_eq!(text, "{\"a \\\"b\\\" \\\\ \\n\\r\\t\\b\\f\\u001f\u{7f} é\":[\"\",]}");
    let chars: Vec<char> = text.chars().collect();
    assert_eq!(tokenize(&chars), Some(tokens));
    for bad in ["a", "\"open", "{ }", "\"\\x\"", "\"\\u0041\"", "\"\\u000a\"", "\"\\u001F\"", "\"\u{1}\""] {
        let chars: Vec<char> = bad.chars().collect();
        assert_eq!(tokenize(&chars), None, "{:?}", bad);
    }
}

#[test]
fn each_failure_is_shown_with_what_it_failed_on() {
    let a = dvcs::hash::Hash::from(b"a");
    let b = dvcs::hash::Hash::from(b"b");
    assert_eq!(DvcsError::NotARepository.message(), "not a repository");
    assert_eq!(
        DvcsError::DecodeFailure { object: a.clone() }.message(),
        format!("stored object does not decode: {}", a.as_string())
    );
    assert_eq!(
        DvcsError::HashMismatch { expected: a.clone(), actual: b.clone() }.message(),
        format!("hash mismatch: expected {}, found {}", a.as_string(), b.as_string())
    );
    assert_eq!(DvcsError::EmptyStaging.message(), "nothing in staged files");
    assert_eq!(DvcsError::BranchExists { name: "dev".to_string() }.message(), "branch already exists: dev");
    assert_eq!(DvcsError::BranchMissing { name: "dev".to_string() }.message(), "branch does not exist: dev");
    assert_eq!(DvcsError::DetachedHead.message(), "HEAD names no branch");
    assert_eq!(DvcsError::NoCommonAncestor.message(), "no common ancestor found");
    assert_eq!(DvcsError::InvalidPath.message(), "invalid path");
    assert_eq!(
        DvcsError::MergeConflict { paths: vec!["a.txt".to_string(), "b/c".to_string()], kind: ConflictKind::Content }
            .message(),
        "merge conflict in the content of a.txt b/c"
    );
    assert_eq!(
        DvcsError::MergeConflict { paths: vec!["x".to_string()], kind: ConflictKind::DeleteModify }.message(),
        "merge conflict, deleted here and modified there: x"
    );
    assert_eq!(
        DvcsError::MergeConflict { paths: vec![], kind: ConflictKind::ModifyDelete }.message(),
        "merge conflict, modified here and deleted there:"
    );
}
