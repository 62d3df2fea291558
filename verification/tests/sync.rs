use dvcs::sync::{detect_changes, split_lines, synchronize_changes};

#[test]
fn test_detect_changes() {
    let source_content = b"Hello, world!\nThis is a test.";
    let dest_content = b"Hello, world!\nThis is a modified test.";
    let source_lines = source_content.split(|&b| b == b'\n').map(Vec::from).collect::<Vec<_>>();
    let dest_lines = dest_content.split(|&b| b == b'\n').map(Vec::from).collect::<Vec<_>>();

    let changes_detected = detect_changes(&source_lines, &dest_lines, true);
    assert!(changes_detected);
}

#[test]
fn test_detect_no_changes() {
    let content = b"Hello, world!\nThis is a test.";
    let source_lines = content.split(|&b| b == b'\n').map(Vec::from).collect::<Vec<_>>();
    let dest_lines = source_lines.clone();

    let changes_detected = detect_changes(&source_lines, &dest_lines, true);
    assert!(!changes_detected);
}

#[test]
fn split_lines_is_the_split_at_line_feeds() {
    for text in [&b""[..], b"a", b"a\n", b"\n\nb", b"one\ntwo\nthree"] {
        let expected = text.split(|&b| b == b'\n').map(Vec::from).collect::<Vec<_>>();
        assert_eq!(split_lines(&text.to_vec()), expected);
    }
}

#[test]
fn test_synchronize_no_conflict() {
    let out = synchronize_changes(&b"Test content".to_vec(), &b"Test content".to_vec(), true, false);
    assert!(!out.conflict);
    assert_eq!(out.write, Some(b"Test content".to_vec()));
}

#[test]
fn test_synchronize_conflict() {
    let out = synchronize_changes(&b"Original content".to_vec(), &b"Modified content".to_vec(), true, false);
    assert!(out.conflict);
    assert_eq!(out.write, None);
    let forced = synchronize_changes(&b"Original content".to_vec(), &b"Modified content".to_vec(), true, true);
    assert!(forced.conflict);
    assert_eq!(forced.write, Some(b"Original content".to_vec()));
}

#[test]
fn push_direction_looks_at_the_source_lines() {
    let source = vec![b"a".to_vec()];
    let dest = vec![b"a".to_vec(), b"b".to_vec()];
    assert!(!detect_changes(&source, &dest, false));
    assert!(detect_changes(&source, &dest, true));
}
