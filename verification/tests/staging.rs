use dvcs::error::DvcsError;
use dvcs::staging::{
    clear_staged_files, get_staged_files, normalize_path, stage_add, stage_all_files, stage_remove, stageable_path,
    StagingArea,
};

#[test]
fn add_then_remove_leaves_the_staged_paths_as_they_were() {
    let mut s = StagingArea::new();
    stage_add(&mut s, "a", true, false).unwrap();
    stage_add(&mut s, "b", true, false).unwrap();
    let before = s.clone();
    assert_eq!(stage_add(&mut s, "c", true, false), Ok(true));
    assert!(stage_remove(&mut s, "c"));
    assert_eq!(s, before);
    assert_eq!(get_staged_files(&s), vec!["a".to_string(), "b".to_string()]);
}

#[test]
fn adding_twice_stages_once_and_removing_what_is_not_staged_does_nothing() {
    let mut s = StagingArea::new();
    assert_eq!(stage_add(&mut s, "a", true, false), Ok(true));
    assert_eq!(stage_add(&mut s, "a", true, false), Ok(false));
    assert_eq!(s.len(), 1);
    assert!(!stage_remove(&mut s, "b"));
    assert!(stage_remove(&mut s, "a"));
    assert!(!stage_remove(&mut s, "a"));
    assert_eq!(s.len(), 0);
}

#[test]
fn add_refuses_what_cannot_be_staged() {
    let mut s = StagingArea::new();
    assert_eq!(
        stage_add(&mut s, "missing", false, false),
        Err(DvcsError::IOFailure { path: "missing".to_string(), cause: "not found".to_string() })
    );
    assert_eq!(stage_add(&mut s, "dir", true, true), Err(DvcsError::InvalidPath));
    for p in [".my-dvcs", ".my-dvcs/head", "/abs", "../up", "a/../b", "a/..", "", "a\nb", "a\r"] {
        assert_eq!(stage_add(&mut s, p, true, false), Err(DvcsError::InvalidPath), "{:?}", p);
        assert!(!stageable_path(p));
    }
    for p in [".my-dvcsx", "a/.my-dvcs/b", "a..b", "..a", "a/...", "x/.my-dvcs"] {
        assert!(stageable_path(p), "{:?}", p);
    }
    assert_eq!(s.len(), 0);
}

#[test]
fn clearing_removes_everything() {
    let mut s = StagingArea::new();
    stage_add(&mut s, "a", true, false).unwrap();
    stage_add(&mut s, "b", true, false).unwrap();
    clear_staged_files(&mut s);
    assert_eq!(get_staged_files(&s), Vec::<String>::new());
    assert_eq!(s, StagingArea::new());
}

#[test]
fn staged_paths_are_kept_one_on_each_line() {
    let mut s = StagingArea::new();
    assert_eq!(s.to_text(), "");
    stage_add(&mut s, "a.txt", true, false).unwrap();
    stage_add(&mut s, "dir/b c.txt", true, false).unwrap();
    assert_eq!(s.to_text(), "a.txt\ndir/b c.txt\n");
    assert_eq!(StagingArea::from_text(&s.to_text()), s);
    assert_eq!(StagingArea::from_text(""), StagingArea::new());
    let read = StagingArea::from_text("x\r\n\ny\nx\nz");
    assert_eq!(get_staged_files(&read), vec!["x".to_string(), "y".to_string(), "z".to_string()]);
}

#[test]
fn staging_everything_passes_over_the_metadata_and_what_is_no_file() {
    let mut s = StagingArea::new();
    stage_add(&mut s, "b.txt", true, false).unwrap();
    let entries = vec![
        ("a.txt".to_string(), true),
        ("dir".to_string(), false),
        ("dir/c.txt".to_string(), true),
        (".my-dvcs".to_string(), false),
        (".my-dvcs/head".to_string(), true),
        (".my-dvcs/obj/ab/cd.obj".to_string(), true),
        ("b.txt".to_string(), true),
    ];
    stage_all_files(&mut s, &entries);
    assert_eq!(get_staged_files(&s), vec!["b.txt".to_string(), "a.txt".to_string(), "dir/c.txt".to_string()]);
}

#[test]
fn paths_are_kept_with_forward_slashes() {
    assert_eq!(normalize_path("a\\b\\c.txt"), "a/b/c.txt");
    assert_eq!(normalize_path("a/b"), "a/b");
    assert_eq!(normalize_path(""), "");
}
