use canvibe::walker::DirEntry;
use canvibe::walker::EntryKind;
use canvibe::walker::Walker;

#[test]
fn walk_skips_hidden_but_keeps_marker() {
    let mut walker = Walker::new();
    let root = walker.next_dir().unwrap();
    assert_eq!(root, "".to_string());
    walker.ingest(
        &root,
        &vec![
            DirEntry { name: "a.txt".to_string(), kind: EntryKind::File },
            DirEntry { name: ".hidden".to_string(), kind: EntryKind::Dir },
            DirEntry { name: ".thoughtlog".to_string(), kind: EntryKind::Dir },
        ],
    );
    let marker = walker.next_dir().unwrap();
    assert_eq!(marker, ".thoughtlog".to_string());
    walker.ingest(
        &marker,
        &vec![DirEntry { name: "note.md".to_string(), kind: EntryKind::File }],
    );
    assert!(walker.next_dir().is_none());
    let files = walker.into_files();
    assert_eq!(
        files,
        vec!["a.txt".to_string(), ".thoughtlog/note.md".to_string()]
    );
}

#[test]
fn walk_joins_nested_paths() {
    let mut walker = Walker::new();
    let root = walker.next_dir().unwrap();
    walker.ingest(
        &root,
        &vec![DirEntry { name: "sub".to_string(), kind: EntryKind::Dir }],
    );
    let sub = walker.next_dir().unwrap();
    assert_eq!(sub, "sub".to_string());
    walker.ingest(
        &sub,
        &vec![
            DirEntry { name: "deep".to_string(), kind: EntryKind::Dir },
            DirEntry { name: "x.txt".to_string(), kind: EntryKind::File },
        ],
    );
    let deep = walker.next_dir().unwrap();
    assert_eq!(deep, "sub/deep".to_string());
    walker.ingest(
        &deep,
        &vec![DirEntry { name: "y.txt".to_string(), kind: EntryKind::File }],
    );
    assert!(walker.next_dir().is_none());
    let files = walker.into_files();
    assert_eq!(
        files,
        vec!["sub/x.txt".to_string(), "sub/deep/y.txt".to_string()]
    );
}

#[test]
fn walk_skips_hidden_files_and_other_kinds() {
    let mut walker = Walker::new();
    let root = walker.next_dir().unwrap();
    walker.ingest(
        &root,
        &vec![
            DirEntry { name: ".env".to_string(), kind: EntryKind::File },
            DirEntry { name: "link".to_string(), kind: EntryKind::Other },
            DirEntry { name: "kept.txt".to_string(), kind: EntryKind::File },
        ],
    );
    assert!(walker.next_dir().is_none());
    assert_eq!(walker.into_files(), vec!["kept.txt".to_string()]);
}

#[test]
fn walk_keeps_marker_file_at_root() {
    let mut walker = Walker::new();
    let root = walker.next_dir().unwrap();
    walker.ingest(
        &root,
        &vec![DirEntry { name: ".thoughtlog".to_string(), kind: EntryKind::File }],
    );
    assert!(walker.next_dir().is_none());
    assert_eq!(walker.into_files(), vec![".thoughtlog".to_string()]);
}
