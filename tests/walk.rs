use cardinal::node::{Node, NodeFileType, NodeMetadata};
use cardinal::walk::{
    handle_error_and_retry, settle_status, walk_it, FsEntry, ReadError, StatusRead, WalkData,
};

fn meta(file_type: NodeFileType, size: u64) -> NodeMetadata {
    NodeMetadata::new(file_type, Some(10), Some(20), size)
}

fn file(name: &str, size: u64) -> FsEntry {
    FsEntry {
        name: name.to_string(),
        status: StatusRead::Found(meta(NodeFileType::File, size)),
        entries: vec![],
    }
}

fn dir(name: &str, entries: Vec<FsEntry>) -> FsEntry {
    FsEntry {
        name: name.to_string(),
        status: StatusRead::Found(meta(NodeFileType::Dir, 4096)),
        entries,
    }
}

fn path(parts: &[&str]) -> Vec<String> {
    parts.iter().map(|s| s.to_string()).collect()
}

/// root/{a.txt, sub/{b.txt}}
fn sample() -> FsEntry {
    dir("root", vec![file("a.txt", 3), dir("sub", vec![file("b.txt", 5)])])
}

fn names(n: &Node) -> Vec<String> {
    n.children.iter().map(|c| c.name.clone()).collect()
}

#[test]
fn scan_without_ignored_path() {
    let mut data = WalkData::new(path(&["/", "elsewhere"]), false);
    let root = walk_it(&path(&["/", "root"]), &sample(), &mut data).unwrap();
    assert_eq!(root.name, "root");
    assert_eq!(names(&root), vec!["a.txt".to_string(), "sub".to_string()]);
    assert_eq!(root.file_type, NodeFileType::Dir);
    let a = &root.children[0];
    assert!(a.children.is_empty());
    assert_eq!(a.file_type, NodeFileType::File);
    assert!(a.metadata.is_none());
    let sub = &root.children[1];
    assert_eq!(sub.file_type, NodeFileType::Dir);
    assert_eq!(sub.metadata.unwrap().file_type, NodeFileType::Dir);
    assert_eq!(names(sub), vec!["b.txt".to_string()]);
    assert_eq!(sub.children[0].file_type, NodeFileType::File);
    assert!(sub.children[0].metadata.is_none());
    assert_eq!(data.num_files, 2);
    assert_eq!(data.num_dirs, 1);
}

#[test]
fn scan_with_ignored_subdirectory() {
    let mut data = WalkData::new(path(&["/", "root", "sub"]), false);
    let root = walk_it(&path(&["/", "root"]), &sample(), &mut data).unwrap();
    assert_eq!(names(&root), vec!["a.txt".to_string()]);
    assert_eq!(data.num_files, 1);
    assert_eq!(data.num_dirs, 0);
}

#[test]
fn scan_of_ignored_root_yields_nothing() {
    let mut data = WalkData::new(path(&["/", "root"]), true);
    assert!(walk_it(&path(&["/", "root"]), &sample(), &mut data).is_none());
    assert_eq!(data.num_files, 0);
    assert_eq!(data.num_dirs, 0);
}

#[test]
fn file_metadata_only_when_asked() {
    let mut data = WalkData::new(vec![], true);
    let root = walk_it(&path(&["/", "root"]), &sample(), &mut data).unwrap();
    let a = root.children[0].metadata.unwrap();
    assert_eq!(a.file_type, NodeFileType::File);
    assert_eq!(a.size, 3);
    assert_eq!(a.ctime, Some(10));
    assert_eq!(a.mtime, Some(20));
    assert_eq!(root.metadata.unwrap().size, 4096);
}

#[test]
fn symlink_to_directory_is_a_leaf() {
    let link = FsEntry {
        name: "link".to_string(),
        status: StatusRead::Found(meta(NodeFileType::Symlink, 0)),
        entries: vec![file("inside", 1)],
    };
    let tree = dir("root", vec![link]);
    let mut data = WalkData::new(vec![], true);
    let root = walk_it(&path(&["r"]), &tree, &mut data).unwrap();
    assert_eq!(root.children.len(), 1);
    assert!(root.children[0].children.is_empty());
    assert_eq!(root.children[0].metadata.unwrap().file_type, NodeFileType::Symlink);
    assert_eq!(root.children[0].file_type, NodeFileType::Symlink);
    assert_eq!(data.num_files, 1);
    assert_eq!(data.num_dirs, 0);
}

#[test]
fn missing_entries_are_dropped_and_unreadable_kept() {
    let gone = FsEntry { name: "gone".to_string(), status: StatusRead::Missing, entries: vec![] };
    let locked = FsEntry {
        name: "locked".to_string(),
        status: StatusRead::Unreadable,
        entries: vec![],
    };
    let tree = dir("root", vec![gone, locked, file("c", 1)]);
    let mut data = WalkData::default();
    let root = walk_it(&path(&["r"]), &tree, &mut data).unwrap();
    assert_eq!(names(&root), vec!["locked".to_string(), "c".to_string()]);
    assert!(root.children[0].metadata.is_none());
    assert_eq!(root.children[0].file_type, NodeFileType::Unknown);
    assert_eq!(data.num_files, 2);
    assert_eq!(data.num_dirs, 0);
}

#[test]
fn missing_root_yields_nothing() {
    let gone = FsEntry { name: "gone".to_string(), status: StatusRead::Missing, entries: vec![] };
    let mut data = WalkData::default();
    assert!(walk_it(&path(&["gone"]), &gone, &mut data).is_none());
}

#[test]
fn counters_cover_every_node_below_root() {
    let tree = dir(
        "root",
        vec![
            dir("x", vec![file("1", 1), dir("y", vec![file("2", 2), file("3", 3)])]),
            file("4", 4),
            dir("z", vec![]),
        ],
    );
    let mut data = WalkData::default();
    let root = walk_it(&path(&["root"]), &tree, &mut data).unwrap();
    fn below(n: &Node) -> usize {
        n.children.iter().map(|c| 1 + below(c)).sum()
    }
    assert_eq!(below(&root), 7);
    assert_eq!(data.num_files + data.num_dirs, 7);
    assert_eq!(data.num_dirs, 3);
}

#[test]
fn counters_accumulate_over_scans() {
    let mut data = WalkData::default();
    walk_it(&path(&["root"]), &sample(), &mut data).unwrap();
    walk_it(&path(&["root"]), &sample(), &mut data).unwrap();
    assert_eq!(data.num_files, 4);
    assert_eq!(data.num_dirs, 2);
}

#[test]
fn symlink_kind_is_kept_without_metadata() {
    let link = FsEntry {
        name: "link".to_string(),
        status: StatusRead::Found(meta(NodeFileType::Symlink, 0)),
        entries: vec![dir("inner", vec![])],
    };
    let mut data = WalkData::default();
    let root = walk_it(&path(&["r"]), &dir("r", vec![link]), &mut data).unwrap();
    assert_eq!(root.children[0].file_type, NodeFileType::Symlink);
    assert!(root.children[0].metadata.is_none());
    assert!(root.children[0].children.is_empty());
}

#[test]
fn only_interrupted_reads_are_retried() {
    assert!(handle_error_and_retry(&ReadError::Interrupted));
    assert!(!handle_error_and_retry(&ReadError::NotFound));
    assert!(!handle_error_and_retry(&ReadError::Other));
}

#[test]
fn read_outcomes_settle() {
    let m = meta(NodeFileType::File, 1);
    assert_eq!(settle_status(Ok(m)), StatusRead::Found(m));
    assert_eq!(settle_status(Err(ReadError::NotFound)), StatusRead::Missing);
    assert_eq!(settle_status(Err(ReadError::Other)), StatusRead::Unreadable);
    assert_eq!(settle_status(Err(ReadError::Interrupted)), StatusRead::Unreadable);
}

#[test]
fn file_type_classification_order() {
    assert_eq!(NodeFileType::classify(true, false, false), NodeFileType::File);
    assert_eq!(NodeFileType::classify(false, true, false), NodeFileType::Dir);
    assert_eq!(NodeFileType::classify(false, false, true), NodeFileType::Symlink);
    assert_eq!(NodeFileType::classify(false, false, false), NodeFileType::Unknown);
    assert_eq!(NodeFileType::classify(true, true, true), NodeFileType::File);
}

#[test]
fn ignores_compares_whole_paths() {
    let data = WalkData::new(path(&["/", "a", "b"]), false);
    assert!(data.ignores(&path(&["/", "a", "b"])));
    assert!(!data.ignores(&path(&["/", "a"])));
    assert!(!data.ignores(&path(&["/", "a", "c"])));
    assert!(!WalkData::default().ignores(&path(&["/"])));
}
