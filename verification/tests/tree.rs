use bunker::error::BunkerError;
use bunker::tree::{is_plain_name, is_plain_path, path_prefix, same_path, FileTree, FsOp, Node};

fn path(names: &[&str]) -> Vec<String> {
    names.iter().map(|n| n.to_string()).collect()
}

#[test]
fn a_new_tree_holds_the_base_directory_only() {
    let fs = FileTree::new();
    assert_eq!(fs.len(), 0);
    assert!(fs.is_dir(&path(&[])));
    assert!(fs.contains(&path(&[])));
    assert!(!fs.is_file(&path(&[])));
    assert!(!fs.contains(&path(&["a"])));
    assert!(!fs.has_children(&path(&[])));
}

#[test]
fn create_dir_all_makes_each_directory_on_the_way() {
    let mut fs = FileTree::new();
    assert_eq!(fs.create_dir_all(&path(&["a", "b", "c"])), Ok(()));
    assert!(fs.is_dir(&path(&["a"])));
    assert!(fs.is_dir(&path(&["a", "b"])));
    assert!(fs.is_dir(&path(&["a", "b", "c"])));
    assert!(!fs.is_dir(&path(&["b"])));
    assert_eq!(fs.len(), 3);
    assert_eq!(fs.create_dir_all(&path(&["a", "b"])), Ok(()));
    assert_eq!(fs.len(), 3);
    assert!(fs.has_children(&path(&["a"])));
    assert!(!fs.has_children(&path(&["a", "b", "c"])));
}

#[test]
fn create_dir_all_fails_where_a_file_stands_on_the_way() {
    let mut fs = FileTree::new();
    fs.write(&path(&["a"]), vec![1]).unwrap();
    assert!(matches!(fs.create_dir_all(&path(&["a", "b"])), Err(BunkerError::IoError(_))));
    assert!(!fs.contains(&path(&["a", "b"])));
    assert!(fs.is_file(&path(&["a"])));
}

#[test]
fn write_and_read() {
    let mut fs = FileTree::new();
    fs.create_dir_all(&path(&["d"])).unwrap();
    assert_eq!(fs.write(&path(&["d", "f"]), vec![1, 2, 3]), Ok(()));
    assert_eq!(fs.read(&path(&["d", "f"])), Some(vec![1, 2, 3]));
    assert_eq!(fs.write(&path(&["d", "f"]), vec![4]), Ok(()));
    assert_eq!(fs.read(&path(&["d", "f"])), Some(vec![4]));
    assert_eq!(fs.read(&path(&["d"])), None);
    assert_eq!(fs.read(&path(&["x"])), None);
    assert!(fs.is_file(&path(&["d", "f"])));
    assert!(!fs.is_dir(&path(&["d", "f"])));
}

#[test]
fn write_fails_without_the_directory_or_over_one() {
    let mut fs = FileTree::new();
    assert!(matches!(fs.write(&path(&[]), vec![]), Err(BunkerError::IoError(_))));
    assert!(matches!(fs.write(&path(&["d", "f"]), vec![]), Err(BunkerError::IoError(_))));
    fs.create_dir_all(&path(&["d"])).unwrap();
    assert!(matches!(fs.write(&path(&["d"]), vec![]), Err(BunkerError::IoError(_))));
    assert_eq!(fs.len(), 1);
}

#[test]
fn remove_file_and_dir() {
    let mut fs = FileTree::new();
    fs.create_dir_all(&path(&["d"])).unwrap();
    fs.write(&path(&["d", "f"]), vec![1]).unwrap();
    assert!(matches!(fs.remove_dir(&path(&["d"])), Err(BunkerError::IoError(_))));
    assert!(matches!(fs.remove_file(&path(&["d"])), Err(BunkerError::IoError(_))));
    assert!(matches!(fs.remove_file(&path(&["x"])), Err(BunkerError::IoError(_))));
    assert_eq!(fs.remove_file(&path(&["d", "f"])), Ok(()));
    assert!(!fs.contains(&path(&["d", "f"])));
    assert!(matches!(fs.remove_dir(&path(&["d", "f"])), Err(BunkerError::IoError(_))));
    assert!(matches!(fs.remove_dir(&path(&[])), Err(BunkerError::IoError(_))));
    assert_eq!(fs.remove_dir(&path(&["d"])), Ok(()));
    assert_eq!(fs.len(), 0);
}

#[test]
fn the_places_hold_each_node_once() {
    let mut fs = FileTree::new();
    fs.create_dir_all(&path(&["a", "b"])).unwrap();
    fs.write(&path(&["a", "f"]), vec![9]).unwrap();
    let mut seen: Vec<(Vec<String>, bool)> = Vec::new();
    for i in 0..fs.len() {
        seen.push((fs.path_at(i).clone(), matches!(fs.node_at(i), Node::File(_))));
    }
    seen.sort();
    assert_eq!(
        seen,
        vec![(path(&["a"]), false), (path(&["a", "b"]), false), (path(&["a", "f"]), true)]
    );
}

#[test]
fn the_journal_records_the_changes_in_order() {
    let mut fs = FileTree::new();
    fs.create_dir_all(&path(&["a"])).unwrap();
    fs.write(&path(&["a", "f"]), vec![9]).unwrap();
    let _ = fs.write(&path(&["zz", "f"]), vec![9]);
    fs.remove_file(&path(&["a", "f"])).unwrap();
    fs.remove_dir(&path(&["a"])).unwrap();
    assert_eq!(
        fs.take_journal(),
        vec![
            FsOp::CreateDir(path(&["a"])),
            FsOp::Write(path(&["a", "f"]), vec![9]),
            FsOp::RemoveFile(path(&["a", "f"])),
            FsOp::RemoveDir(path(&["a"])),
        ]
    );
    assert_eq!(fs.take_journal(), Vec::new());
}

#[test]
fn paths_compare_by_their_names() {
    assert!(same_path(&path(&["a", "b"]), &path(&["a", "b"])));
    assert!(!same_path(&path(&["a", "b"]), &path(&["a"])));
    assert!(!same_path(&path(&["a", "b"]), &path(&["a", "c"])));
    assert!(same_path(&path(&[]), &path(&[])));
    assert_eq!(path_prefix(&path(&["a", "b", "c"]), 2), path(&["a", "b"]));
    assert_eq!(path_prefix(&path(&["a"]), 0), path(&[]));
}

#[test]
fn only_proper_names_are_taken() {
    assert!(is_plain_name("store"));
    assert!(is_plain_name(".vault"));
    assert!(is_plain_name("..."));
    assert!(is_plain_name("..json"));
    assert!(is_plain_name(" "));
    assert!(!is_plain_name(""));
    assert!(!is_plain_name("."));
    assert!(!is_plain_name(".."));
    assert!(!is_plain_name("a/b"));
    assert!(!is_plain_name("/"));
    assert!(is_plain_path(&path(&["a", "b"])));
    assert!(is_plain_path(&path(&[])));
    assert!(!is_plain_path(&path(&["a", "b/c"])));
    let mut fs = FileTree::new();
    assert!(matches!(fs.create_dir_all(&path(&["a/b"])), Err(BunkerError::IoError(_))));
    assert!(matches!(fs.create_dir_all(&path(&["a", "b/c"])), Err(BunkerError::IoError(_))));
    assert!(matches!(fs.write(&path(&["x/y"]), vec![1]), Err(BunkerError::IoError(_))));
    for name in ["", ".", ".."] {
        assert!(!is_plain_path(&path(&["a", name])));
        assert!(matches!(fs.create_dir_all(&path(&[name])), Err(BunkerError::IoError(_))));
        assert!(matches!(fs.create_dir_all(&path(&[name, "a"])), Err(BunkerError::IoError(_))));
        assert!(matches!(fs.write(&path(&[name]), vec![1]), Err(BunkerError::IoError(_))));
    }
    assert_eq!(fs.len(), 0);
    assert_eq!(fs.take_journal(), Vec::new());
}

#[test]
fn everything_stands_in_a_directory() {
    let mut fs = FileTree::new();
    assert!(matches!(fs.write(&path(&["a", "f"]), vec![1]), Err(BunkerError::IoError(_))));
    fs.create_dir_all(&path(&["a", "b"])).unwrap();
    fs.write(&path(&["a", "b", "f"]), vec![1]).unwrap();
    assert!(matches!(fs.write(&path(&["a", "b", "f", "g"]), vec![1]), Err(BunkerError::IoError(_))));
    assert!(matches!(fs.remove_dir(&path(&["a", "b"])), Err(BunkerError::IoError(_))));
    assert!(matches!(fs.remove_dir(&path(&["a"])), Err(BunkerError::IoError(_))));
    assert!(matches!(fs.remove_file(&path(&["a", "b"])), Err(BunkerError::IoError(_))));
    fs.remove_file(&path(&["a", "b", "f"])).unwrap();
    fs.remove_dir(&path(&["a", "b"])).unwrap();
    fs.remove_dir(&path(&["a"])).unwrap();
    assert_eq!(fs.len(), 0);
}
