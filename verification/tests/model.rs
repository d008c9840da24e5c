use notefs::model::{EntryKind, FileSystem, FsError};

fn p(parts: &[&str]) -> Vec<String> {
    parts.iter().map(|s| s.to_string()).collect()
}

fn tree_fixture() -> FileSystem {
    // a/b/file1.txt and a/c/file2.txt
    let mut fs = FileSystem::new();
    assert_eq!(fs.create_dir_all(&p(&["a", "b"]), 10), Ok(()));
    assert_eq!(fs.create_dir_all(&p(&["a", "c"]), 11), Ok(()));
    assert_eq!(fs.create_file(&p(&["a", "b", "file1.txt"]), b"one".to_vec(), 12), Ok(()));
    assert_eq!(fs.create_file(&p(&["a", "c", "file2.txt"]), b"two".to_vec(), 13), Ok(()));
    fs
}

#[test]
fn relocate_concrete_tree() {
    // a/b/file1.txt, a/c/file2.txt; relocate a -> z
    let mut fs = tree_fixture();
    assert_eq!(fs.try_relocate(&p(&["a"]), &p(&["z"]), 100), Ok(()));
    assert_eq!(fs.read_file(&p(&["z", "b", "file1.txt"])).unwrap(), &b"one".to_vec());
    assert_eq!(fs.read_file(&p(&["z", "c", "file2.txt"])).unwrap(), &b"two".to_vec());
    assert!(fs.is_dir(&p(&["z"])));
    assert!(fs.is_dir(&p(&["z", "b"])));
    assert!(fs.is_dir(&p(&["z", "c"])));
    assert!(!fs.contains_path(&p(&["a"])));
    assert!(!fs.contains_path(&p(&["a", "b"])));
    assert!(!fs.contains_path(&p(&["a", "b", "file1.txt"])));
    assert!(!fs.contains_path(&p(&["a", "c", "file2.txt"])));
}

#[test]
fn relocate_file_creates_missing_parents() {
    let mut fs = FileSystem::new();
    assert_eq!(fs.create_file(&p(&["f.txt"]), b"payload".to_vec(), 7), Ok(()));
    assert_eq!(fs.try_relocate(&p(&["f.txt"]), &p(&["x", "y", "g.txt"]), 50), Ok(()));
    assert!(fs.is_dir(&p(&["x"])));
    assert!(fs.is_dir(&p(&["x", "y"])));
    assert_eq!(fs.read_file(&p(&["x", "y", "g.txt"])).unwrap(), &b"payload".to_vec());
    // the moved file keeps its stamp; the created parents take the new one
    assert_eq!(fs.edit_time(&p(&["x", "y", "g.txt"])), Ok(7));
    assert_eq!(fs.edit_time(&p(&["x"])), Ok(50));
    assert_eq!(fs.edit_time(&p(&["x", "y"])), Ok(50));
    assert!(!fs.contains_path(&p(&["f.txt"])));
}

#[test]
fn relocate_empty_directory() {
    let mut fs = FileSystem::new();
    assert_eq!(fs.create_dir_all(&p(&["a"]), 1), Ok(()));
    assert_eq!(fs.try_relocate(&p(&["a"]), &p(&["z", "w"]), 2), Ok(()));
    assert!(fs.is_dir(&p(&["z"])));
    assert!(fs.is_dir(&p(&["z", "w"])));
    assert!(!fs.contains_path(&p(&["a"])));
}

#[test]
fn relocate_refreshes_directory_stamps_only() {
    let mut fs = tree_fixture();
    assert_eq!(fs.try_relocate(&p(&["a"]), &p(&["z"]), 99), Ok(()));
    // directories of the image are created anew
    assert_eq!(fs.edit_time(&p(&["z"])), Ok(99));
    assert_eq!(fs.edit_time(&p(&["z", "b"])), Ok(99));
    // files keep their stamps
    assert_eq!(fs.edit_time(&p(&["z", "b", "file1.txt"])), Ok(12));
    assert_eq!(fs.edit_time(&p(&["z", "c", "file2.txt"])), Ok(13));
}

#[test]
fn relocate_deep_tree() {
    let mut fs = FileSystem::new();
    assert_eq!(fs.create_dir_all(&p(&["t", "u", "v"]), 1), Ok(()));
    assert_eq!(fs.create_file(&p(&["t", "u", "v", "deep.txt"]), b"d".to_vec(), 2), Ok(()));
    assert_eq!(fs.create_file(&p(&["t", "top.txt"]), b"t".to_vec(), 3), Ok(()));
    assert_eq!(fs.try_relocate(&p(&["t"]), &p(&["out", "moved"]), 9), Ok(()));
    assert_eq!(fs.read_file(&p(&["out", "moved", "u", "v", "deep.txt"])).unwrap(), &b"d".to_vec());
    assert_eq!(fs.read_file(&p(&["out", "moved", "top.txt"])).unwrap(), &b"t".to_vec());
    assert!(fs.is_dir(&p(&["out"])));
    assert!(fs.is_dir(&p(&["out", "moved", "u", "v"])));
    assert!(!fs.contains_path(&p(&["t"])));
    assert!(!fs.contains_path(&p(&["t", "u", "v", "deep.txt"])));
}

#[test]
fn relocate_error_cases() {
    let mut fs = tree_fixture();
    assert_eq!(fs.try_relocate(&p(&["missing"]), &p(&["z"]), 1), Err(FsError::NotFound));
    assert_eq!(fs.try_relocate(&p(&["a", "b"]), &p(&["a", "c"]), 1), Err(FsError::AlreadyExists));
    assert_eq!(fs.try_relocate(&p(&["a"]), &p(&["a", "inner"]), 1), Err(FsError::InvalidPath));
    assert_eq!(fs.try_relocate(&p(&["a"]), &p(&[]), 1), Err(FsError::InvalidPath));
    // an ancestor of the destination that exists as a file
    assert_eq!(
        fs.try_relocate(&p(&["a", "b"]), &p(&["a", "c", "file2.txt", "q"]), 1),
        Err(FsError::NotADirectory)
    );
    // a failed relocation leaves everything in place
    assert!(fs.is_dir(&p(&["a", "b"])));
    assert_eq!(fs.read_file(&p(&["a", "b", "file1.txt"])).unwrap(), &b"one".to_vec());
}

#[test]
fn edit_time_reports_not_found() {
    let mut fs = FileSystem::new();
    assert_eq!(fs.edit_time(&p(&["nowhere"])), Err(FsError::NotFound));
    assert_eq!(fs.create_file(&p(&["note.md"]), b"hi".to_vec(), 1234), Ok(()));
    assert_eq!(fs.edit_time(&p(&["note.md"])), Ok(1234));
    assert_eq!(fs.edit_time(&p(&["note.md", "x"])), Err(FsError::NotFound));
}

#[test]
fn is_dir_on_file_dir_and_missing() {
    let mut fs = FileSystem::new();
    assert_eq!(fs.create_dir_all(&p(&["d"]), 1), Ok(()));
    assert_eq!(fs.create_file(&p(&["d", "f"]), b"x".to_vec(), 2), Ok(()));
    assert!(fs.is_dir(&p(&["d"])));
    assert!(!fs.is_dir(&p(&["d", "f"])));
    assert!(!fs.is_dir(&p(&["ghost"])));
}

#[test]
fn rename_moves_subtree_and_keeps_stamps() {
    let mut fs = tree_fixture();
    assert_eq!(fs.rename_entry(&p(&["a", "b"]), &p(&["a", "renamed"])), Ok(()));
    assert_eq!(fs.read_file(&p(&["a", "renamed", "file1.txt"])).unwrap(), &b"one".to_vec());
    assert!(!fs.contains_path(&p(&["a", "b"])));
    // a plain rename keeps every stamp, the directory's included
    assert_eq!(fs.edit_time(&p(&["a", "renamed"])), Ok(10));
    assert_eq!(fs.edit_time(&p(&["a", "renamed", "file1.txt"])), Ok(12));
}

#[test]
fn rename_error_cases() {
    let mut fs = tree_fixture();
    assert_eq!(fs.rename_entry(&p(&["missing"]), &p(&["z"])), Err(FsError::NotFound));
    assert_eq!(fs.rename_entry(&p(&["a", "b"]), &p(&["a", "c"])), Err(FsError::AlreadyExists));
    assert_eq!(fs.rename_entry(&p(&["a"]), &p(&["a", "sub"])), Err(FsError::InvalidPath));
    // a rename creates no directory: missing destination parent refuses
    assert_eq!(fs.rename_entry(&p(&["a", "b"]), &p(&["q", "b"])), Err(FsError::NotFound));
    // destination parent that is a file refuses
    assert_eq!(
        fs.rename_entry(&p(&["a", "b"]), &p(&["a", "c", "file2.txt", "b"])),
        Err(FsError::NotADirectory)
    );
    assert!(fs.is_dir(&p(&["a", "b"])));
}

#[test]
fn create_file_error_cases() {
    let mut fs = FileSystem::new();
    assert_eq!(fs.create_file(&p(&[]), b"x".to_vec(), 1), Err(FsError::InvalidPath));
    assert_eq!(fs.create_file(&p(&["dir", "f"]), b"x".to_vec(), 1), Err(FsError::NotFound));
    assert_eq!(fs.create_dir_all(&p(&["dir"]), 1), Ok(()));
    assert_eq!(fs.create_file(&p(&["dir", "f"]), b"x".to_vec(), 2), Ok(()));
    assert_eq!(fs.create_file(&p(&["dir", "f"]), b"y".to_vec(), 3), Err(FsError::AlreadyExists));
    assert_eq!(
        fs.create_file(&p(&["dir", "f", "under"]), b"z".to_vec(), 4),
        Err(FsError::NotADirectory)
    );
    assert_eq!(fs.read_file(&p(&["dir", "f"])).unwrap(), &b"x".to_vec());
}

#[test]
fn create_dir_all_cases() {
    let mut fs = FileSystem::new();
    assert_eq!(fs.create_dir_all(&p(&[]), 1), Err(FsError::InvalidPath));
    assert_eq!(fs.create_dir_all(&p(&["a", "b", "c"]), 5), Ok(()));
    assert!(fs.is_dir(&p(&["a"])));
    assert!(fs.is_dir(&p(&["a", "b"])));
    assert!(fs.is_dir(&p(&["a", "b", "c"])));
    // creating it again changes nothing
    assert_eq!(fs.create_dir_all(&p(&["a", "b", "c"]), 9), Ok(()));
    assert_eq!(fs.edit_time(&p(&["a", "b", "c"])), Ok(5));
    // a file along the way refuses
    assert_eq!(fs.create_file(&p(&["a", "f"]), b"x".to_vec(), 6), Ok(()));
    assert_eq!(fs.create_dir_all(&p(&["a", "f", "sub"]), 7), Err(FsError::NotADirectory));
    assert!(!fs.contains_path(&p(&["a", "f", "sub"])));
}

#[test]
fn read_file_on_directory_and_missing() {
    let mut fs = FileSystem::new();
    assert_eq!(fs.create_dir_all(&p(&["d"]), 1), Ok(()));
    assert_eq!(fs.read_file(&p(&["d"])), Err(FsError::IsADirectory));
    assert_eq!(fs.read_file(&p(&["nope"])), Err(FsError::NotFound));
}

#[test]
fn remove_tree_removes_subtree_only() {
    let mut fs = tree_fixture();
    assert_eq!(fs.remove_tree(&p(&["a", "b"])), Ok(()));
    assert!(!fs.contains_path(&p(&["a", "b"])));
    assert!(!fs.contains_path(&p(&["a", "b", "file1.txt"])));
    assert!(fs.is_dir(&p(&["a"])));
    assert_eq!(fs.read_file(&p(&["a", "c", "file2.txt"])).unwrap(), &b"two".to_vec());
    assert_eq!(fs.remove_tree(&p(&["a", "b"])), Err(FsError::NotFound));
}

#[test]
fn entry_kind_duplicate_copies_bytes() {
    let file_kind = EntryKind::File(b"bytes".to_vec());
    match file_kind.duplicate() {
        EntryKind::File(c) => assert_eq!(c, b"bytes".to_vec()),
        EntryKind::Directory => panic!("a file must stay a file"),
    }
}
