use notefs::model::FileSystem;
use notefs::plan::{move_empty_dir_by_plan, move_file_by_plan, relocation_plan, FsAction};

fn p(parts: &[&str]) -> Vec<String> {
    parts.iter().map(|s| s.to_string()).collect()
}

fn tree_fixture() -> FileSystem {
    let mut fs = FileSystem::new();
    assert_eq!(fs.create_dir_all(&p(&["a", "b"]), 10), Ok(()));
    assert_eq!(fs.create_dir_all(&p(&["a", "c"]), 11), Ok(()));
    assert_eq!(fs.create_file(&p(&["a", "b", "file1.txt"]), b"one".to_vec(), 12), Ok(()));
    assert_eq!(fs.create_file(&p(&["a", "c", "file2.txt"]), b"two".to_vec(), 13), Ok(()));
    fs
}

#[test]
fn plan_execution_matches_relocation_on_the_model() {
    // Executing the plan step by step — as the binary does on the real
    // filesystem — must agree with the one-shot relocation.
    let mut direct = tree_fixture();
    let mut planned = tree_fixture();
    let sub_dirs = vec![p(&["b"]), p(&["c"])];
    let sub_files = vec![p(&["b", "file1.txt"]), p(&["c", "file2.txt"])];
    let plan = relocation_plan(&p(&["a"]), &p(&["z"]), true, &sub_dirs, &sub_files);
    for action in &plan {
        match action {
            FsAction::EnsureDir(q) => assert_eq!(planned.create_dir_all(q, 100), Ok(())),
            FsAction::MoveFile(f, t) => assert_eq!(planned.rename_entry(f, t), Ok(())),
            FsAction::RemoveTree(q) => assert_eq!(planned.remove_tree(q), Ok(())),
        }
    }
    assert_eq!(direct.try_relocate(&p(&["a"]), &p(&["z"]), 100), Ok(()));
    let observed = [
        p(&["a"]),
        p(&["a", "b"]),
        p(&["a", "b", "file1.txt"]),
        p(&["a", "c", "file2.txt"]),
        p(&["z"]),
        p(&["z", "b"]),
        p(&["z", "c"]),
        p(&["z", "b", "file1.txt"]),
        p(&["z", "c", "file2.txt"]),
    ];
    for path in &observed {
        assert_eq!(direct.contains_path(path), planned.contains_path(path));
        assert_eq!(direct.is_dir(path), planned.is_dir(path));
        assert_eq!(direct.edit_time(path), planned.edit_time(path));
        assert_eq!(direct.read_file(path), planned.read_file(path));
    }
}

#[test]
fn moving_a_file_by_its_plan_matches_relocation() {
    let mut direct = tree_fixture();
    let mut planned = tree_fixture();
    let from = p(&["a", "b", "file1.txt"]);
    let to = p(&["n", "m", "file1.txt"]);
    assert_eq!(direct.try_relocate(&from, &to, 77), Ok(()));
    move_file_by_plan(&mut planned, &from, &to, 77);
    let observed = [
        p(&["a", "b", "file1.txt"]),
        p(&["n"]),
        p(&["n", "m"]),
        p(&["n", "m", "file1.txt"]),
    ];
    for path in &observed {
        assert_eq!(direct.contains_path(path), planned.contains_path(path));
        assert_eq!(direct.is_dir(path), planned.is_dir(path));
        assert_eq!(direct.edit_time(path), planned.edit_time(path));
        assert_eq!(direct.read_file(path), planned.read_file(path));
    }
    assert_eq!(planned.read_file(&p(&["n", "m", "file1.txt"])).unwrap(), &b"one".to_vec());
}

#[test]
fn moving_an_empty_dir_by_its_plan_matches_relocation() {
    let mut direct = FileSystem::new();
    let mut planned = FileSystem::new();
    assert_eq!(direct.create_dir_all(&p(&["hollow"]), 3), Ok(()));
    assert_eq!(planned.create_dir_all(&p(&["hollow"]), 3), Ok(()));
    assert_eq!(direct.try_relocate(&p(&["hollow"]), &p(&["new", "place"]), 42), Ok(()));
    move_empty_dir_by_plan(&mut planned, &p(&["hollow"]), &p(&["new", "place"]), 42);
    for path in &[p(&["hollow"]), p(&["new"]), p(&["new", "place"])] {
        assert_eq!(direct.contains_path(path), planned.contains_path(path));
        assert_eq!(direct.is_dir(path), planned.is_dir(path));
        assert_eq!(direct.edit_time(path), planned.edit_time(path));
    }
    assert!(planned.is_dir(&p(&["new", "place"])));
    assert!(!planned.contains_path(&p(&["hollow"])));
}

#[test]
fn plan_for_directory_source() {
    let source = p(&["a"]);
    let dest = p(&["z"]);
    let sub_dirs = vec![p(&["b"]), p(&["c"])];
    let sub_files = vec![p(&["b", "file1.txt"]), p(&["c", "file2.txt"])];
    let plan = relocation_plan(&source, &dest, true, &sub_dirs, &sub_files);
    assert_eq!(plan.len(), 6);
    match &plan[0] {
        FsAction::EnsureDir(q) => assert_eq!(q, &p(&["z"])),
        _ => panic!("the destination directory comes first"),
    }
    match &plan[1] {
        FsAction::EnsureDir(q) => assert_eq!(q, &p(&["z", "b"])),
        _ => panic!("subdirectories are created next"),
    }
    match &plan[2] {
        FsAction::EnsureDir(q) => assert_eq!(q, &p(&["z", "c"])),
        _ => panic!("subdirectories are created next"),
    }
    match &plan[3] {
        FsAction::MoveFile(f, t) => {
            assert_eq!(f, &p(&["a", "b", "file1.txt"]));
            assert_eq!(t, &p(&["z", "b", "file1.txt"]));
        },
        _ => panic!("files move after the directories exist"),
    }
    match &plan[4] {
        FsAction::MoveFile(f, t) => {
            assert_eq!(f, &p(&["a", "c", "file2.txt"]));
            assert_eq!(t, &p(&["z", "c", "file2.txt"]));
        },
        _ => panic!("files move after the directories exist"),
    }
    match &plan[5] {
        FsAction::RemoveTree(q) => assert_eq!(q, &p(&["a"])),
        _ => panic!("the source tree is removed last"),
    }
}

#[test]
fn plan_for_empty_directory_source() {
    let plan = relocation_plan(&p(&["a"]), &p(&["z"]), true, &vec![], &vec![]);
    assert_eq!(plan.len(), 2);
    match &plan[0] {
        FsAction::EnsureDir(q) => assert_eq!(q, &p(&["z"])),
        _ => panic!("the destination directory is still created"),
    }
    match &plan[1] {
        FsAction::RemoveTree(q) => assert_eq!(q, &p(&["a"])),
        _ => panic!("the source directory is still removed"),
    }
}

#[test]
fn plan_for_file_source_with_nested_destination() {
    let plan = relocation_plan(&p(&["f.txt"]), &p(&["x", "y", "g.txt"]), false, &vec![], &vec![]);
    assert_eq!(plan.len(), 2);
    match &plan[0] {
        FsAction::EnsureDir(q) => assert_eq!(q, &p(&["x", "y"])),
        _ => panic!("the destination's parent is created first"),
    }
    match &plan[1] {
        FsAction::MoveFile(f, t) => {
            assert_eq!(f, &p(&["f.txt"]));
            assert_eq!(t, &p(&["x", "y", "g.txt"]));
        },
        _ => panic!("the file then moves"),
    }
}

#[test]
fn plan_for_file_source_at_top_level() {
    let plan = relocation_plan(&p(&["f.txt"]), &p(&["g.txt"]), false, &vec![], &vec![]);
    assert_eq!(plan.len(), 1);
    match &plan[0] {
        FsAction::MoveFile(f, t) => {
            assert_eq!(f, &p(&["f.txt"]));
            assert_eq!(t, &p(&["g.txt"]));
        },
        _ => panic!("a top-level file move needs no directory"),
    }
}
