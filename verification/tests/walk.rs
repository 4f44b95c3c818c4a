use nexcore_fs::walk::{DirEntry, FileKind, Step, WalkDir, WalkError};
use std::collections::BTreeMap;
use std::io;
use std::path::{Path, PathBuf};

/// An in-memory tree: every path with its kind.
type Tree = BTreeMap<PathBuf, FileKind>;

/// A small tree: a/b/c with a file at each level.
fn setup_tree(name: &str) -> (PathBuf, Tree) {
    let root = PathBuf::from(format!("/tmp/nexcore-fs-walk-{name}"));
    let mut tree = Tree::new();
    tree.insert(root.clone(), FileKind::Dir);
    tree.insert(root.join("a"), FileKind::Dir);
    tree.insert(root.join("a/b"), FileKind::Dir);
    tree.insert(root.join("a/b/c"), FileKind::Dir);
    tree.insert(root.join("a/file1.txt"), FileKind::File);
    tree.insert(root.join("a/b/file2.txt"), FileKind::File);
    tree.insert(root.join("a/b/c/file3.txt"), FileKind::File);
    (root, tree)
}

fn not_found() -> io::Error {
    io::Error::new(io::ErrorKind::NotFound, "no such file or directory")
}

/// Runs the walk over the in-memory tree, as a caller of the state machine does.
fn run(walk: WalkDir, root: &Path, tree: &Tree) -> Vec<Result<DirEntry, WalkError>> {
    run_with(walk, root, tree, &[], |_| true)
}

/// Runs the walk with a filter, where the listings of `unreadable` fail.
fn run_with(
    walk: WalkDir,
    root: &Path,
    tree: &Tree,
    unreadable: &[PathBuf],
    keep: impl Fn(&DirEntry) -> bool,
) -> Vec<Result<DirEntry, WalkError>> {
    let root_kind = tree.get(root).copied().ok_or_else(not_found);
    let mut state = walk.start(root_kind);
    let mut out = Vec::new();
    loop {
        match state.next_step() {
            Step::Done => break,
            Step::Yield(item) => out.push(item),
            Step::Visit(entry) => {
                if !keep(&entry) {
                    continue;
                }
                if state.needs_expansion(&entry) {
                    if unreadable.iter().any(|u| u.as_path() == entry.path()) {
                        let err = io::Error::new(io::ErrorKind::PermissionDenied, "denied");
                        state.push_read_error(entry.path().to_path_buf(), err);
                    } else {
                        let children: Vec<(PathBuf, FileKind)> = tree
                            .iter()
                            .filter(|(p, _)| p.parent() == Some(entry.path()))
                            .map(|(p, k)| (p.clone(), *k))
                            .collect();
                        for (path, kind) in children {
                            state.push_child(path, Ok(kind));
                        }
                    }
                }
                if let Some(e) = state.settle(entry) {
                    out.push(Ok(e));
                }
            }
        }
    }
    out
}

#[test]
fn walks_all_entries() {
    let (root, tree) = setup_tree("all");
    let entries: Vec<_> = run(WalkDir::new(root.clone()), &root, &tree)
        .into_iter()
        .filter_map(|e| e.ok())
        .collect();
    // root + a + a/b + a/b/c + file1 + file2 + file3
    assert!(entries.len() >= 7, "got {} entries", entries.len());
}

#[test]
fn min_depth_filters() {
    let (root, tree) = setup_tree("min");
    let entries: Vec<_> = run(WalkDir::new(root.clone()).min_depth(1), &root, &tree)
        .into_iter()
        .filter_map(|e| e.ok())
        .collect();
    for e in &entries {
        assert_ne!(e.path(), root.as_path());
    }
}

#[test]
fn max_depth_limits() {
    let (root, tree) = setup_tree("max");
    let entries: Vec<_> = run(WalkDir::new(root.clone()).max_depth(1), &root, &tree)
        .into_iter()
        .filter_map(|e| e.ok())
        .collect();
    for e in &entries {
        assert!(e.depth() <= 1, "depth {} > 1", e.depth());
    }
}

#[test]
fn nonexistent_root_yields_error() {
    let tree = Tree::new();
    let root = PathBuf::from("/nonexistent/path/xyz");
    let entries: Vec<_> = run(WalkDir::new(root.clone()), &root, &tree);
    assert_eq!(entries.len(), 1);
    assert!(entries[0].is_err());
}

#[test]
fn dir_entry_file_name() {
    let (root, tree) = setup_tree("fname");
    let files: Vec<_> = run(WalkDir::new(root.clone()), &root, &tree)
        .into_iter()
        .filter_map(|e| e.ok())
        .filter(|e| !e.file_type().is_dir())
        .collect();
    let names: Vec<_> = files
        .iter()
        .map(|e| e.path().file_name().unwrap().to_string_lossy().to_string())
        .collect();
    assert!(names.contains(&"file1.txt".to_string()));
    assert!(names.contains(&"file2.txt".to_string()));
    assert!(names.contains(&"file3.txt".to_string()));
}

// ---------------------------------------------------------------------------

fn depths(items: &[Result<DirEntry, WalkError>]) -> Vec<usize> {
    items.iter().map(|e| e.as_ref().unwrap().depth()).collect()
}

#[test]
fn walk_is_breadth_first_with_exact_depths() {
    let (root, tree) = setup_tree("bfs");
    let items = run(WalkDir::new(root.clone()), &root, &tree);
    assert_eq!(items.len(), 7);
    assert_eq!(depths(&items), vec![0, 1, 2, 2, 3, 3, 4]);
    assert_eq!(items[0].as_ref().unwrap().path(), root.as_path());
}

#[test]
fn depth_window_is_exact() {
    let (root, tree) = setup_tree("window");
    let items = run(WalkDir::new(root.clone()).min_depth(2).max_depth(3), &root, &tree);
    assert_eq!(depths(&items), vec![2, 2, 3, 3]);
    let items = run(WalkDir::new(root.clone()).max_depth(0), &root, &tree);
    assert_eq!(depths(&items), vec![0]);
}

#[test]
fn contents_first_yields_directories_after_their_contents() {
    let (root, tree) = setup_tree("cf");
    let items = run(WalkDir::new(root.clone()).contents_first(true), &root, &tree);
    let paths: Vec<PathBuf> = items.into_iter().map(|e| e.unwrap().into_path()).collect();
    assert_eq!(paths.len(), 7);
    for (i, p) in paths.iter().enumerate() {
        if tree[p] == FileKind::Dir {
            for q in &paths[i + 1..] {
                assert!(!q.starts_with(p), "{} came after its directory {}", q.display(), p.display());
            }
        }
    }
    assert_eq!(paths.last().unwrap(), &root);
}

#[test]
fn root_error_carries_the_root_path() {
    let root = PathBuf::from("/nonexistent/path/xyz");
    let mut state = WalkDir::new(root.clone()).start(Err(not_found()));
    match state.next_step() {
        Step::Yield(Err(e)) => {
            assert_eq!(e.path(), Some(root.as_path()));
            assert_eq!(e.io_error().kind(), io::ErrorKind::NotFound);
            let as_io: io::Error = e.into();
            assert_eq!(as_io.kind(), io::ErrorKind::NotFound);
        }
        other => panic!("unexpected step {other:?}"),
    }
    assert!(matches!(state.next_step(), Step::Done));
}

#[test]
fn child_errors_are_queued_at_their_paths() {
    let root = PathBuf::from("/r");
    let mut state = WalkDir::new(root.clone()).start(Ok(FileKind::Dir));
    let entry = match state.next_step() {
        Step::Visit(e) => e,
        other => panic!("unexpected step {other:?}"),
    };
    assert!(state.needs_expansion(&entry));
    state.push_child(root.join("x"), Err(not_found()));
    state.push_read_error(root.clone(), io::Error::new(io::ErrorKind::PermissionDenied, "denied"));
    state.push_child(root.join("f"), Ok(FileKind::File));
    assert!(state.settle(entry).is_some());
    match state.next_step() {
        Step::Yield(Err(e)) => assert_eq!(e.path(), Some(root.join("x").as_path())),
        other => panic!("unexpected step {other:?}"),
    }
    match state.next_step() {
        Step::Yield(Err(e)) => {
            assert_eq!(e.path(), Some(root.as_path()));
            assert_eq!(e.io_error().kind(), io::ErrorKind::PermissionDenied);
        }
        other => panic!("unexpected step {other:?}"),
    }
    match state.next_step() {
        Step::Visit(e) => {
            assert_eq!(e.depth(), 1);
            assert!(e.file_type().is_file());
            assert!(!state.needs_expansion(&e));
        }
        other => panic!("unexpected step {other:?}"),
    }
}

#[test]
fn into_io_error_gives_the_cause() {
    let mut state = WalkDir::new(PathBuf::from("/gone")).start(Err(not_found()));
    match state.next_step() {
        Step::Yield(Err(e)) => assert_eq!(e.into_io_error().kind(), io::ErrorKind::NotFound),
        other => panic!("unexpected step {other:?}"),
    }
}

#[test]
fn builder_keeps_the_root() {
    let w = WalkDir::new(PathBuf::from("/some/root")).min_depth(2).max_depth(5).follow_links(true).contents_first(true);
    assert_eq!(w.root(), Path::new("/some/root"));
}

#[test]
fn front_entry_and_skip_front() {
    let root = PathBuf::from("/r");
    let mut state = WalkDir::new(root.clone()).start(Ok(FileKind::Dir));
    assert_eq!(state.front_entry().unwrap().path(), root.as_path());
    state.skip_front();
    assert!(state.front_entry().is_none());
    assert!(matches!(state.next_step(), Step::Done));
}

#[test]
fn file_kind_predicates() {
    assert!(FileKind::Dir.is_dir() && !FileKind::Dir.is_file());
    assert!(FileKind::File.is_file() && !FileKind::File.is_symlink());
    assert!(FileKind::Symlink.is_symlink() && !FileKind::Symlink.is_dir());
    assert!(!FileKind::Other.is_dir() && !FileKind::Other.is_file() && !FileKind::Other.is_symlink());
}

fn ok_paths(items: &[Result<DirEntry, WalkError>]) -> Vec<PathBuf> {
    items.iter().filter_map(|e| e.as_ref().ok()).map(|e| e.path().to_path_buf()).collect()
}

#[test]
fn filter_prunes_whole_subtrees() {
    let (root, tree) = setup_tree("prune");
    let cut = root.join("a/b");
    let items = run_with(WalkDir::new(root.clone()), &root, &tree, &[], |e| e.path() != cut.as_path());
    let paths = ok_paths(&items);
    assert_eq!(paths, vec![root.clone(), root.join("a"), root.join("a/file1.txt")]);
    assert!(paths.iter().all(|p| !p.starts_with(&cut)));
}

#[test]
fn filter_prunes_above_min_depth() {
    let (root, tree) = setup_tree("prune-min");
    let cut = root.join("a");
    let items = run_with(WalkDir::new(root.clone()).min_depth(2), &root, &tree, &[], |e| e.path() != cut.as_path());
    assert!(items.is_empty());
}

#[test]
fn shallow_entries_are_still_traversed() {
    let (root, tree) = setup_tree("shallow");
    let items = run(WalkDir::new(root.clone()).min_depth(4), &root, &tree);
    assert_eq!(ok_paths(&items), vec![root.join("a/b/c/file3.txt")]);
}

#[test]
fn read_error_is_yielded_once_and_the_walk_goes_on() {
    let (root, tree) = setup_tree("readerr");
    let bad = root.join("a/b");
    let items = run_with(WalkDir::new(root.clone()), &root, &tree, &[bad.clone()], |_| true);
    let errors: Vec<&WalkError> = items.iter().filter_map(|e| e.as_ref().err()).collect();
    assert_eq!(errors.len(), 1);
    assert_eq!(errors[0].path(), Some(bad.as_path()));
    assert_eq!(errors[0].io_error().kind(), io::ErrorKind::PermissionDenied);
    assert_eq!(
        ok_paths(&items),
        vec![root.clone(), root.join("a"), bad.clone(), root.join("a/file1.txt")]
    );
}

#[test]
fn read_error_is_yielded_whatever_min_depth() {
    let (root, tree) = setup_tree("readerr-min");
    let bad = root.join("a");
    let items = run_with(WalkDir::new(root.clone()).min_depth(3), &root, &tree, &[bad.clone()], |_| true);
    assert_eq!(items.len(), 1);
    assert_eq!(items[0].as_ref().err().unwrap().path(), Some(bad.as_path()));
}
