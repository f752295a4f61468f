use worktree::changes::{changes, PathChange};
use worktree::entry::EntryKind;
use worktree::glob::{Glob, GlobSet};
use worktree::ignore::{parse_gitignore, IgnoreStack};
use worktree::path::RelPath;
use worktree::repository::{
    git_summary, repository_for_path, status_for_file, FileStatus, GitSummary, Repository, StatusCode,
    StatusEntry, TrackedStatus, TrackedSummary, UnmergedStatus, UnmergedStatusCode, WorkDirectory,
};
use worktree::snapshot::{Snapshot, UpdateError};
use worktree::worktree::{ChildStat, ScanSettings, Worktree, WorktreeError};

fn p(s: &str) -> RelPath {
    RelPath::parse(s.as_bytes())
}

fn text(path: &RelPath) -> String {
    String::from_utf8(path.to_bytes()).unwrap()
}

fn texts(paths: &[RelPath]) -> Vec<String> {
    paths.iter().map(text).collect()
}

fn file(name: &str, inode: u64) -> ChildStat {
    ChildStat {
        name: name.as_bytes().to_vec(),
        is_dir: false,
        inode,
        mtime: 1,
        size: 0,
        is_symlink: false,
        is_external: false,
    }
}

fn dir(name: &str, inode: u64) -> ChildStat {
    ChildStat { is_dir: true, ..file(name, inode) }
}

fn globs(patterns: &[&str]) -> GlobSet {
    let mut set = GlobSet::empty();
    for pattern in patterns {
        set.add(pattern.as_bytes());
    }
    set
}

fn settings(exclusions: &[&str], inclusions: &[&str], private_files: &[&str]) -> ScanSettings {
    ScanSettings {
        exclusions: globs(exclusions),
        inclusions: globs(inclusions),
        private_files: globs(private_files),
    }
}

fn plain_tree() -> Worktree {
    Worktree::new(true, 1, 0, 0, settings(&[], &[], &[]))
}

fn listing(tree: &Worktree, include_ignored: bool) -> Vec<String> {
    texts(&tree.entries(include_ignored))
}

/// Builds a tree of read directories and files by creating each path in turn.
fn tree_with(paths: &[(&str, bool)]) -> Worktree {
    let mut tree = plain_tree();
    tree.populate_dir(&RelPath::root(), &vec![], &IgnoreStack::new()).unwrap();
    for (i, (path, is_dir)) in paths.iter().enumerate() {
        tree.create_entry(&p(path), *is_dir, 100 + i as u64, 0, &IgnoreStack::new()).unwrap();
    }
    tree
}

fn added() -> GitSummary {
    GitSummary { index: TrackedSummary::added(), count: 1, ..GitSummary::unchanged() }
}

fn modified() -> GitSummary {
    GitSummary { index: TrackedSummary::modified(), count: 1, ..GitSummary::unchanged() }
}

fn conflict_status() -> FileStatus {
    FileStatus::Unmerged(UnmergedStatus {
        first_head: UnmergedStatusCode::Updated,
        second_head: UnmergedStatusCode::Updated,
    })
}

fn repo(work_directory: WorkDirectory, statuses: &[(&str, FileStatus)]) -> Repository {
    Repository {
        work_directory,
        statuses: statuses
            .iter()
            .map(|(path, status)| StatusEntry { repo_path: p(path), status: *status })
            .collect(),
        merge_conflicts: vec![],
    }
}

// ---- paths ----

#[test]
fn parse_and_print_paths() {
    assert_eq!(text(&p("a/b/c")), "a/b/c");
    assert_eq!(text(&p("/a//b/")), "a/b");
    assert_eq!(p("").depth(), 0);
    assert!(p("").is_root());
    assert_eq!(p("a/b").parent().to_bytes(), b"a".to_vec());
    assert_eq!(text(&p("a").join(&b"b".to_vec())), "a/b");
    assert_eq!(text(&p("a/b").append(&p("c/d"))), "a/b/c/d");
    assert_eq!(p("a/b").file_name(), Some(b"b".to_vec()));
    assert_eq!(p("").file_name(), None);
}

#[test]
fn path_order_is_depth_first() {
    // A directory is followed by its contents before a sibling that sorts
    // after it by bytes only because of the separator.
    assert!(p("a/b").path_lt(&p("a-c")));
    assert!(p("a").path_lt(&p("a/b")));
    assert!(p("").path_lt(&p("a")));
    assert!(!p("a/b").path_lt(&p("a/b")));
    assert!(p("a/b").path_lt(&p("a/c")));
    assert!(!p("b").path_lt(&p("a/z")));
    assert!(p("a/b").starts_with(&p("a")));
    assert!(!p("ab").starts_with(&p("a")));
    assert!(p("a/b").path_eq(&p("a/b")));
}

// ---- globs and gitignore ----

#[test]
fn glob_matching() {
    let g = Glob::parse(b"**/.DS_Store");
    assert!(g.is_match(&p(".DS_Store")));
    assert!(g.is_match(&p("src/.DS_Store")));
    assert!(!g.is_match(&p("src/.DS_Store2")));
    let g = Glob::parse(b"src/*.rs");
    assert!(g.is_match(&p("src/main.rs")));
    assert!(!g.is_match(&p("src/a/main.rs")));
    assert!(!g.is_match(&p("main.rs")));
    let g = Glob::parse(b"a?c");
    assert!(g.is_match(&p("abc")));
    assert!(!g.is_match(&p("ac")));
    let set = globs(&["**/target", "*.log"]);
    assert!(set.is_match(&p("x/target")));
    assert!(set.is_match(&p("build.log")));
    assert!(!set.is_match(&p("x/build.log")));
}

#[test]
fn gitignore_rules() {
    let rules = parse_gitignore(b"# comment\n\nnode_modules\n!keep.js\nbuild/\n/top\n");
    assert_eq!(rules.len(), 4);
    assert!(rules[1].negated);
    assert!(rules[2].dir_only);
    let mut stack = IgnoreStack::new();
    stack.push(RelPath::root(), b"node_modules\n*.js\n!keep.js\nbuild/\n/top\n");
    assert!(stack.is_ignored(&p("one/node_modules"), true));
    assert!(stack.is_ignored(&p("a.js"), false));
    assert!(!stack.is_ignored(&p("keep.js"), false));
    assert!(stack.is_ignored(&p("x/build"), true));
    assert!(!stack.is_ignored(&p("x/build"), false));
    assert!(stack.is_ignored(&p("top"), true));
    assert!(!stack.is_ignored(&p("x/top"), true));
    // A deeper file decides first.
    stack.push(p("sub"), b"!b.js\n");
    assert!(!stack.is_ignored(&p("sub/b.js"), false));
    assert!(stack.is_ignored(&p("sub/c.js"), false));
}

// ---- scanning ----

#[test]
fn test_traversal() {
    let mut tree = plain_tree();
    let mut ignores = IgnoreStack::new();
    ignores.push(RelPath::root(), b"a/b\n");
    tree.populate_dir(&RelPath::root(), &vec![file(".gitignore", 2), dir("a", 3)], &ignores).unwrap();
    tree.populate_dir(&p("a"), &vec![file("b", 4), file("c", 5)], &ignores).unwrap();
    assert_eq!(listing(&tree, false), vec!["", ".gitignore", "a", "a/c"]);
    assert_eq!(listing(&tree, true), vec!["", ".gitignore", "a", "a/b", "a/c"]);
}

#[test]
fn populate_reports_directories_to_read() {
    let mut tree = plain_tree();
    let mut ignores = IgnoreStack::new();
    ignores.push(RelPath::root(), b"node_modules\n");
    let to_read = tree
        .populate_dir(&RelPath::root(), &vec![dir("src", 2), dir("node_modules", 3), file("a.txt", 4)], &ignores)
        .unwrap();
    assert_eq!(texts(&to_read), vec!["src"]);
    assert_eq!(tree.entry_for_path(&p("node_modules")).unwrap().kind, EntryKind::UnloadedDir);
    assert!(tree.entry_for_path(&p("node_modules")).unwrap().is_ignored);
    assert_eq!(tree.entry_for_path(&p("src")).unwrap().kind, EntryKind::PendingDir);
    assert_eq!(tree.entry_for_path(&RelPath::root()).unwrap().kind, EntryKind::Dir);
}

#[test]
fn populate_errors() {
    let mut tree = plain_tree();
    let ignores = IgnoreStack::new();
    assert_eq!(tree.populate_dir(&p("missing"), &vec![], &ignores).err(), Some(WorktreeError::NotFound));
    tree.populate_dir(&RelPath::root(), &vec![file("f", 2)], &ignores).unwrap();
    assert_eq!(tree.populate_dir(&p("f"), &vec![], &ignores).err(), Some(WorktreeError::NotADirectory));
}

#[test]
fn rescan_keeps_ids_and_drops_vanished_children() {
    let mut tree = plain_tree();
    let ignores = IgnoreStack::new();
    tree.populate_dir(&RelPath::root(), &vec![file("a", 2), file("b", 3), dir("d", 4)], &ignores).unwrap();
    tree.populate_dir(&p("d"), &vec![file("x", 5)], &ignores).unwrap();
    let id_a = tree.entry_for_path(&p("a")).unwrap().id;
    let id_b = tree.entry_for_path(&p("b")).unwrap().id;
    // `a` is unchanged, `b` was replaced by another file, `d` is gone.
    tree.populate_dir(&RelPath::root(), &vec![file("a", 2), file("b", 9)], &ignores).unwrap();
    assert_eq!(tree.entry_for_path(&p("a")).unwrap().id, id_a);
    assert_ne!(tree.entry_for_path(&p("b")).unwrap().id, id_b);
    assert_eq!(listing(&tree, true), vec!["", "a", "b"]);
}

#[test]
fn test_renaming_case_only() {
    let mut tree = plain_tree();
    let ignores = IgnoreStack::new();
    tree.populate_dir(&RelPath::root(), &vec![file("aaa.rs", 7)], &ignores).unwrap();
    assert_eq!(listing(&tree, true), vec!["", "aaa.rs"]);
    tree.populate_dir(&RelPath::root(), &vec![file("AAA.rs", 7)], &ignores).unwrap();
    assert_eq!(listing(&tree, true), vec!["", "AAA.rs"]);
}

#[test]
fn symlink_cycle_is_detected() {
    let mut tree = plain_tree();
    let ignores = IgnoreStack::new();
    tree.populate_dir(&RelPath::root(), &vec![dir("lib", 2)], &ignores).unwrap();
    tree.populate_dir(&p("lib"), &vec![dir("a", 3), dir("b", 4)], &ignores).unwrap();
    let mut lib_link = dir("lib", 2);
    lib_link.is_symlink = true;
    tree.populate_dir(&p("lib/a"), &vec![file("a.txt", 5), lib_link], &ignores).unwrap();
    assert!(tree.repeats_ancestor(&p("lib/a/lib")));
    assert!(!tree.repeats_ancestor(&p("lib/a")));
    assert!(!tree.repeats_ancestor(&p("lib/a/a.txt")));
    assert!(tree.entry_for_path(&p("lib/a/lib")).unwrap().is_symlink);
}

#[test]
fn test_symlinks_pointing_outside() {
    let mut tree = plain_tree();
    let ignores = IgnoreStack::new();
    let mut dep_dir2 = dir("dep-dir2", 20);
    dep_dir2.is_symlink = true;
    dep_dir2.is_external = true;
    let mut dep_dir3 = dir("dep-dir3", 30);
    dep_dir3.is_symlink = true;
    dep_dir3.is_external = true;
    tree.populate_dir(&RelPath::root(), &vec![dir("deps", 2), dir("src", 3)], &ignores).unwrap();
    assert!(tree.populate_dir(&p("deps"), &vec![dep_dir2, dep_dir3], &ignores).unwrap().is_empty());
    tree.populate_dir(&p("src"), &vec![file("a.rs", 4), file("b.rs", 5)], &ignores).unwrap();
    assert_eq!(
        listing(&tree, true),
        vec!["", "deps", "deps/dep-dir2", "deps/dep-dir3", "src", "src/a.rs", "src/b.rs"]
    );
    for path in ["deps/dep-dir2", "deps/dep-dir3"] {
        let e = tree.entry_for_path(&p(path)).unwrap();
        assert!(e.is_external);
        assert_eq!(e.kind, EntryKind::UnloadedDir);
    }

    // Refreshing deps/dep-dir3 reads it alone; what it holds is outside too.
    let before = tree.snapshot();
    let to_read = tree.populate_dir(&p("deps/dep-dir3"), &vec![dir("deps", 31), dir("src", 32)], &ignores).unwrap();
    assert!(to_read.is_empty());
    let events: Vec<(String, PathChange)> =
        changes(&before, &tree.snapshot()).iter().map(|c| (text(&c.path), c.kind)).collect();
    assert_eq!(
        events,
        vec![
            ("deps/dep-dir3".to_string(), PathChange::Loaded),
            ("deps/dep-dir3/deps".to_string(), PathChange::Loaded),
            ("deps/dep-dir3/src".to_string(), PathChange::Loaded),
        ]
    );
    let src = tree.entry_for_path(&p("deps/dep-dir3/src")).unwrap();
    assert!(src.is_external);
    assert_eq!(src.kind, EntryKind::UnloadedDir);

    // Then deps/dep-dir3/src.
    let before = tree.snapshot();
    tree.populate_dir(&p("deps/dep-dir3/src"), &vec![file("e.rs", 33), file("f.rs", 34)], &ignores).unwrap();
    let events: Vec<(String, PathChange)> =
        changes(&before, &tree.snapshot()).iter().map(|c| (text(&c.path), c.kind)).collect();
    assert_eq!(
        events,
        vec![
            ("deps/dep-dir3/src".to_string(), PathChange::Loaded),
            ("deps/dep-dir3/src/e.rs".to_string(), PathChange::Loaded),
            ("deps/dep-dir3/src/f.rs".to_string(), PathChange::Loaded),
        ]
    );
    assert!(tree.entry_for_path(&p("deps/dep-dir3/src/e.rs")).unwrap().is_external);
    // dep-dir2 was never read.
    assert_eq!(tree.entry_for_path(&p("deps/dep-dir2")).unwrap().kind, EntryKind::UnloadedDir);
    assert!(!tree.needs_read(&p("deps/dep-dir2/src")));
}

#[test]
fn test_open_gitignored_files() {
    let mut tree = plain_tree();
    let mut ignores = IgnoreStack::new();
    ignores.push(RelPath::root(), b"node_modules\n");
    tree.populate_dir(&RelPath::root(), &vec![file(".gitignore", 2), dir("one", 3), dir("two", 4)], &ignores)
        .unwrap();
    tree.populate_dir(&p("one"), &vec![dir("node_modules", 5)], &ignores).unwrap();
    tree.populate_dir(&p("two"), &vec![file("x.js", 6), file("y.js", 7)], &ignores).unwrap();
    assert_eq!(tree.entry_for_path(&p("one/node_modules")).unwrap().kind, EntryKind::UnloadedDir);

    // Loading one/node_modules/b/b1.js reads only its two unread ancestors.
    let target = p("one/node_modules/b/b1.js");
    let mut reads = Vec::new();
    while let Some(next) = tree.next_dir_to_load(&target) {
        let listing = match text(&next).as_str() {
            "one/node_modules" => vec![dir("a", 8), dir("b", 9), dir("c", 10)],
            "one/node_modules/b" => vec![file("b1.js", 11), file("b2.js", 12)],
            other => panic!("unexpected read of {}", other),
        };
        tree.populate_dir(&next, &listing, &ignores).unwrap();
        reads.push(text(&next));
    }
    assert_eq!(reads, vec!["one/node_modules", "one/node_modules/b"]);
    // A second file in an unread sibling needs one more read.
    assert_eq!(text(&tree.next_dir_to_load(&p("one/node_modules/a/a2.js")).unwrap()), "one/node_modules/a");
    let b1 = tree.entry_for_path(&p("one/node_modules/b/b1.js")).unwrap();
    assert!(b1.is_ignored);
    assert_eq!(tree.entry_for_path(&p("one/node_modules/a")).unwrap().kind, EntryKind::UnloadedDir);
    assert!(tree.entry_for_path(&p("one/node_modules/a/a1.js")).is_none());
    assert!(!tree.needs_read(&p("one/node_modules/a/a1.js")));
}

#[test]
fn directory_no_longer_ignored_is_read_again() {
    let mut tree = plain_tree();
    let mut ignores = IgnoreStack::new();
    ignores.push(RelPath::root(), b"node_modules\n");
    let children = vec![file(".gitignore", 2), dir("a", 3), dir("node_modules", 4)];
    tree.populate_dir(&RelPath::root(), &children, &ignores).unwrap();
    assert_eq!(tree.entry_for_path(&p("node_modules")).unwrap().kind, EntryKind::UnloadedDir);
    // The rule goes away: the directory becomes one to read, once.
    let to_read = tree.populate_dir(&RelPath::root(), &children, &IgnoreStack::new()).unwrap();
    assert_eq!(texts(&to_read), vec!["a", "node_modules"]);
    assert!(!tree.entry_for_path(&p("node_modules")).unwrap().is_ignored);
    assert_eq!(tree.entry_for_path(&p("node_modules")).unwrap().kind, EntryKind::PendingDir);
}

#[test]
fn events_below_unread_directory_read_nothing() {
    let mut tree = plain_tree();
    let mut ignores = IgnoreStack::new();
    ignores.push(RelPath::root(), b"target\n");
    tree.populate_dir(&RelPath::root(), &vec![dir("target", 2), dir("src", 3)], &ignores).unwrap();
    assert!(!tree.needs_read(&p("target")));
    assert!(!tree.needs_read(&p("target/debug")));
    assert!(!tree.needs_read(&p("target/debug/build")));
    assert!(tree.needs_read(&p("src")));
    assert!(tree.needs_read(&RelPath::root()));
}

#[test]
fn test_file_scan_exclusions_overrules_inclusions() {
    let mut tree = Worktree::new(true, 1, 0, 0, settings(&["**/.DS_Store"], &["**/.DS_Store"], &[]));
    let ignores = IgnoreStack::new();
    tree.populate_dir(&RelPath::root(), &vec![file(".DS_Store", 2), dir("src", 3)], &ignores).unwrap();
    tree.populate_dir(&p("src"), &vec![file(".DS_Store", 4), file("main.rs", 5)], &ignores).unwrap();
    assert!(tree.entry_for_path(&p(".DS_Store")).is_none());
    assert!(tree.entry_for_path(&p("src/.DS_Store")).is_none());
    assert_eq!(listing(&tree, true), vec!["", "src", "src/main.rs"]);
}

#[test]
fn inclusion_overrides_gitignore_and_marks_private() {
    let mut tree = Worktree::new(true, 1, 0, 0, settings(&[], &["**/.env"], &["**/.env"]));
    let mut ignores = IgnoreStack::new();
    ignores.push(RelPath::root(), b".env\n");
    tree.populate_dir(&RelPath::root(), &vec![file(".env", 2), file("a", 3)], &ignores).unwrap();
    let env = tree.entry_for_path(&p(".env")).unwrap();
    assert!(env.is_always_included);
    assert!(!env.is_ignored);
    assert!(env.is_private);
    assert_eq!(listing(&tree, false), vec!["", ".env", "a"]);
}

#[test]
fn test_private_single_file_worktree() {
    let tree = Worktree::new(false, 1, 0, 0, settings(&[], &[], &["**"]));
    let entry = tree.entry_for_path(&RelPath::root()).unwrap();
    assert!(entry.is_private);
    assert_eq!(entry.kind, EntryKind::File);
}

// ---- user operations ----

#[test]
fn create_dir_all_on_create_entry() {
    let mut tree = tree_with(&[]);
    let id = tree.create_entry(&p("a/b/c/d.txt"), false, 9, 0, &IgnoreStack::new()).unwrap().unwrap();
    assert_eq!(listing(&tree, true), vec!["", "a", "a/b", "a/b/c", "a/b/c/d.txt"]);
    assert_eq!(tree.entry_for_path(&p("a/b")).unwrap().kind, EntryKind::Dir);
    assert_eq!(tree.entry_for_path(&p("a/b/c/d.txt")).unwrap().id, id);
    assert_eq!(
        tree.create_entry(&p("a/b"), true, 9, 0, &IgnoreStack::new()),
        Err(WorktreeError::AlreadyExists)
    );
    assert_eq!(
        tree.create_entry(&p("a/b/c/d.txt/e"), false, 9, 0, &IgnoreStack::new()),
        Err(WorktreeError::NotADirectory)
    );
}

#[test]
fn create_excluded_entry_gives_none() {
    let mut tree = Worktree::new(true, 1, 0, 0, settings(&["**/target"], &[], &[]));
    tree.populate_dir(&RelPath::root(), &vec![], &IgnoreStack::new()).unwrap();
    assert_eq!(tree.create_entry(&p("target/x"), false, 2, 0, &IgnoreStack::new()), Ok(None));
    assert_eq!(listing(&tree, true), vec![""]);
}

#[test]
fn create_then_delete_restores_entries() {
    let mut tree = tree_with(&[("a", true), ("a/x", false)]);
    let before = listing(&tree, true);
    let id = tree.create_entry(&p("a/new"), false, 50, 0, &IgnoreStack::new()).unwrap().unwrap();
    assert_eq!(listing(&tree, true), vec!["", "a", "a/new", "a/x"]);
    tree.delete_entry(id).unwrap();
    assert_eq!(listing(&tree, true), before);
    assert_eq!(tree.delete_entry(id), Err(WorktreeError::NotFound));
    let root_id = tree.entry_for_path(&RelPath::root()).unwrap().id;
    assert_eq!(tree.delete_entry(root_id), Err(WorktreeError::IsRoot));
}

#[test]
fn rename_there_and_back_keeps_id() {
    let mut tree = tree_with(&[("a", true), ("a/x", false), ("b", true)]);
    let id = tree.entry_for_path(&p("a")).unwrap().id;
    let child = tree.entry_for_path(&p("a/x")).unwrap().id;
    tree.rename_entry(id, &p("b/c")).unwrap();
    assert_eq!(listing(&tree, true), vec!["", "b", "b/c", "b/c/x"]);
    assert_eq!(tree.entry_for_path(&p("b/c")).unwrap().id, id);
    assert_eq!(tree.entry_for_path(&p("b/c/x")).unwrap().id, child);
    tree.rename_entry(id, &p("a")).unwrap();
    assert_eq!(listing(&tree, true), vec!["", "a", "a/x", "b"]);
    assert_eq!(tree.entry_for_path(&p("a")).unwrap().id, id);
    assert_eq!(tree.entry_for_path(&p("a/x")).unwrap().id, child);
}

#[test]
fn rename_errors() {
    let mut tree = tree_with(&[("a", true), ("a/x", false), ("b", false)]);
    let a = tree.entry_for_path(&p("a")).unwrap().id;
    assert_eq!(tree.rename_entry(a, &p("a/x/y")), Err(WorktreeError::IntoItself));
    assert_eq!(tree.rename_entry(a, &p("b")), Err(WorktreeError::AlreadyExists));
    assert_eq!(tree.rename_entry(a, &p("b/c")), Err(WorktreeError::NotADirectory));
    assert_eq!(tree.rename_entry(a, &p("q/c")), Err(WorktreeError::NotFound));
    assert_eq!(tree.rename_entry(9999, &p("z")), Err(WorktreeError::NotFound));
    let root = tree.entry_for_path(&RelPath::root()).unwrap().id;
    assert_eq!(tree.rename_entry(root, &p("z")), Err(WorktreeError::IsRoot));
    assert_eq!(listing(&tree, true), vec!["", "a", "a/x", "b"]);
}

#[test]
fn ids_are_unique() {
    let tree = tree_with(&[("a", true), ("a/x", false), ("b", false), ("c", true), ("c/d", true)]);
    let mut ids: Vec<u64> = (0..tree.entry_count()).map(|i| tree.entry_at(i).id).collect();
    let n = ids.len();
    ids.sort();
    ids.dedup();
    assert_eq!(ids.len(), n);
}

#[test]
fn remove_path_takes_subtree() {
    let mut tree = tree_with(&[("a", true), ("a/x", false), ("a/y", true), ("a/y/z", false), ("ab", false)]);
    assert_eq!(tree.remove_path(&p("a")), Ok(4));
    assert_eq!(listing(&tree, true), vec!["", "ab"]);
    assert_eq!(tree.remove_path(&RelPath::root()), Err(WorktreeError::IsRoot));
    assert_eq!(tree.remove_path(&p("missing")), Ok(0));
}

// ---- snapshots and updates ----

#[test]
fn remote_snapshot_follows_updates() {
    let mut tree = tree_with(&[("a", true), ("a/x", false)]);
    let first = tree.snapshot();
    let mut replica = first.copy();
    tree.create_entry(&p("a/y"), false, 60, 0, &IgnoreStack::new()).unwrap();
    let x = tree.entry_for_path(&p("a/x")).unwrap().id;
    tree.delete_entry(x).unwrap();
    let update = tree.complete_scan(&first).unwrap();
    assert_eq!(update.base_scan_id, first.scan_id);
    assert_eq!(update.scan_id, first.scan_id + 1);
    assert_eq!(replica.apply_remote_update(&update), Ok(()));
    assert_eq!(texts(&replica.store.paths(true)), listing(&tree, true));
    assert_eq!(replica.scan_id, update.scan_id);
    // Applying it again changes nothing.
    assert_eq!(replica.apply_remote_update(&update), Ok(()));
    assert_eq!(texts(&replica.store.paths(true)), listing(&tree, true));
}

#[test]
fn out_of_order_update_is_refused() {
    let mut tree = tree_with(&[("a", false)]);
    let first = tree.snapshot();
    tree.create_entry(&p("b"), false, 61, 0, &IgnoreStack::new()).unwrap();
    tree.complete_scan(&first).unwrap();
    tree.create_entry(&p("c"), false, 62, 0, &IgnoreStack::new()).unwrap();
    let later_base = tree.snapshot();
    let update = tree.complete_scan(&later_base).unwrap();
    let mut replica = first.copy();
    assert_eq!(replica.apply_remote_update(&update), Err(UpdateError::OutOfOrder));
    assert_eq!(texts(&replica.store.paths(true)), vec!["", "a"]);
}

#[test]
fn test_random_worktree_changes() {
    let mut seed: u64 = 7;
    let mut next = move |n: u64| {
        seed = seed.wrapping_mul(6364136223846793005).wrapping_add(1442695040888963407);
        (seed >> 33) % n
    };
    let mut tree = tree_with(&[("d0", true)]);
    let mut replica: Snapshot = tree.snapshot();
    for round in 0..20u64 {
        let previous = tree.snapshot();
        for step in 0..5u64 {
            let count = tree.entry_count() as u64;
            match next(3) {
                0 => {
                    let parent = tree.entry_at(next(count) as usize).path.copy();
                    let name = format!("n{}_{}", round, step);
                    let path = parent.join(&name.as_bytes().to_vec());
                    let _ = tree.create_entry(&path, next(2) == 0, 1000 + round * 10 + step, round, &IgnoreStack::new());
                }
                1 => {
                    let id = tree.entry_at(next(count) as usize).id;
                    let _ = tree.delete_entry(id);
                }
                _ => {
                    let id = tree.entry_at(next(count) as usize).id;
                    let target = tree.entry_at(next(count) as usize).path.copy();
                    let name = format!("r{}_{}", round, step);
                    let _ = tree.rename_entry(id, &target.join(&name.as_bytes().to_vec()));
                }
            }
        }
        let update = tree.complete_scan(&previous).unwrap();
        replica.apply_remote_update(&update).unwrap();
        let current = tree.snapshot();
        assert_eq!(texts(&replica.store.paths(true)), texts(&current.store.paths(true)));
        for i in 0..current.store.len() {
            let e = current.store.entry_at(i);
            assert!(replica.store.get(&e.path).unwrap().same_as(e));
        }
    }
}

// ---- git ----

#[test]
fn test_unrelativize() {
    let work_directory = WorkDirectory::in_project(b"");
    assert_eq!(text(&work_directory.try_unrelativize(&p("crates/gpui/gpui.rs")).unwrap()), "crates/gpui/gpui.rs");

    let work_directory = WorkDirectory::in_project(b"vendor/some-submodule");
    assert_eq!(
        text(&work_directory.try_unrelativize(&p("src/thing.c")).unwrap()),
        "vendor/some-submodule/src/thing.c"
    );

    let work_directory = WorkDirectory::above_project(b"/projects/zed", b"crates/gpui");
    assert!(work_directory.try_unrelativize(&p("crates/util/util.rs")).is_none());
    assert_eq!(text(&work_directory.unrelativize(&p("crates/util/util.rs"))), "../util/util.rs");
    assert!(work_directory.try_unrelativize(&p("README.md")).is_none());
    assert_eq!(text(&work_directory.unrelativize(&p("README.md"))), "../../README.md");
}

#[test]
fn status_summaries() {
    assert_eq!(StatusCode::Modified.index().summary(), modified());
    assert_eq!(StatusCode::Added.index().summary(), added());
    assert_eq!(conflict_status().summary(), GitSummary::conflict());
    assert_eq!(FileStatus::Untracked.summary(), GitSummary::untracked());
    assert_eq!(FileStatus::Ignored.summary(), GitSummary::unchanged());
    let both = StatusCode::Deleted.worktree().summary();
    assert_eq!(both.worktree.deleted, 1);
    assert_eq!(both.count, 1);
    let sum = GitSummary::conflict().add(&modified()).add(&added());
    assert_eq!(sum.conflict, 1);
    assert_eq!(sum.index.modified, 1);
    assert_eq!(sum.index.added, 1);
    assert_eq!(sum.count, 3);
}

#[test]
fn test_file_status() {
    let modified_in_worktree = StatusCode::Modified.worktree();
    let repos = vec![repo(WorkDirectory::in_project(b"project"), &[("a.txt", modified_in_worktree)])];
    assert_eq!(status_for_file(&repos, &p("project/a.txt")), Some(modified_in_worktree));
    assert_eq!(status_for_file(&repos, &p("project/b.txt")), None);
    // After a commit the status is gone; after unstaging b.txt it is untracked.
    let repos = vec![repo(WorkDirectory::in_project(b"project"), &[("b.txt", FileStatus::Untracked)])];
    assert_eq!(status_for_file(&repos, &p("project/a.txt")), None);
    assert_eq!(status_for_file(&repos, &p("project/b.txt")), Some(FileStatus::Untracked));
}

#[test]
fn test_git_repository_for_path() {
    let repos = vec![
        repo(WorkDirectory::in_project(b"x"), &[]),
        repo(WorkDirectory::in_project(b"x/y"), &[]),
        repo(WorkDirectory::in_project(b"z"), &[]),
    ];
    assert_eq!(repository_for_path(&repos, &p("c.txt")), None);
    assert_eq!(repository_for_path(&repos, &p("x/x1.txt")), Some(0));
    assert_eq!(repository_for_path(&repos, &p("x/y/y1.txt")), Some(1));
    assert_eq!(repository_for_path(&repos, &p("x/y")), Some(1));
    assert_eq!(repository_for_path(&repos, &p("z/z1.txt")), Some(2));
    let above = vec![repo(WorkDirectory::above_project(b"/home/me", b"work/project"), &[])];
    assert_eq!(repository_for_path(&above, &p("any/file")), Some(0));
}

#[test]
fn test_repository_subfolder_git_status() {
    let repos = vec![repo(
        WorkDirectory::above_project(b"/my-repo", b"sub-folder-1/sub-folder-2"),
        &[("sub-folder-1/sub-folder-2/c", StatusCode::Added.index()), ("d", FileStatus::Untracked)],
    )];
    assert_eq!(status_for_file(&repos, &p("c")), Some(StatusCode::Added.index()));
    assert_eq!(status_for_file(&repos, &p("d")), None);
}

fn nested_repos_tree() -> (Worktree, Vec<Repository>) {
    let tree = tree_with(&[
        ("x", true),
        ("x/x1.txt", false),
        ("x/x2.txt", false),
        ("x/y", true),
        ("x/y/y1.txt", false),
        ("x/y/y2.txt", false),
        ("x/z.txt", false),
        ("z", true),
        ("z/z1.txt", false),
        ("z/z2.txt", false),
    ]);
    let repos = vec![
        repo(
            WorkDirectory::in_project(b"x"),
            &[("x2.txt", StatusCode::Modified.index()), ("z.txt", StatusCode::Added.index())],
        ),
        repo(WorkDirectory::in_project(b"x/y"), &[("y1.txt", conflict_status())]),
        repo(WorkDirectory::in_project(b"z"), &[("z2.txt", StatusCode::Added.index())]),
    ];
    (tree, repos)
}

fn summary_of(tree: &Worktree, repos: &Vec<Repository>, path: &str) -> GitSummary {
    git_summary(tree, repos, &p(path))
}

#[test]
fn test_propagate_statuses_for_nested_repos() {
    let (tree, repos) = nested_repos_tree();
    let expected = [
        ("", GitSummary::unchanged()),
        ("x", modified().add(&added())),
        ("x/x1.txt", GitSummary::unchanged()),
        ("x/x2.txt", modified()),
        ("x/y", GitSummary::conflict()),
        ("x/y/y1.txt", GitSummary::conflict()),
        ("x/y/y2.txt", GitSummary::unchanged()),
        ("x/z.txt", added()),
        ("z", added()),
        ("z/z1.txt", GitSummary::unchanged()),
        ("z/z2.txt", added()),
    ];
    for (path, summary) in expected {
        assert_eq!(summary_of(&tree, &repos, path), summary, "{}", path);
    }
}

#[test]
fn test_traverse_with_git_status() {
    let (tree, repos) = nested_repos_tree();
    let files: Vec<(String, GitSummary)> = (0..tree.entry_count())
        .map(|i| tree.entry_at(i))
        .filter(|e| e.is_file() && e.path.starts_with(&p("x")) || e.is_file() && e.path.starts_with(&p("z")))
        .map(|e| (text(&e.path), git_summary(&tree, &repos, &e.path)))
        .collect();
    assert_eq!(
        files,
        vec![
            ("x/x1.txt".to_string(), GitSummary::unchanged()),
            ("x/x2.txt".to_string(), modified()),
            ("x/y/y1.txt".to_string(), GitSummary::conflict()),
            ("x/y/y2.txt".to_string(), GitSummary::unchanged()),
            ("x/z.txt".to_string(), added()),
            ("z/z1.txt".to_string(), GitSummary::unchanged()),
            ("z/z2.txt".to_string(), added()),
        ]
    );
}

#[test]
fn test_propagate_git_statuses() {
    let tree = tree_with(&[
        ("a", true),
        ("a/b", true),
        ("a/b/c1.txt", false),
        ("a/b/c2.txt", false),
        ("a/d", true),
        ("a/d/e1.txt", false),
        ("a/d/e2.txt", false),
        ("a/d/e3.txt", false),
        ("f", true),
        ("f/no-status.txt", false),
        ("g", true),
        ("g/h1.txt", false),
        ("g/h2.txt", false),
    ]);
    let repos = vec![repo(
        WorkDirectory::in_project(b""),
        &[
            ("a/b/c1.txt", StatusCode::Added.index()),
            ("a/d/e2.txt", StatusCode::Modified.index()),
            ("g/h2.txt", conflict_status()),
        ],
    )];
    let expected = [
        ("", GitSummary::conflict().add(&modified()).add(&added())),
        ("a", added().add(&modified())),
        ("a/b", added()),
        ("a/b/c1.txt", added()),
        ("a/b/c2.txt", GitSummary::unchanged()),
        ("a/d", modified()),
        ("a/d/e1.txt", GitSummary::unchanged()),
        ("a/d/e2.txt", modified()),
        ("f", GitSummary::unchanged()),
        ("f/no-status.txt", GitSummary::unchanged()),
        ("g", GitSummary::conflict()),
        ("g/h2.txt", GitSummary::conflict()),
    ];
    for (path, summary) in expected {
        assert_eq!(summary_of(&tree, &repos, path), summary, "{}", path);
    }
}

#[test]
fn test_git_status_postprocessing() {
    let deleted_then_added = FileStatus::Known(TrackedStatus {
        index_status: StatusCode::Deleted,
        worktree_status: StatusCode::Added,
    });
    let repos = vec![repo(WorkDirectory::in_project(b""), &[("a.txt", deleted_then_added)])];
    assert_eq!(status_for_file(&repos, &p("a.txt")), Some(deleted_then_added));
    let s = deleted_then_added.summary();
    assert_eq!(s.index.deleted, 1);
    assert_eq!(s.worktree.added, 1);
    assert_eq!(s.count, 1);
}

#[test]
fn test_worktree_change_events() {
    let mut tree = plain_tree();
    let mut ignores = IgnoreStack::new();
    ignores.push(RelPath::root(), b"deps\n");
    tree.populate_dir(&RelPath::root(), &vec![dir("deps", 2), file("a", 3), file("b", 4)], &ignores).unwrap();
    let before = tree.snapshot();
    // `a` is rewritten in place, `b` is replaced, `c` is new, and `deps` is read.
    let mut a = file("a", 3);
    a.mtime = 5;
    tree.populate_dir(&RelPath::root(), &vec![dir("deps", 2), a, file("b", 40), file("c", 6)], &ignores).unwrap();
    tree.populate_dir(&p("deps"), &vec![file("x", 7)], &ignores).unwrap();
    let after = tree.snapshot();
    let events: Vec<(String, PathChange)> = changes(&before, &after).iter().map(|c| (text(&c.path), c.kind)).collect();
    assert_eq!(
        events,
        vec![
            ("a".to_string(), PathChange::Updated),
            ("b".to_string(), PathChange::Removed),
            ("b".to_string(), PathChange::Added),
            ("c".to_string(), PathChange::Added),
            ("deps".to_string(), PathChange::Loaded),
            ("deps/x".to_string(), PathChange::Loaded),
        ]
    );
    let old_b = before.store.get(&p("b")).unwrap().id;
    let removal = changes(&before, &after).into_iter().find(|c| c.kind == PathChange::Removed).unwrap();
    assert_eq!(removal.id, old_b);
    assert!(changes(&after, &after).is_empty());
}

#[test]
fn repository_discovery() {
    let wd = worktree::repository::work_directory_for_dot_git(&p("x/y/.git")).unwrap();
    assert_eq!(text(&wd.try_unrelativize(&p("a.txt")).unwrap()), "x/y/a.txt");
    assert!(worktree::repository::work_directory_for_dot_git(&p("x/y/git")).is_none());
    assert!(worktree::repository::work_directory_for_dot_git(&RelPath::root()).is_none());
    let above = worktree::repository::work_directory_above(b"/home/me/repo", b"/home/me/repo/crates/gpui").unwrap();
    assert_eq!(text(&above.unrelativize(&p("crates/gpui/src/lib.rs"))), "src/lib.rs");
    assert_eq!(text(&above.unrelativize(&p("README.md"))), "../../README.md");
    assert!(worktree::repository::work_directory_above(b"/elsewhere", b"/home/me/repo").is_none());
}

#[test]
fn settings_change_drops_excluded_and_rescans() {
    let mut tree = plain_tree();
    let ignores = IgnoreStack::new();
    tree.populate_dir(&RelPath::root(), &vec![dir("target", 2), dir("src", 3), file("a.log", 4)], &ignores).unwrap();
    tree.populate_dir(&p("target"), &vec![file("out", 5)], &ignores).unwrap();
    tree.populate_dir(&p("src"), &vec![file("b.log", 6), file("main.rs", 7)], &ignores).unwrap();
    let to_read = tree.update_settings(settings(&["target", "**/*.log"], &[], &[]));
    assert_eq!(listing(&tree, true), vec!["", "src", "src/main.rs"]);
    assert_eq!(texts(&to_read), vec!["", "src"]);
    // Reading again under the new settings keeps the excluded paths out.
    tree.populate_dir(&RelPath::root(), &vec![dir("target", 2), dir("src", 3), file("a.log", 4)], &ignores).unwrap();
    assert_eq!(listing(&tree, true), vec!["", "src", "src/main.rs"]);
    // Lifting the exclusions brings them back on the next read.
    let to_read = tree.update_settings(settings(&[], &[], &[]));
    assert_eq!(texts(&to_read), vec!["", "src"]);
    tree.populate_dir(&RelPath::root(), &vec![dir("target", 2), dir("src", 3), file("a.log", 4)], &ignores).unwrap();
    assert_eq!(listing(&tree, true), vec!["", "a.log", "src", "src/main.rs", "target"]);
}

#[test]
fn dot_git_is_ignored() {
    let mut tree = plain_tree();
    tree.populate_dir(&RelPath::root(), &vec![dir(".git", 2), file("a.txt", 3)], &IgnoreStack::new()).unwrap();
    let git = tree.entry_for_path(&p(".git")).unwrap();
    assert!(git.is_ignored);
    assert_eq!(git.kind, EntryKind::UnloadedDir);
    assert!(!tree.entry_for_path(&p("a.txt")).unwrap().is_ignored);
    assert_eq!(listing(&tree, false), vec!["", "a.txt"]);
}

#[test]
fn recreated_paths_get_fresh_ids() {
    let mut tree = tree_with(&[("a", false)]);
    let first = tree.entry_for_path(&p("a")).unwrap().id;
    tree.delete_entry(first).unwrap();
    let second = tree.create_entry(&p("a"), false, 7, 0, &IgnoreStack::new()).unwrap().unwrap();
    assert!(second > first);
    // A listing that shows another inode at the same path gives a new id too.
    tree.populate_dir(&RelPath::root(), &vec![file("a", 8)], &IgnoreStack::new()).unwrap();
    let third = tree.entry_for_path(&p("a")).unwrap().id;
    assert!(third > second);
}

#[test]
fn populate_with_enough_ids_succeeds() {
    let mut tree = plain_tree();
    let children = vec![dir("x", 2), file("y", 3), file("z", 4)];
    assert!(tree.populate_dir(&RelPath::root(), &children, &IgnoreStack::new()).is_ok());
    assert_eq!(listing(&tree, true), vec!["", "x", "y", "z"]);
}

#[test]
fn event_plans() {
    let mut tree = Worktree::new(true, 1, 0, 0, settings(&["**/tmp"], &[], &[]));
    let mut ignores = IgnoreStack::new();
    ignores.push(RelPath::root(), b"target\n");
    tree.populate_dir(&RelPath::root(), &vec![dir("src", 2), dir("target", 3), file(".gitignore", 4)], &ignores)
        .unwrap();
    tree.populate_dir(&p("src"), &vec![file("a.rs", 5)], &ignores).unwrap();
    let plan = tree.plan_event(&p("src/a.rs"));
    assert_eq!(text(&plan.read.unwrap()), "src");
    assert!(!plan.rules_changed);
    let plan = tree.plan_event(&p(".gitignore"));
    assert_eq!(text(&plan.read.unwrap()), "");
    assert!(plan.rules_changed);
    // Below an unread directory, or excluded: nothing is read.
    assert!(tree.plan_event(&p("target/debug/x")).read.is_none());
    assert!(tree.plan_event(&p("target/x")).read.is_none());
    assert!(tree.plan_event(&p("src/tmp/x")).read.is_none());
    assert!(tree.plan_event(&p("src/tmp")).read.is_none());
}

#[test]
fn gitignore_rules_are_replaced() {
    let mut stack = IgnoreStack::new();
    stack.push(RelPath::root(), b"node_modules\n");
    stack.push(p("sub"), b"*.log\n");
    assert!(stack.is_ignored(&p("node_modules"), true));
    stack.set_rules(RelPath::root(), b"target\n");
    assert!(!stack.is_ignored(&p("node_modules"), true));
    assert!(stack.is_ignored(&p("target"), true));
    assert!(stack.is_ignored(&p("sub/a.log"), false));
    stack.set_rules(p("other"), b"*.tmp\n");
    assert!(stack.is_ignored(&p("other/x.tmp"), false));
    assert!(!stack.is_ignored(&p("x.tmp"), false));
}

#[test]
fn settings_change_recomputes_flags() {
    let mut tree = plain_tree();
    let mut ignores = IgnoreStack::new();
    ignores.push(RelPath::root(), b"*.env\n");
    tree.populate_dir(&RelPath::root(), &vec![file("a.env", 2), file("b.txt", 3)], &ignores).unwrap();
    assert!(tree.entry_for_path(&p("a.env")).unwrap().is_ignored);
    tree.update_settings(settings(&[], &["*.env"], &["*.txt"]));
    let a = tree.entry_for_path(&p("a.env")).unwrap();
    assert!(a.is_always_included);
    assert!(!a.is_ignored);
    assert!(tree.entry_for_path(&p("b.txt")).unwrap().is_private);
    tree.update_settings(settings(&[], &[], &[]));
    assert!(!tree.entry_for_path(&p("a.env")).unwrap().is_always_included);
    assert!(!tree.entry_for_path(&p("b.txt")).unwrap().is_private);
    // Reading the directory again brings the ignored flag back from the rules.
    tree.populate_dir(&RelPath::root(), &vec![file("a.env", 2), file("b.txt", 3)], &ignores).unwrap();
    assert!(tree.entry_for_path(&p("a.env")).unwrap().is_ignored);
}

#[test]
fn partly_loaded_directory_no_longer_ignored() {
    let mut tree = plain_tree();
    let mut ignores = IgnoreStack::new();
    ignores.set_rules(RelPath::root(), b"node_modules\n");
    tree.populate_dir(
        &RelPath::root(),
        &vec![file(".gitignore", 2), dir("a", 3), dir("b", 4), dir("node_modules", 5)],
        &ignores,
    )
    .unwrap();
    tree.populate_dir(&p("a"), &vec![file("a.js", 6)], &ignores).unwrap();
    tree.populate_dir(&p("b"), &vec![file("b.js", 7)], &ignores).unwrap();
    // Load node_modules/d/d.js: node_modules and node_modules/d are read.
    let target = p("node_modules/d/d.js");
    while let Some(next) = tree.next_dir_to_load(&target) {
        let listing = match text(&next).as_str() {
            "node_modules" => vec![dir("c", 8), dir("d", 9)],
            "node_modules/d" => vec![file("d.js", 10), dir("e", 11), dir("f", 12)],
            other => panic!("unexpected read of {}", other),
        };
        tree.populate_dir(&next, &listing, &ignores).unwrap();
    }
    assert!(tree.entry_for_path(&p("node_modules/d/d.js")).unwrap().is_ignored);

    // The rules now ignore `e` only.
    ignores.set_rules(RelPath::root(), b"e\n");
    let to_read = tree.apply_rules_change(&RelPath::root(), &ignores);
    assert_eq!(texts(&to_read), vec!["node_modules/c", "node_modules/d/f"]);
    let mut reads = 0;
    for dir_path in &to_read {
        let listing = match text(dir_path).as_str() {
            "node_modules/c" => vec![file("c.js", 13)],
            "node_modules/d/f" => vec![file("f1.js", 14), file("f2.js", 15)],
            other => panic!("unexpected read of {}", other),
        };
        assert!(tree.populate_dir(dir_path, &listing, &ignores).unwrap().is_empty());
        reads += 1;
    }
    assert_eq!(reads, 2);
    for path in [
        "node_modules",
        "node_modules/c",
        "node_modules/c/c.js",
        "node_modules/d",
        "node_modules/d/d.js",
        "node_modules/d/f",
        "node_modules/d/f/f1.js",
        "node_modules/d/f/f2.js",
    ] {
        assert!(!tree.entry_for_path(&p(path)).unwrap().is_ignored, "{}", path);
    }
    let e = tree.entry_for_path(&p("node_modules/d/e")).unwrap();
    assert!(e.is_ignored);
    assert_eq!(e.kind, EntryKind::UnloadedDir);
    assert!(tree.entry_for_path(&p("node_modules/d/e/e1.js")).is_none());
}

/// Reads every directory the tree asks for, from fixed listings.
fn scan_listings(tree: &mut Worktree, ignores: &IgnoreStack, listing: &dyn Fn(&str) -> Vec<ChildStat>) {
    let mut queue = vec![RelPath::root()];
    while let Some(d) = queue.pop() {
        let next = tree.populate_dir(&d, &listing(&text(&d)), ignores).unwrap();
        queue.extend(next);
    }
}

#[test]
fn test_file_scan_inclusions() {
    let mut tree = Worktree::new(true, 1, 0, 0, settings(&[], &["node_modules/**/package.json", "**/.DS_Store"], &[]));
    let mut ignores = IgnoreStack::new();
    ignores.set_rules(RelPath::root(), b"**/target\n/node_modules\ntop_level.txt\n");
    let listing = |d: &str| -> Vec<ChildStat> {
        match d {
            "" => vec![
                file(".gitignore", 2),
                dir("target", 3),
                dir("node_modules", 4),
                dir("src", 5),
                file("top_level.txt", 6),
                file(".DS_Store", 7),
            ],
            "target" => vec![file("index", 8)],
            "node_modules" => vec![file(".DS_Store", 9), dir("prettier", 10)],
            "node_modules/prettier" => vec![file("package.json", 11)],
            "src" => vec![file(".DS_Store", 12), dir("foo", 13), dir("bar", 14), file("lib.rs", 15)],
            "src/foo" => vec![file("foo.rs", 16), file("another.rs", 17)],
            "src/bar" => vec![file("bar.rs", 18)],
            other => panic!("unexpected read of {}", other),
        }
    };
    scan_listings(&mut tree, &ignores, &listing);
    for path in ["target", "node_modules"] {
        assert!(tree.entry_for_path(&p(path)).unwrap().is_ignored, "{}", path);
    }
    for path in ["src/lib.rs", "src/bar/bar.rs", ".gitignore"] {
        assert!(!tree.entry_for_path(&p(path)).unwrap().is_ignored, "{}", path);
    }
    for path in ["node_modules/prettier/package.json", ".DS_Store", "node_modules/.DS_Store", "src/.DS_Store"] {
        let e = tree.entry_for_path(&p(path)).unwrap();
        assert!(e.is_always_included, "{}", path);
        assert!(!e.is_ignored, "{}", path);
    }
}
