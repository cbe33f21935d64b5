use treeportfs::fspath::FsPath;
use treeportfs::node::{now_nfstime, NodeKind, State};
use treeportfs::tree::{NfsTime, ROOT_ID};

fn at(seconds: u32) -> NfsTime {
    NfsTime { seconds, nseconds: 0 }
}

fn worktree(root: &str) -> NodeKind {
    NodeKind::Worktree { root: FsPath::from_text(root) }
}

#[test]
fn disk_path_climbs_to_worktree_root() {
    let mut s = State::new(at(0));
    let org = s.add_child(ROOT_ID, "o", NodeKind::Org, at(1));
    let repo = s.add_child(org, "r", NodeKind::Repo, at(1));
    let refs = s.add_child(repo, "refs", NodeKind::RefsRoot, at(1));
    let wt = s.add_child(refs, "main", worktree("/cache/wt"), at(1));
    let sub = s.add_child(wt, "src", NodeKind::Disk, at(1));
    let file = s.add_child(sub, "lib.rs", NodeKind::Disk, at(1));
    assert_eq!(s.disk_path(file), Some(FsPath::from_text("/cache/wt/src/lib.rs")));
    assert_eq!(s.disk_path(wt), Some(FsPath::from_text("/cache/wt")));
}

#[test]
fn refs_context_collects_segments() {
    let mut s = State::new(at(0));
    let org = s.add_child(ROOT_ID, "o", NodeKind::Org, at(1));
    let repo = s.add_child(org, "r", NodeKind::Repo, at(1));
    let refs = s.add_child(repo, "refs", NodeKind::RefsRoot, at(1));
    let f = s.add_child(refs, "feature", NodeKind::RefPath, at(1));
    let c = s.refs_context(f).unwrap();
    assert_eq!((c.org.as_str(), c.repo.as_str()), ("o", "r"));
    assert_eq!(c.segs, vec!["feature".to_string()]);
    let c = s.refs_context(refs).unwrap();
    assert!(c.segs.is_empty());
}

#[test]
fn add_child_is_idempotent() {
    let mut s = State::new(at(0));
    let a = s.add_child(ROOT_ID, "o", NodeKind::Org, at(1));
    let b = s.add_child(ROOT_ID, "o", NodeKind::Org, at(2));
    assert_eq!(a, b);
    assert_eq!(s.get(ROOT_ID).unwrap().mtime, at(1));
}

#[test]
fn numbers_are_handed_out_once() {
    let mut s = State::new(at(0));
    let a = s.add_child(ROOT_ID, "a", NodeKind::Org, at(1));
    s.remove_child(ROOT_ID, "a", at(2));
    let b = s.add_child(ROOT_ID, "a", NodeKind::Org, at(3));
    assert_eq!((a, b), (2, 3));
    assert!(s.get(a).is_none());
    assert_eq!(s.ids_left(), u64::MAX - 4);
}

#[test]
fn removing_a_child_drops_it_and_touches_the_directory() {
    let mut s = State::new(at(0));
    let a = s.add_child(ROOT_ID, "a", NodeKind::Org, at(1));
    let b = s.add_child(a, "b", NodeKind::Repo, at(2));
    s.remove_child(ROOT_ID, "a", at(5));
    assert_eq!(s.get(ROOT_ID).unwrap().mtime, at(5));
    assert_eq!(s.child(ROOT_ID, "a"), None);
    assert!(s.get(b).is_some());
    s.remove_child(ROOT_ID, "a", at(9));
    assert_eq!(s.get(ROOT_ID).unwrap().mtime, at(5));
}

#[test]
fn dropped_directories_cut_off_what_is_below_them() {
    let mut s = State::new(at(0));
    let wt = s.add_child(ROOT_ID, "wt", worktree("/w"), at(1));
    let dir = s.add_child(wt, "d", NodeKind::Disk, at(1));
    let file = s.add_child(dir, "f", NodeKind::Disk, at(1));
    assert_eq!(s.worktree_root(file), Some(wt));
    s.remove_child(wt, "d", at(2));
    assert_eq!(s.worktree_root(file), None);
    assert_eq!(s.disk_path(file), None);
    assert_eq!(s.worktree_root(ROOT_ID), None);
    assert_eq!(s.disk_path(ROOT_ID), None);
    assert!(s.refs_context(ROOT_ID).is_none());
}

#[test]
fn renames_relink_and_drop_what_they_overwrite() {
    let mut s = State::new(at(0));
    let wt = s.add_child(ROOT_ID, "wt", worktree("/w"), at(1));
    let dir = s.add_child(wt, "d", NodeKind::Disk, at(1));
    let file = s.add_child(dir, "f", NodeKind::Disk, at(1));
    let victim = s.add_child(wt, "g", NodeKind::Disk, at(1));
    s.rename_child(dir, "f", wt, "g", at(2));
    assert!(s.get(victim).is_none());
    assert_eq!(s.child(wt, "g"), Some(file));
    assert_eq!(s.child(dir, "f"), None);
    assert_eq!(s.disk_path(file), Some(FsPath::from_text("/w/g")));
}

#[test]
fn what_hangs_below_itself_has_no_path() {
    let mut s = State::new(at(0));
    let wt = s.add_child(ROOT_ID, "wt", worktree("/w"), at(1));
    let dir = s.add_child(wt, "d", NodeKind::Disk, at(1));
    let sub = s.add_child(dir, "s", NodeKind::Disk, at(1));
    let file = s.add_child(sub, "f", NodeKind::Disk, at(1));
    let other = s.add_child(wt, "o", NodeKind::Disk, at(1));
    s.rename_child(wt, "d", sub, "x", at(2));
    assert_eq!(s.child(wt, "d"), None);
    assert_eq!(s.child(sub, "x"), Some(dir));
    assert_eq!(s.get(dir).unwrap().parent, sub);
    for id in [dir, sub, file] {
        assert_eq!(s.disk_path(id), None);
        assert_eq!(s.worktree_root(id), None);
    }
    assert_eq!(s.disk_path(other), Some(FsPath::from_text("/w/o")));
    let seg = s.add_child(ROOT_ID, "seg", NodeKind::RefPath, at(1));
    s.rename_child(ROOT_ID, "seg", seg, "seg", at(2));
    assert!(s.refs_context(seg).is_none());
}

#[test]
fn renaming_something_to_itself_forgets_it() {
    let mut s = State::new(at(0));
    let wt = s.add_child(ROOT_ID, "wt", worktree("/w"), at(1));
    let file = s.add_child(wt, "f", NodeKind::Disk, at(1));
    s.rename_child(wt, "f", wt, "f", at(2));
    assert_eq!(s.child(wt, "f"), None);
    assert!(s.get(file).is_none());
}

#[test]
fn touching_a_refs_subtree_leaves_other_repositories_alone() {
    let mut s = State::new(at(0));
    let org = s.add_child(ROOT_ID, "o", NodeKind::Org, at(1));
    let r1 = s.add_child(org, "r1", NodeKind::Repo, at(1));
    let r2 = s.add_child(org, "r2", NodeKind::Repo, at(1));
    let refs1 = s.add_child(r1, "refs", NodeKind::RefsRoot, at(1));
    let refs2 = s.add_child(r2, "refs", NodeKind::RefsRoot, at(1));
    let path = s.add_child(refs1, "feature", NodeKind::RefPath, at(1));
    let wt = s.add_child(path, "x", worktree("/w"), at(1));
    s.touch_refs_subtree("o", "r1", at(7));
    assert_eq!(s.get(refs1).unwrap().mtime, at(7));
    assert_eq!(s.get(path).unwrap().mtime, at(7));
    assert_eq!(s.get(wt).unwrap().mtime, at(1));
    assert_eq!(s.get(refs2).unwrap().mtime, at(1));
    assert_eq!(s.get(r1).unwrap().mtime, at(1));
}

#[test]
fn absolute_names_do_not_occur_but_join_as_paths_do() {
    let p = FsPath::from_text("/a");
    assert_eq!(p.join("b").as_bytes(), b"/a/b");
    assert_eq!(FsPath::from_text("/a/").join("b").as_bytes(), b"/a/b");
    assert_eq!(p.join("/b").as_bytes(), b"/b");
    assert_eq!(FsPath::from_text("/a//b/."), FsPath::from_text("/a/b"));
    assert_ne!(FsPath::from_text("a"), FsPath::from_text("/a"));
}

#[test]
fn protocol_time_keeps_the_low_bits() {
    assert_eq!(now_nfstime(5, 6), NfsTime { seconds: 5, nseconds: 6 });
    assert_eq!(now_nfstime(0x1_0000_0002, 0), NfsTime { seconds: 2, nseconds: 0 });
}
