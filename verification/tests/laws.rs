use treeportfs::action::{Flow, GitAction, IoErrorKind, Reply};
use treeportfs::component::{valid_component, valid_disk_name};
use treeportfs::config::{Config, Protocol, SECOND};
use treeportfs::caches::TrieAnswer;
use treeportfs::fs::TreeportFs;
use treeportfs::fspath::FsPath;
use treeportfs::git::GitCache;
use treeportfs::names::{order_names, NameMap, Order, RepoMap};
use treeportfs::node::{NodeKind, State};
use treeportfs::protocol::Status;
use treeportfs::serve_lookup::LookupNext;
use treeportfs::text::{join_all, lines_of, split_all, starts_with, strip_prefix, strip_suffix, trim};
use treeportfs::tree::{NfsTime, ROOT_ID};

fn at(seconds: u32) -> NfsTime {
    NfsTime { seconds, nseconds: 0 }
}

fn config() -> Config {
    Config {
        host: "h".to_string(),
        protocol: Protocol::Ssh,
        cache_root: FsPath::from_text("/c"),
        branch_ttl: 30 * SECOND,
        negative_ttl: 60 * SECOND,
    }
}

fn names(list: &[&str]) -> Vec<String> {
    list.iter().map(|s| s.to_string()).collect()
}

#[test]
fn components_are_disk_names() {
    for name in ["main", "v1.2.3", "a b", "\u{e4}"] {
        assert!(valid_component(name) && valid_disk_name(name));
    }
}

#[test]
fn worktrees_of_different_branches_are_apart() {
    let c = config();
    let paths = [
        c.worktree_path("o", "r", "a"),
        c.worktree_path("o", "r", "b"),
        c.worktree_path("o", "s", "a"),
        c.worktree_path("p", "r", "a"),
    ];
    for i in 0..paths.len() {
        for j in 0..paths.len() {
            assert_eq!(i == j, paths[i] == paths[j]);
            assert_eq!(i == j, paths[j].starts_with(&paths[i]));
        }
    }
    assert!(c.worktree_path("o", "r", "a/b").starts_with(&paths[0]));
    let bare = Config { host: String::new(), cache_root: FsPath::from_text(""), ..config() };
    assert_eq!(bare.worktree_path("o", "r", "a/b").as_bytes(), b"worktrees/o/r/a/b");
    assert!(bare.worktree_path("o", "r", "a/b").starts_with(&bare.worktree_path("o", "r", "a")));
    assert!(!bare.worktree_path("o", "r", "a").starts_with(&bare.bare_repo_path("o", "r")));
    assert_eq!(c.repos_dir().as_bytes(), b"/c/h/repos");
    assert!(c.bare_repo_path("o", "r").starts_with(&c.repos_dir()));
}

#[test]
fn names_join_and_split_back() {
    for name in ["main", "feature/x", "a//b", "/a/", ""] {
        let pieces: Vec<String> = split_all(name, b'/').iter().map(|s| s.to_string()).collect();
        assert_eq!(join_all(&pieces, "/"), name);
    }
    assert_eq!(split_all("a//b", b'/'), vec!["a", "", "b"]);
}

#[test]
fn text_helpers_match_their_contracts() {
    assert_eq!(lines_of("a\r\n\nb"), vec!["a", "", "b"]);
    assert!(lines_of("").is_empty());
    assert_eq!(strip_prefix("refs/heads/x", "refs/heads/"), Some("x"));
    assert_eq!(strip_prefix("x", "refs/"), None);
    assert_eq!(strip_suffix("r.git", ".git"), Some("r"));
    assert_eq!(strip_suffix("git", ".git"), None);
    assert!(starts_with("\u{e4}b", "\u{e4}"));
    assert_eq!(trim("\u{2003} a b\u{a0}\n"), "a b");
}

#[test]
fn ordered_maps_keep_their_order() {
    let mut m: NameMap<u64> = NameMap::new();
    for (i, n) in ["m", "a", "z", "a"].iter().enumerate() {
        m.insert(n.to_string(), i as u64);
    }
    assert_eq!(m.keys, vec!["a", "m", "z"]);
    assert_eq!(m.get("a"), Some(&3));
    assert_eq!(m.remove("m"), Some(0));
    assert_eq!(m.remove("m"), None);
    assert_eq!(m.len(), 2);
    assert!(order_names("a", "b") == Order::Before);
    assert!(order_names("b", "ab") == Order::After);
    assert!(order_names("ab", "ab") == Order::Same);
}

#[test]
fn repository_maps_keep_repositories_apart() {
    let mut m: RepoMap<u64> = RepoMap::new();
    m.insert("o", "r", 1);
    m.insert("o", "s", 2);
    m.insert("o", "r", 3);
    assert_eq!(m.get("o", "r"), Some(&3));
    assert_eq!(m.get("o", "s"), Some(&2));
    m.remove("o", "r");
    assert_eq!(m.get("o", "r"), None);
    assert_eq!(m.get("o", "s"), Some(&2));
    assert_eq!(m.entries.len(), 1);
}

#[test]
fn what_is_learned_of_one_repository_leaves_others_alone() {
    let mut fs = TreeportFs::new(GitCache::new(config()), (0, 0), at(1), &Vec::new());
    assert!(fs.trie_update("o", "r", Some(names(&["main"])), None, 5, at(2)).is_ok());
    assert!(matches!(fs.trie_update("o", "s", None, None, 5, at(2)), Err(Status::NoEnt)));
    assert!(matches!(fs.get_trie("o", "r", 6), TrieAnswer::Known(Ok(_))));
    assert!(matches!(fs.get_trie("o", "s", 6), TrieAnswer::Known(Err(Status::NoEnt))));
    assert!(matches!(fs.get_trie("p", "r", 6), TrieAnswer::Query));
    assert!(matches!(fs.get_trie("o", "r", 5 + 30 * SECOND), TrieAnswer::Query));
    assert!(matches!(fs.trie_update("o", "s", None, Some(names(&["x"])), 7, at(2)), Ok(_)));
}

#[test]
fn failed_lookups_change_nothing() {
    let mut fs = TreeportFs::new(GitCache::new(config()), (0, 0), at(1), &Vec::new());
    let before = fs.ids_left();
    for name in ["._x", "", "a:b"] {
        assert!(matches!(
            fs.lookup(ROOT_ID, name.as_bytes(), 0, at(9)),
            LookupNext::Done(Err(Status::NoEnt))
        ));
    }
    assert_eq!(fs.ids_left(), before);
    assert_eq!(fs.state.get(ROOT_ID).unwrap().mtime, at(1));
}

#[test]
fn adding_gives_numbers_that_were_never_given() {
    let mut s = State::new(at(1));
    let a = s.add_child(ROOT_ID, "a", NodeKind::Org, at(2));
    let b = s.add_child(a, "b", NodeKind::Repo, at(3));
    s.remove_child(a, "b", at(4));
    s.touch(a, at(5));
    let c = s.add_child(a, "b", NodeKind::Disk, at(6));
    assert_eq!((a, b, c), (2, 3, 4));
    let node = s.get(c).unwrap();
    assert_eq!((node.parent, node.name.as_str(), node.mtime), (a, "b", at(6)));
    assert!(matches!(node.kind, NodeKind::Disk));
    assert!(node.children.is_empty());
    assert_eq!(s.get(a).unwrap().children.keys, vec!["b"]);
    assert_eq!(s.child(a, "b"), Some(c));
    assert_eq!(s.get(ROOT_ID).unwrap().mtime, at(2));
    assert_eq!(s.add_child(a, "b", NodeKind::Repo, at(7)), c);
    assert!(matches!(s.get(c).unwrap().kind, NodeKind::Disk));
    assert_eq!(s.get(a).unwrap().mtime, at(6));
}

#[test]
fn bare_repositories_are_apart() {
    let cfg = config();
    let all = [("o", "r"), ("o", "r.git"), ("o", ""), ("r", "o"), ("o.git", "r")];
    for (i, x) in all.iter().enumerate() {
        for (j, y) in all.iter().enumerate() {
            let outer = cfg.bare_repo_path(x.0, x.1);
            let inner = cfg.bare_repo_path(y.0, y.1);
            assert_eq!(inner.starts_with(&outer), i == j);
        }
    }
}

#[test]
fn removing_undoes_adding() {
    let mut s = State::new(at(1));
    s.add_child(ROOT_ID, "a", NodeKind::Org, at(2));
    s.remove_child(ROOT_ID, "a", at(3));
    let root = s.get(ROOT_ID).unwrap();
    assert!(root.children.is_empty());
    assert_eq!(root.mtime, at(3));
    assert_eq!(s.ids_left(), u64::MAX - 3);
}

#[test]
fn paths_stay_inside_their_worktree() {
    let mut s = State::new(at(1));
    let root = FsPath::from_text("/w/tree");
    let wt = s.add_child(ROOT_ID, "wt", NodeKind::Worktree { root: root.clone() }, at(1));
    let mut dir = wt;
    for name in ["a", ".git", "b c"] {
        dir = s.add_child(dir, name, NodeKind::Disk, at(1));
        assert!(s.disk_path(dir).unwrap().starts_with(&root));
        assert_eq!(s.worktree_root(dir), Some(wt));
    }
    let before = s.disk_path(dir);
    s.add_child(wt, "other", NodeKind::Disk, at(2));
    s.touch(wt, at(3));
    assert_eq!(s.disk_path(dir), before);
}

#[test]
fn operations_end_whatever_they_are_told() {
    let git = GitCache::new(config());
    for reply in [0, 1, 2] {
        let answer = |_: &GitAction| match reply {
            0 => Reply::Success(b"worktree /x\nbranch refs/heads/b\n\n".to_vec()),
            1 => Reply::Refused(Vec::new()),
            _ => Reply::Failed(IoErrorKind::Other),
        };
        fn count<T>(op: impl Fn(&[Reply]) -> Flow<T>, answer: impl Fn(&GitAction) -> Reply) -> usize {
            let mut replies = Vec::new();
            while let Flow::Ask(action) = op(&replies) {
                replies.push(answer(&action));
                assert!(replies.len() < 20);
            }
            replies.len()
        }
        assert!(count(|r| git.ensure_bare("o", "r", r), answer) <= 7);
        assert!(count(|r| git.fetch("o", "r", r), answer) <= 8);
        assert!(count(|r| git.ensure_worktree("o", "r", "b", r), answer) <= 11);
        assert!(count(|r| git.create_branch_worktree("o", "r", "b", "m", r), answer) <= 12);
        assert!(count(|r| git.refresh_worktree("o", "r", "b", r), answer) <= 7);
        assert!(count(|r| git.delete_branch("o", "r", "b", r), answer) <= 12);
    }
}

#[test]
fn changed_directories_are_dated() {
    let mut s = State::new(at(1));
    let a = s.add_child(ROOT_ID, "a", NodeKind::Org, at(2));
    let b = s.add_child(ROOT_ID, "b", NodeKind::Org, at(3));
    s.add_child(a, "r", NodeKind::Repo, at(4));
    s.add_child(ROOT_ID, "a", NodeKind::Org, at(5));
    s.remove_child(ROOT_ID, "none", at(6));
    assert_eq!(s.get(ROOT_ID).unwrap().mtime, at(3));
    assert_eq!(s.get(a).unwrap().mtime, at(4));
    assert_eq!(s.get(b).unwrap().mtime, at(3));
    s.remove_child(a, "r", at(7));
    assert_eq!(s.get(a).unwrap().mtime, at(7));
}

#[test]
fn removed_contents_are_stale() {
    let mut s = State::new(at(1));
    let root = FsPath::from_text("/w");
    let wt = s.add_child(ROOT_ID, "wt", NodeKind::Worktree { root }, at(1));
    let dir = s.add_child(wt, "src", NodeKind::Disk, at(1));
    let file = s.add_child(dir, "lib.rs", NodeKind::Disk, at(1));
    assert!(s.disk_path(file).is_some());
    s.remove_child(ROOT_ID, "wt", at(2));
    for id in [wt, dir, file] {
        assert_eq!(s.disk_path(id), None);
        assert_eq!(s.worktree_root(id), None);
    }
}

#[test]
fn a_changed_listing_dates_the_refs() {
    let mut fs = TreeportFs::new(GitCache::new(config()), (0, 0), at(1), &Vec::new());
    let org = fs.state.add_child(ROOT_ID, "o", NodeKind::Org, at(1));
    let mut refs = Vec::new();
    for repo in ["r", "s"] {
        let id = fs.state.add_child(org, repo, NodeKind::Repo, at(1));
        refs.push(fs.state.add_child(id, "refs", NodeKind::RefsRoot, at(1)));
    }
    let feature = fs.state.add_child(refs[0], "feature", NodeKind::RefPath, at(1));
    assert!(fs.trie_update("o", "r", Some(names(&["main"])), None, 5, at(2)).is_ok());
    assert_eq!(fs.state.get(refs[0]).unwrap().mtime, at(2));
    assert_eq!(fs.state.get(feature).unwrap().mtime, at(2));
    assert_eq!(fs.state.get(refs[1]).unwrap().mtime, at(1));
    assert!(fs.trie_update("o", "r", Some(names(&["main"])), None, 6, at(3)).is_ok());
    assert_eq!(fs.state.get(feature).unwrap().mtime, at(2));
    assert!(fs.trie_update("o", "r", Some(names(&["main", "x"])), None, 7, at(4)).is_ok());
    assert_eq!(fs.state.get(feature).unwrap().mtime, at(4));
}
