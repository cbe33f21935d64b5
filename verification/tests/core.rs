use treeportfs::component::{valid_component, valid_disk_name};
use treeportfs::config::{cache_root_below, default_cache_root, Config, Protocol, SECOND};
use treeportfs::fspath::FsPath;
use treeportfs::trie::BranchTrie;

fn tmp() -> FsPath {
    FsPath::from_text("/tmp")
}

fn seg(parts: &[&str]) -> Vec<String> {
    parts.iter().map(|s| s.to_string()).collect()
}

#[test]
fn urls() {
    let mut c = Config::new("github.com", &tmp());
    assert_eq!(c.remote_url("rust-lang", "cargo"), "https://github.com/rust-lang/cargo.git");
    c.protocol = Protocol::Ssh;
    assert_eq!(c.remote_url("rust-lang", "cargo"), "git@github.com:rust-lang/cargo.git");
}

#[test]
fn worktree_path_nests_branch_segments() {
    let c = Config {
        cache_root: FsPath::from_text("/cache"),
        ..Config::new("github.com", &tmp())
    };
    assert_eq!(
        c.worktree_path("o", "r", "feature/foo"),
        FsPath::from_text("/cache/github.com/worktrees/o/r/feature/foo")
    );
}

#[test]
fn bare_repositories_stand_beside_worktrees() {
    let c = Config {
        cache_root: FsPath::from_text("/cache"),
        ..Config::new("github.com", &tmp())
    };
    assert_eq!(c.bare_repo_path("o", "r").as_bytes(), b"/cache/github.com/repos/o/r.git");
    assert!(!c.worktree_path("o", "r", "main").starts_with(&c.bare_repo_path("o", "r")));
}

#[test]
fn defaults_of_a_configuration() {
    let c = Config::new("ghe.example", &tmp());
    assert_eq!(c.host, "ghe.example");
    assert_eq!(c.protocol, Protocol::Https);
    assert_eq!(c.branch_ttl, 30 * SECOND);
    assert_eq!(c.negative_ttl, 60 * SECOND);
    assert_eq!(c.cache_root, default_cache_root(&tmp()));
}

#[test]
fn cache_root_falls_back_to_the_temporary_directory() {
    assert_eq!(
        cache_root_below(Some(FsPath::from_text("/home/u/.cache")), &tmp()).as_bytes(),
        b"/home/u/.cache/treeportfs"
    );
    assert_eq!(cache_root_below(None, &tmp()).as_bytes(), b"/tmp/treeportfs");
}

#[test]
fn default_cache_root_is_what_the_system_reports() {
    let want = match dirs::cache_dir() {
        Some(dir) => dir.join("treeportfs"),
        None => std::path::PathBuf::from("/tmp/treeportfs"),
    };
    assert_eq!(
        default_cache_root(&tmp()).as_bytes(),
        want.into_os_string().into_encoded_bytes().as_slice()
    );
}

#[test]
fn rejects_traversal_and_probes() {
    for bad in ["", ".", "..", ".DS_Store", "._foo", "a/b", "a\\b", "a:b"] {
        assert!(!valid_component(bad), "{bad:?} should be rejected");
    }
}

#[test]
fn accepts_normal_names() {
    for good in ["rust-lang", "cargo", "main", "feature-x", "v1.2.3"] {
        assert!(valid_component(good), "{good:?} should be accepted");
    }
}

#[test]
fn component_length_counts_bytes() {
    assert!(valid_component(&"a".repeat(255)));
    assert!(!valid_component(&"a".repeat(256)));
    assert!(valid_component(&"\u{e4}".repeat(127)));
    assert!(!valid_component(&"\u{e4}".repeat(128)));
    assert!(!valid_component("a\0b"));
}

#[test]
fn disk_names_may_start_with_a_dot() {
    for good in [".git", ".gitignore", "a:b", "a\\b", "..."] {
        assert!(valid_disk_name(good), "{good:?} should be accepted");
    }
    for bad in ["", ".", "..", "a/b", "a\0"] {
        assert!(!valid_disk_name(bad), "{bad:?} should be rejected");
    }
}

#[test]
fn full_branch_and_prefix() {
    let t = BranchTrie::from_branches(&seg(&["main", "feature/foo", "feature/bar/baz"]));
    assert!(t.node(&seg(&["main"])).unwrap().is_branch);
    let feature = t.node(&seg(&["feature"])).unwrap();
    assert!(!feature.is_branch);
    assert_eq!(feature.children.len(), 2);
    assert!(t.node(&seg(&["feature", "bar", "baz"])).unwrap().is_branch);
    assert!(t.node(&seg(&["nope"])).is_none());
}

#[test]
fn trie_ignores_order_repeats_and_empty_pieces() {
    let a = BranchTrie::from_branches(&seg(&["main", "feature/foo"]));
    let b = BranchTrie::from_branches(&seg(&["/feature//foo/", "main", "main"]));
    assert!(a.same_branches(&b));
    let mut c = BranchTrie::from_branches(&seg(&["main"]));
    assert!(!a.same_branches(&c));
    c.insert("feature/foo");
    assert!(a.same_branches(&c));
    c.insert("feature");
    assert!(!a.same_branches(&c));
}

#[test]
fn a_duplicate_is_independent() {
    let a = BranchTrie::from_branches(&seg(&["main", "feature/foo"]));
    let mut b = a.duplicate();
    assert!(a.same_branches(&b));
    b.insert("feature/bar");
    assert!(!a.same_branches(&b));
    assert!(a.node(&seg(&["feature", "bar"])).is_none());
    assert!(BranchTrie::default().is_empty());
}

#[test]
fn an_empty_trie_leads_nowhere_but_to_its_root() {
    let t = BranchTrie::new();
    assert!(t.is_empty());
    assert!(t.node(&seg(&[])).is_some());
    assert!(t.node(&seg(&["main"])).is_none());
    let mut u = BranchTrie::new();
    u.insert("");
    assert!(u.is_empty());
    assert!(u.node(&seg(&[])).unwrap().is_branch);
    u.insert("a");
    assert!(!u.is_empty());
}

#[test]
fn the_trie_is_walked_step_by_step() {
    let t = BranchTrie::from_branches(&["x/x/b".to_string()]);
    let steps = |parts: &[&str]| -> Vec<String> { parts.iter().map(|p| p.to_string()).collect() };
    let root = t.node(&[]).unwrap();
    let x = t.node(&steps(&["x"])).unwrap();
    assert!(std::ptr::eq(x, &root.nodes[*root.children.get("x").unwrap()]));
    let xx = t.node(&steps(&["x", "x"])).unwrap();
    assert!(std::ptr::eq(xx, &x.nodes[*x.children.get("x").unwrap()]));
    assert_eq!(xx.children.keys, vec!["b"]);
    assert!(t.node(&steps(&["y"])).is_none());
    assert!(t.node(&steps(&["y", "x"])).is_none());
}
