//! The filesystem that serves the virtual tree.
//!
//! Layout: `/ <org> / <repo> / refs / <branch...> / <worktree files>`.
//!
//! Organisations, repositories and ref segments are virtual directories,
//! resolved lazily. The first access to a full branch path materializes a git
//! worktree in the cache on disk; everything below it is a read-write
//! passthrough to those files.
//!
//! A request is served in steps. A step decides what it can from the state;
//! where it needs something from outside, it says what, and the next step
//! takes the answer.

use crate::fspath::FsPath;
use crate::git::GitCache;
use crate::node::{NodeKind, State, StateView};
use crate::protocol::{FileAttr, FileType, Status};
use crate::text::{lossy, lossy_text, strip_suffix};
use crate::tree::{KindView, NfsTime, ROOT_ID, TreeView};
use vstd::prelude::*;
use vstd::string::*;

verus! {

/// The filesystem.
#[derive(Debug)]
pub struct TreeportFs {
    pub git: GitCache,
    pub state: State,
    /// User and group that own the virtual directories.
    pub owner: (u32, u32),
    /// When the server was started.
    pub started: NfsTime,
}

/// Whether two filesystems differ in nothing but their state, which is in
/// order.
pub open spec fn only_state_differs(a: &TreeportFs, b: &TreeportFs) -> bool {
    &&& b.state.wf()
    &&& b.git == a.git
    &&& b.owner == a.owner
    &&& b.started == a.started
}

/// Whether two filesystems differ in nothing but their state, whose maps are
/// in order; where `kept` holds, its tree has its form too.
pub open spec fn only_state_changes(a: &TreeportFs, b: &TreeportFs, kept: bool) -> bool {
    &&& b.state.sound()
    &&& kept ==> b.state.wf()
    &&& b.git == a.git
    &&& b.owner == a.owner
    &&& b.started == a.started
}

/// The state with its tree replaced.
pub open spec fn with_tree(state: StateView, tree: TreeView) -> StateView {
    StateView { tree, ..state }
}

/// A file found in the cache's directory of repositories: the name of the
/// directory it is in, and its own.
#[derive(Debug)]
pub struct CachedRepo {
    pub org: Vec<u8>,
    pub file: Vec<u8>,
}

/// The tree with a repository in it, its organisation above and its `refs`
/// directory below it.
pub open spec fn with_repo(
    tree: TreeView,
    org: Seq<char>,
    repo: Seq<char>,
    now: NfsTime,
) -> TreeView {
    let org_id = tree.child_id(ROOT_ID, org);
    let tree = tree.with_child(ROOT_ID, org, KindView::Org, now);
    let repo_id = tree.child_id(org_id, repo);
    let tree = tree.with_child(org_id, repo, KindView::Repo, now);
    tree.with_child(repo_id, "refs"@, KindView::RefsRoot, now)
}

/// The tree with what a list of files in the cache stands for: those whose
/// name ends in `.git` are repositories.
pub open spec fn scanned(tree: TreeView, found: Seq<CachedRepo>, now: NfsTime) -> TreeView
    decreases found.len(),
{
    if found.len() == 0 {
        tree
    } else {
        let before = scanned(tree, found.drop_last(), now);
        let file = lossy(found.last().file@);
        if ".git"@.is_suffix_of(file) {
            with_repo(
                before,
                lossy(found.last().org@),
                file.take(file.len() - ".git"@.len()),
                now,
            )
        } else {
            before
        }
    }
}

/// Enters the repositories that earlier runs have cloned, so that the root is
/// not empty after a restart.
pub fn scan_cache(state: &mut State, found: &Vec<CachedRepo>, now: NfsTime)
    requires
        old(state).wf(),
        old(state)@.tree.next_id + 3 * found@.len() < u64::MAX,
    ensures
        final(state).wf(),
        final(state)@ == with_tree(old(state)@, scanned(old(state)@.tree, found@, now)),
{
    let ghost before = state@;
    let mut i: usize = 0;
    assert(found@.take(0) =~= Seq::empty());
    while i < found.len()
        invariant
            i <= found@.len(),
            state.wf(),
            before.tree.next_id + 3 * found@.len() < u64::MAX,
            state@.tree.next_id <= before.tree.next_id + 3 * i,
            state@ == with_tree(before, scanned(before.tree, found@.take(i as int), now)),
        decreases found@.len() - i,
    {
        proof {
            reveal_strlit(".git");
            assert(found@.take(i + 1).drop_last() =~= found@.take(i as int));
            assert(found@.take(i + 1).last() == found@[i as int]);
        }
        let ghost tree = state@.tree;
        let file = lossy_text(found[i].file.as_slice());
        match strip_suffix(file.as_str(), ".git") {
            Some(repo) => {
                proof {
                    assert(file@.take(file@.len() - ".git"@.len()) =~= repo@);
                    assert(".git"@ =~= file@.subrange(repo@.len() as int, file@.len() as int));
                }
                let org = lossy_text(found[i].org.as_slice());
                proof {
                    state.lemma_wf();
                    tree.lemma_with_child(ROOT_ID, org@, KindView::Org, now);
                }
                let org_id = state.add_child(ROOT_ID, org.as_str(), NodeKind::Org, now);
                proof {
                    let t1 = tree.with_child(ROOT_ID, org@, KindView::Org, now);
                    t1.lemma_with_child(org_id, repo@, KindView::Repo, now);
                }
                let repo_id = state.add_child(org_id, repo, NodeKind::Repo, now);
                state.add_child(repo_id, "refs", NodeKind::RefsRoot, now);
            },
            None => {},
        }
        i = i + 1;
    }
    assert(found@.take(found@.len() as int) =~= found@);
}

/// The attributes of a virtual directory. Its time tracks changes of the
/// listing, so that clients drop cached contents when something appears or
/// vanishes.
pub open spec fn dir_attr(
    tree: TreeView,
    owner: (u32, u32),
    started: NfsTime,
    id: u64,
) -> FileAttr {
    let mtime = if tree.nodes.contains_key(id) {
        tree.nodes[id].mtime
    } else {
        started
    };
    FileAttr {
        ftype: FileType::Directory,
        mode: 0x1ed,
        nlink: 2,
        uid: owner.0,
        gid: owner.1,
        size: 4096,
        used: 4096,
        rdev_major: 0,
        rdev_minor: 0,
        fsid: 0,
        fileid: id,
        atime: mtime,
        mtime,
        ctime: mtime,
    }
}

/// The attributes of a symlink to a foreign worktree.
pub open spec fn link_attr(
    owner: (u32, u32),
    started: NfsTime,
    id: u64,
    target: Seq<u8>,
) -> FileAttr {
    FileAttr {
        ftype: FileType::Link,
        mode: 0x1ff,
        nlink: 1,
        uid: owner.0,
        gid: owner.1,
        size: target.len() as u64,
        used: target.len() as u64,
        rdev_major: 0,
        rdev_minor: 0,
        fsid: 0,
        fileid: id,
        atime: started,
        mtime: started,
        ctime: started,
    }
}

/// The real path of a node, or why it has none.
pub open spec fn path_of(tree: TreeView, id: u64, err: Status) -> Result<Seq<u8>, Status> {
    if !tree.nodes.contains_key(id) {
        Err(Status::Stale)
    } else {
        match tree.disk_path(id) {
            Some(path) => Ok(path),
            None => Err(err),
        }
    }
}

/// Whether a path or a failure is the one wanted.
pub open spec fn is_path(r: Result<FsPath, Status>, want: Result<Seq<u8>, Status>) -> bool {
    match (r, want) {
        (Ok(path), Ok(p)) => path@ == p,
        (Err(e), Err(s)) => e == s,
        _ => false,
    }
}

impl TreeportFs {
    /// A filesystem over the repositories that `git` reaches, with those that
    /// were found in the cache entered.
    pub fn new(
        git: GitCache,
        owner: (u32, u32),
        started: NfsTime,
        found: &Vec<CachedRepo>,
    ) -> (r: TreeportFs)
        requires
            2 + 3 * found@.len() < u64::MAX,
        ensures
            r.state.wf(),
            r.git == git,
            r.owner == owner,
            r.started == started,
            r.state@ == (StateView {
                tree: scanned(TreeView::bare_root(started), found@, started),
                tries: Map::empty(),
                missing_repos: Map::empty(),
                wt_refresh: Map::empty(),
                default_branches: Map::empty(),
                foreign: Map::empty(),
            }),
    {
        let mut state = State::new(started);
        scan_cache(&mut state, found, started);
        TreeportFs { git, state, owner, started }
    }

    /// How many numbers are left for new nodes.
    pub fn ids_left(&self) -> (r: u64)
        ensures
            r == u64::MAX - self.state@.tree.next_id,
    {
        self.state.ids_left()
    }

    /// The attributes of a virtual directory.
    pub fn virtual_dir_attr(&self, id: u64) -> (r: FileAttr)
        requires
            self.state.sound(),
        ensures
            r == dir_attr(self.state@.tree, self.owner, self.started, id),
    {
        let mtime = match self.state.get(id) {
            Some(n) => n.mtime,
            None => self.started,
        };
        FileAttr {
            ftype: FileType::Directory,
            mode: 0x1ed,
            nlink: 2,
            uid: self.owner.0,
            gid: self.owner.1,
            size: 4096,
            used: 4096,
            rdev_major: 0,
            rdev_minor: 0,
            fsid: 0,
            fileid: id,
            atime: mtime,
            mtime,
            ctime: mtime,
        }
    }

    /// The attributes of a symlink to a foreign worktree.
    pub fn symlink_attr(&self, id: u64, target: &FsPath) -> (r: FileAttr)
        ensures
            r == link_attr(self.owner, self.started, id, target@),
    {
        let len: u64 = target.as_bytes().len() as u64;
        FileAttr {
            ftype: FileType::Link,
            mode: 0x1ff,
            nlink: 1,
            uid: self.owner.0,
            gid: self.owner.1,
            size: len,
            used: len,
            rdev_major: 0,
            rdev_minor: 0,
            fsid: 0,
            fileid: id,
            atime: self.started,
            mtime: self.started,
            ctime: self.started,
        }
    }

    /// Resolves a node to its real path; `err` answers for virtual nodes.
    pub fn disk_path_of(&self, id: u64, err: Status) -> (r: Result<FsPath, Status>)
        requires
            self.state.wf(),
        ensures
            is_path(r, path_of(self.state@.tree, id, err)),
    {
        if self.state.get(id).is_none() {
            return Err(Status::Stale);
        }
        match self.state.disk_path(id) {
            Some(path) => Ok(path),
            None => Err(err),
        }
    }

    /// Resolves a directory to its real path, for changes in it.
    pub fn writable_dir(&self, dirid: u64) -> (r: Result<FsPath, Status>)
        requires
            self.state.wf(),
        ensures
            is_path(r, path_of(self.state@.tree, dirid, Status::RoFs)),
    {
        self.disk_path_of(dirid, Status::RoFs)
    }

    /// Enters something that stands in a directory on disk.
    pub fn add_disk_child(&mut self, dirid: u64, name: &str, now: NfsTime) -> (r: u64)
        requires
            old(self).state.wf(),
            old(self).state@.tree.next_id < u64::MAX,
        ensures
            only_state_changes(
                old(self),
                final(self),
                dirid < old(self).state@.tree.next_id,
            ),
            (final(self).state@, r) == child_added(old(self).state@, dirid, name@, KindView::Disk, now),
    {
        self.state.add_child(dirid, name, NodeKind::Disk, now)
    }
}

/// Entering a child in a directory: the state after it, and its number.
pub open spec fn child_added(
    state: StateView,
    dirid: u64,
    name: Seq<char>,
    kind: KindView,
    now: NfsTime,
) -> (StateView, u64) {
    (
        with_tree(state, state.tree.with_child(dirid, name, kind, now)),
        state.tree.child_id(dirid, name),
    )
}

} // verus!
