//! Requests that create, remove, rename or read single files, directories and
//! branches.

use crate::caches::{any_below, has_below};
use crate::component::{is_valid_component, is_valid_disk_name, valid_component, valid_disk_name};
use crate::fs::{
    child_added, dir_attr, is_path, link_attr, only_state_changes, only_state_differs, path_of,
    with_tree, TreeportFs,
};
use crate::fspath::{path_join, FsPath};
use crate::names::NameMap;
use crate::node::{directories, NodeKind, StateView};
use crate::protocol::{name_in, str_name, FileAttr, Status};
use crate::task::{DiskTask, DiskTaskView, RefsTask, RefsTaskView};
use crate::text::{exact_text, utf8};
use crate::tree::{KindView, NfsTime, TreeView};
use crate::trie::{is_ref_path, BranchTrie};
use vstd::prelude::*;
use vstd::string::*;

verus! {

/// Whether a task or a failure is the one wanted.
pub open spec fn is_task(r: Result<DiskTask, Status>, want: Result<DiskTaskView, Status>) -> bool {
    match (r, want) {
        (Ok(task), Ok(t)) => task@ == t,
        (Err(e), Err(s)) => e == s,
        _ => false,
    }
}

/// Where a request acts that changes something in a directory on disk: names
/// that could escape the directory are refused, and so are virtual
/// directories.
pub open spec fn disk_target(tree: TreeView, dirid: u64, name: Seq<char>) -> Result<
    DiskTaskView,
    Status,
> {
    if !is_valid_disk_name(name) {
        Err(Status::Acces)
    } else {
        match path_of(tree, dirid, Status::RoFs) {
            Ok(dir) => Ok(DiskTaskView { dirid, name, path: path_join(dir, utf8(name)) }),
            Err(status) => Err(status),
        }
    }
}

/// [`TreeportFs::create`].
pub open spec fn creates(tree: TreeView, dirid: u64, filename: Seq<u8>) -> Result<
    DiskTaskView,
    Status,
> {
    match name_in(filename) {
        Some(name) => disk_target(tree, dirid, name),
        None => Err(Status::NoEnt),
    }
}

/// [`TreeportFs::symlink`].
pub open spec fn links(tree: TreeView, dirid: u64, linkname: Seq<u8>, target: Seq<u8>) -> Result<
    DiskTaskView,
    Status,
> {
    match name_in(linkname) {
        Some(name) => if !is_valid_disk_name(name) {
            Err(Status::Acces)
        } else if name_in(target) is None {
            Err(Status::Inval)
        } else {
            disk_target(tree, dirid, name)
        },
        None => Err(Status::NoEnt),
    }
}

/// Whether a node is a directory of the `refs` subtree.
pub open spec fn is_refs_dir(tree: TreeView, id: u64) -> bool {
    tree.kind(id) matches Some(kind) && (kind is RefsRoot || kind is RefPath)
}

/// What making a directory comes to after its first step.
#[derive(Debug)]
pub enum MkdirStep {
    Fail(Status),
    /// In the `refs` subtree a new directory is a new branch: neither the
    /// remote nor a foreign worktree may have it
    /// ([`TreeportFs::mkdir_unknown`], [`TreeportFs::mkdir_unclaimed`]); it is
    /// forked off the default branch, then [`TreeportFs::mkdir_branch`].
    Branch(RefsTask),
    /// Make it on disk, then [`TreeportFs::add_disk_child`].
    OnDisk(DiskTask),
}

/// What a [`MkdirStep`] says.
pub enum MkdirStepView {
    Fail(Status),
    Branch(RefsTaskView),
    OnDisk(DiskTaskView),
}

impl View for MkdirStep {
    type V = MkdirStepView;

    open spec fn view(&self) -> MkdirStepView {
        match *self {
            MkdirStep::Fail(status) => MkdirStepView::Fail(status),
            MkdirStep::Branch(task) => MkdirStepView::Branch(task@),
            MkdirStep::OnDisk(task) => MkdirStepView::OnDisk(task@),
        }
    }
}

/// [`TreeportFs::plan_mkdir`].
pub open spec fn makes_dir(tree: TreeView, dirid: u64, dirname: Seq<u8>) -> MkdirStepView {
    match name_in(dirname) {
        None => MkdirStepView::Fail(Status::NoEnt),
        Some(name) => if !tree.nodes.contains_key(dirid) {
            MkdirStepView::Fail(Status::Stale)
        } else if is_refs_dir(tree, dirid) {
            if tree.child(dirid, name) is Some {
                MkdirStepView::Fail(Status::Exist)
            } else if !is_valid_component(name) {
                MkdirStepView::Fail(Status::Acces)
            } else {
                match tree.refs_context(dirid) {
                    Some(parent) => MkdirStepView::Branch(
                        RefsTaskView { dirid, parent, name, existing: None },
                    ),
                    None => MkdirStepView::Fail(Status::Stale),
                }
            }
        } else {
            match disk_target(tree, dirid, name) {
                Ok(task) => MkdirStepView::OnDisk(task),
                Err(status) => MkdirStepView::Fail(status),
            }
        },
    }
}

/// [`TreeportFs::mkdir_branch`]: the worktree is entered, and the first
/// refresh left out.
pub open spec fn branch_made(
    state: StateView,
    task: RefsTaskView,
    root: Seq<u8>,
    now: u128,
    wall: NfsTime,
) -> (StateView, u64) {
    let (after, id) = child_added(
        state,
        task.dirid,
        task.name,
        KindView::Worktree { root },
        wall,
    );
    (StateView { wt_refresh: after.wt_refresh.insert(id, now), ..after }, id)
}

/// What a removal comes to after its first step.
#[derive(Debug)]
pub enum RemoveStep {
    Fail(Status),
    /// In the `refs` subtree removing a directory deletes the branch
    /// everywhere. Where `certain` is not set, it must first be seen to be a
    /// branch ([`TreeportFs::remove_is_foreign`],
    /// [`TreeportFs::remove_is_branch`]); once it is deleted, then
    /// [`TreeportFs::remove_branch`].
    Branch { task: RefsTask, certain: bool },
    /// Remove it on disk, then [`TreeportFs::remove_disk`].
    OnDisk(DiskTask),
}

/// What a [`RemoveStep`] says.
pub enum RemoveStepView {
    Fail(Status),
    Branch { task: RefsTaskView, certain: bool },
    OnDisk(DiskTaskView),
}

impl View for RemoveStep {
    type V = RemoveStepView;

    open spec fn view(&self) -> RemoveStepView {
        match *self {
            RemoveStep::Fail(status) => RemoveStepView::Fail(status),
            RemoveStep::Branch { task, certain } => RemoveStepView::Branch { task: task@, certain },
            RemoveStep::OnDisk(task) => RemoveStepView::OnDisk(task@),
        }
    }
}

/// Whether a child is a branch that is checked out, here or elsewhere.
pub open spec fn is_checked_out(tree: TreeView, dirid: u64, name: Seq<char>) -> bool {
    tree.child(dirid, name) matches Some(id) && tree.kind(id) matches Some(kind) && (kind is Worktree
        || kind is ForeignWorktree)
}

/// [`TreeportFs::plan_remove`].
pub open spec fn removes(tree: TreeView, dirid: u64, filename: Seq<u8>) -> RemoveStepView {
    match name_in(filename) {
        None => RemoveStepView::Fail(Status::NoEnt),
        Some(name) => if !tree.nodes.contains_key(dirid) {
            RemoveStepView::Fail(Status::Stale)
        } else if is_refs_dir(tree, dirid) {
            match tree.refs_context(dirid) {
                Some(parent) => RemoveStepView::Branch {
                    task: RefsTaskView { dirid, parent, name, existing: tree.child(dirid, name) },
                    certain: is_checked_out(tree, dirid, name),
                },
                None => RemoveStepView::Fail(Status::Stale),
            }
        } else {
            match disk_target(tree, dirid, name) {
                Ok(task) => RemoveStepView::OnDisk(task),
                Err(status) => RemoveStepView::Fail(status),
            }
        },
    }
}

/// [`TreeportFs::remove_is_branch`]: what leads to a branch without being one
/// cannot be removed.
pub open spec fn removable(branches: Set<Seq<Seq<char>>>, segs: Seq<Seq<char>>) -> Result<
    (),
    Status,
> {
    if branches.contains(segs) {
        Ok(())
    } else if is_ref_path(branches, segs) {
        Err(Status::Acces)
    } else {
        Err(Status::NoEnt)
    }
}

/// [`TreeportFs::remove_branch`]: the node goes, and what is cached about the
/// repository, so that the branch does not linger.
pub open spec fn branch_removed(state: StateView, task: RefsTaskView, wall: NfsTime) -> StateView {
    StateView {
        tree: state.tree.without_child(task.dirid, task.name, wall),
        wt_refresh: match state.tree.child(task.dirid, task.name) {
            Some(id) => state.wt_refresh.remove(id),
            None => state.wt_refresh,
        },
        tries: state.tries.remove(task.key()),
        foreign: state.foreign.remove(task.key()),
        ..state
    }
}

/// A rename on disk.
#[derive(Debug)]
pub struct RenameTask {
    pub from: DiskTask,
    pub to: DiskTask,
}

/// [`TreeportFs::rename`]: what is moved, and to where.
pub open spec fn renames(
    tree: TreeView,
    from_dirid: u64,
    from_filename: Seq<u8>,
    to_dirid: u64,
    to_filename: Seq<u8>,
) -> Result<(DiskTaskView, DiskTaskView), Status> {
    match (name_in(from_filename), name_in(to_filename)) {
        (Some(from_name), Some(to_name)) => if !is_valid_disk_name(from_name) || !is_valid_disk_name(
            to_name,
        ) {
            Err(Status::Acces)
        } else {
            match (disk_target(tree, from_dirid, from_name), disk_target(tree, to_dirid, to_name)) {
                (Ok(from), Ok(to)) => Ok((from, to)),
                (Err(status), _) => Err(status),
                (_, Err(status)) => Err(status),
            }
        },
        _ => Err(Status::NoEnt),
    }
}

/// [`TreeportFs::rename_done`]. What the rename overwrote is dropped, and what
/// it moved hangs in its new place. Through symlinked directories a rename can
/// move something to a place that the tree has below it; it hangs below itself
/// from then on, and has no path any more.
pub open spec fn rename_recorded(
    state: StateView,
    from: DiskTaskView,
    to: DiskTaskView,
    wall: NfsTime,
) -> StateView {
    with_tree(state, state.tree.renamed(from.dirid, from.name, to.dirid, to.name, wall))
}

/// Where the attributes of a node come from.
#[derive(Debug)]
pub enum AttrStep {
    Done(Result<FileAttr, Status>),
    /// From what stands at the path.
    OnDisk(FsPath),
}

/// What an [`AttrStep`] says.
pub enum AttrStepView {
    Done(Result<FileAttr, Status>),
    OnDisk(Seq<u8>),
}

impl View for AttrStep {
    type V = AttrStepView;

    open spec fn view(&self) -> AttrStepView {
        match *self {
            AttrStep::Done(result) => AttrStepView::Done(result),
            AttrStep::OnDisk(path) => AttrStepView::OnDisk(path@),
        }
    }
}

/// [`TreeportFs::getattr`].
pub open spec fn attributes(
    tree: TreeView,
    owner: (u32, u32),
    started: NfsTime,
    id: u64,
) -> AttrStepView {
    match tree.kind(id) {
        None => AttrStepView::Done(Err(Status::Stale)),
        Some(KindView::Worktree { .. }) | Some(KindView::Disk) => match tree.disk_path(id) {
            Some(path) => AttrStepView::OnDisk(path),
            None => AttrStepView::Done(Err(Status::Stale)),
        },
        Some(KindView::ForeignWorktree { target }) => AttrStepView::Done(
            Ok(link_attr(owner, started, id, target)),
        ),
        _ => AttrStepView::Done(Ok(dir_attr(tree, owner, started, id))),
    }
}

/// Where the target of a symlink comes from.
#[derive(Debug)]
pub enum LinkStep {
    Fail(Status),
    /// It is this.
    Target(FsPath),
    /// From the link that stands at the path.
    OnDisk(FsPath),
}

/// What a [`LinkStep`] says.
pub enum LinkStepView {
    Fail(Status),
    Target(Seq<u8>),
    OnDisk(Seq<u8>),
}

impl View for LinkStep {
    type V = LinkStepView;

    open spec fn view(&self) -> LinkStepView {
        match *self {
            LinkStep::Fail(status) => LinkStepView::Fail(status),
            LinkStep::Target(path) => LinkStepView::Target(path@),
            LinkStep::OnDisk(path) => LinkStepView::OnDisk(path@),
        }
    }
}

/// [`TreeportFs::readlink`].
pub open spec fn link_target(tree: TreeView, id: u64) -> LinkStepView {
    match tree.kind(id) {
        Some(KindView::ForeignWorktree { target }) => LinkStepView::Target(target),
        _ => match path_of(tree, id, Status::Inval) {
            Ok(path) => LinkStepView::OnDisk(path),
            Err(status) => LinkStepView::Fail(status),
        },
    }
}

impl TreeportFs {
    fn in_disk_dir(&self, dirid: u64, name: String) -> (r: Result<DiskTask, Status>)
        requires
            self.state.wf(),
        ensures
            is_task(r, disk_target(self.state@.tree, dirid, name@)),
    {
        if !valid_disk_name(name.as_str()) {
            return Err(Status::Acces);
        }
        match self.writable_dir(dirid) {
            Ok(dir) => {
                let path = dir.join(name.as_str());
                Ok(DiskTask { dirid, name, path })
            },
            Err(status) => Err(status),
        }
    }

    fn is_refs_dir(&self, id: u64) -> (r: bool)
        requires
            self.state.wf(),
        ensures
            r == is_refs_dir(self.state@.tree, id),
    {
        match self.state.get(id) {
            Some(n) => match &n.kind {
                NodeKind::RefsRoot | NodeKind::RefPath => true,
                _ => false,
            },
            None => false,
        }
    }

    /// Where a new file is to be created. Once it is there, it is entered by
    /// [`TreeportFs::add_disk_child`].
    pub fn create(&self, dirid: u64, filename: &[u8]) -> (r: Result<DiskTask, Status>)
        requires
            self.state.wf(),
        ensures
            is_task(r, creates(self.state@.tree, dirid, filename@)),
    {
        match str_name(filename) {
            Ok(name) => self.in_disk_dir(dirid, name),
            Err(status) => Err(status),
        }
    }

    /// Where a new file is to be created that must not be there yet. Once it
    /// is there, it is entered by [`TreeportFs::add_disk_child`].
    pub fn create_exclusive(&self, dirid: u64, filename: &[u8]) -> (r: Result<DiskTask, Status>)
        requires
            self.state.wf(),
        ensures
            is_task(r, creates(self.state@.tree, dirid, filename@)),
    {
        self.create(dirid, filename)
    }

    /// Where a new symlink is to be created, and what it points to. Once it is
    /// there, it is entered by [`TreeportFs::add_disk_child`].
    pub fn symlink(&self, dirid: u64, linkname: &[u8], target: &[u8]) -> (r: Result<
        (DiskTask, String),
        Status,
    >)
        requires
            self.state.wf(),
        ensures
            match (r, links(self.state@.tree, dirid, linkname@, target@)) {
                (Ok((task, text)), Ok(t)) => task@ == t && name_in(target@) == Some(text@),
                (Err(e), Err(s)) => e == s,
                _ => false,
            },
    {
        let name = match str_name(linkname) {
            Ok(name) => name,
            Err(status) => {
                return Err(status);
            },
        };
        if !valid_disk_name(name.as_str()) {
            return Err(Status::Acces);
        }
        let text = match exact_text(target) {
            Some(text) => text,
            None => {
                return Err(Status::Inval);
            },
        };
        match self.in_disk_dir(dirid, name) {
            Ok(task) => Ok((task, text)),
            Err(status) => Err(status),
        }
    }

    /// Makes a directory, as far as the state alone tells.
    pub fn plan_mkdir(&self, dirid: u64, dirname: &[u8]) -> (r: MkdirStep)
        requires
            self.state.wf(),
        ensures
            r@ == makes_dir(self.state@.tree, dirid, dirname@),
    {
        let name = match str_name(dirname) {
            Ok(name) => name,
            Err(status) => {
                return MkdirStep::Fail(status);
            },
        };
        if self.state.get(dirid).is_none() {
            return MkdirStep::Fail(Status::Stale);
        }
        if self.is_refs_dir(dirid) {
            if self.state.child(dirid, name.as_str()).is_some() {
                return MkdirStep::Fail(Status::Exist);
            }
            if !valid_component(name.as_str()) {
                return MkdirStep::Fail(Status::Acces);
            }
            return match self.state.refs_context(dirid) {
                Some(parent) => MkdirStep::Branch(RefsTask { dirid, parent, name, existing: None }),
                None => MkdirStep::Fail(Status::Stale),
            };
        }
        match self.in_disk_dir(dirid, name) {
            Ok(task) => MkdirStep::OnDisk(task),
            Err(status) => MkdirStep::Fail(status),
        }
    }

    /// Whether the remote leaves room for a new branch.
    pub fn mkdir_unknown(&self, task: &RefsTask, trie: &BranchTrie) -> (r: Result<(), Status>)
        requires
            trie.wf(),
        ensures
            r == if is_ref_path(trie@, task@.segs()) {
                Err::<(), Status>(Status::Exist)
            } else {
                Ok(())
            },
    {
        let segs = task.segs();
        if trie.node(segs.as_slice()).is_some() {
            Err(Status::Exist)
        } else {
            Ok(())
        }
    }

    /// Whether the foreign worktrees leave room for a new branch.
    pub fn mkdir_unclaimed(&self, task: &RefsTask, foreign: &NameMap<FsPath>) -> (r: Result<
        (),
        Status,
    >)
        requires
            foreign.wf(),
        ensures
            r == if directories(foreign@).contains_key(task@.branch()) || has_below(
                directories(foreign@),
                task@.branch(),
            ) {
                Err::<(), Status>(Status::Exist)
            } else {
                Ok(())
            },
    {
        let branch = task.branch();
        if foreign.contains_key(branch.as_str()) || any_below(foreign, branch.as_str()) {
            Err(Status::Exist)
        } else {
            Ok(())
        }
    }

    /// Enters a new branch whose worktree stands at `root`.
    pub fn mkdir_branch(&mut self, task: &RefsTask, root: FsPath, now: u128, wall: NfsTime) -> (r:
        u64)
        requires
            old(self).state.wf(),
            old(self).state@.tree.next_id < u64::MAX,
        ensures
            only_state_changes(
                old(self),
                final(self),
                task.dirid < old(self).state@.tree.next_id,
            ),
            (final(self).state@, r) == branch_made(old(self).state@, task@, root@, now, wall),
    {
        let id = self.state.add_child(
            task.dirid,
            task.name.as_str(),
            NodeKind::Worktree { root },
            wall,
        );
        self.state.note_refresh(id, now);
        id
    }

    /// Removes a file, a directory or a branch, as far as the state alone
    /// tells.
    pub fn plan_remove(&self, dirid: u64, filename: &[u8]) -> (r: RemoveStep)
        requires
            self.state.wf(),
        ensures
            r@ == removes(self.state@.tree, dirid, filename@),
    {
        let name = match str_name(filename) {
            Ok(name) => name,
            Err(status) => {
                return RemoveStep::Fail(status);
            },
        };
        if self.state.get(dirid).is_none() {
            return RemoveStep::Fail(Status::Stale);
        }
        if self.is_refs_dir(dirid) {
            let parent = match self.state.refs_context(dirid) {
                Some(parent) => parent,
                None => {
                    return RemoveStep::Fail(Status::Stale);
                },
            };
            let existing = self.state.child(dirid, name.as_str());
            let certain = match existing {
                Some(id) => match self.state.get(id) {
                    Some(n) => match &n.kind {
                        NodeKind::Worktree { .. } | NodeKind::ForeignWorktree { .. } => true,
                        _ => false,
                    },
                    None => false,
                },
                None => false,
            };
            return RemoveStep::Branch { task: RefsTask { dirid, parent, name, existing }, certain };
        }
        match self.in_disk_dir(dirid, name) {
            Ok(task) => RemoveStep::OnDisk(task),
            Err(status) => RemoveStep::Fail(status),
        }
    }

    /// Whether what is to be removed is a branch checked out elsewhere.
    pub fn remove_is_foreign(&self, task: &RefsTask, foreign: &NameMap<FsPath>) -> (r: bool)
        requires
            foreign.wf(),
        ensures
            r == directories(foreign@).contains_key(task@.branch()),
    {
        foreign.contains_key(task.branch().as_str())
    }

    /// Whether what is to be removed is a branch of the remote.
    pub fn remove_is_branch(&self, task: &RefsTask, trie: &BranchTrie) -> (r: Result<(), Status>)
        requires
            trie.wf(),
        ensures
            r == removable(trie@, task@.segs()),
    {
        let segs = task.segs();
        match trie.node(segs.as_slice()) {
            Some(n) => {
                if n.is_branch {
                    Ok(())
                } else {
                    Err(Status::Acces)
                }
            },
            None => Err(Status::NoEnt),
        }
    }

    /// Forgets a branch that has been deleted.
    pub fn remove_branch(&mut self, task: &RefsTask, wall: NfsTime)
        requires
            old(self).state.wf(),
        ensures
            only_state_differs(old(self), final(self)),
            final(self).state@ == branch_removed(old(self).state@, task@, wall),
    {
        match self.state.child(task.dirid, task.name.as_str()) {
            Some(id) => {
                self.state.forget_refresh(id);
            },
            None => {},
        }
        self.state.remove_child(task.dirid, task.name.as_str(), wall);
        self.state.drop_trie(task.org(), task.repo());
        self.state.drop_foreign(task.org(), task.repo());
    }

    /// Forgets something that has been removed on disk.
    pub fn remove_disk(&mut self, task: &DiskTask, wall: NfsTime)
        requires
            old(self).state.wf(),
        ensures
            only_state_differs(old(self), final(self)),
            final(self).state@ == with_tree(
                old(self).state@,
                old(self).state@.tree.without_child(task@.dirid, task@.name, wall),
            ),
    {
        self.state.remove_child(task.dirid, task.name.as_str(), wall);
    }

    /// What a rename moves, and to where.
    pub fn rename(
        &self,
        from_dirid: u64,
        from_filename: &[u8],
        to_dirid: u64,
        to_filename: &[u8],
    ) -> (r: Result<RenameTask, Status>)
        requires
            self.state.wf(),
        ensures
            match (
                r,
                renames(self.state@.tree, from_dirid, from_filename@, to_dirid, to_filename@),
            ) {
                (Ok(task), Ok((from, to))) => task.from@ == from && task.to@ == to,
                (Err(e), Err(s)) => e == s,
                _ => false,
            },
    {
        let from_name = match str_name(from_filename) {
            Ok(name) => name,
            Err(status) => {
                return Err(status);
            },
        };
        let to_name = match str_name(to_filename) {
            Ok(name) => name,
            Err(status) => {
                return Err(status);
            },
        };
        if !valid_disk_name(from_name.as_str()) || !valid_disk_name(to_name.as_str()) {
            return Err(Status::Acces);
        }
        let from = match self.in_disk_dir(from_dirid, from_name) {
            Ok(task) => task,
            Err(status) => {
                return Err(status);
            },
        };
        match self.in_disk_dir(to_dirid, to_name) {
            Ok(to) => Ok(RenameTask { from, to }),
            Err(status) => Err(status),
        }
    }

    /// Records a rename that was done on disk.
    pub fn rename_done(&mut self, task: &RenameTask, wall: NfsTime)
        requires
            old(self).state.wf(),
        ensures
            only_state_changes(
                old(self),
                final(self),
                task.to.dirid < old(self).state@.tree.next_id,
            ),
            final(self).state@ == rename_recorded(old(self).state@, task.from@, task.to@, wall),
    {
        let from = &task.from;
        let to = &task.to;
        self.state.rename_child(
            from.dirid,
            from.name.as_str(),
            to.dirid,
            to.name.as_str(),
            wall,
        );
    }

    /// The attributes of a node.
    pub fn getattr(&self, id: u64) -> (r: AttrStep)
        requires
            self.state.wf(),
        ensures
            r@ == attributes(self.state@.tree, self.owner, self.started, id),
    {
        let node = match self.state.get(id) {
            Some(node) => node,
            None => {
                return AttrStep::Done(Err(Status::Stale));
            },
        };
        match &node.kind {
            NodeKind::Worktree { .. } | NodeKind::Disk => match self.state.disk_path(id) {
                Some(path) => AttrStep::OnDisk(path),
                None => AttrStep::Done(Err(Status::Stale)),
            },
            NodeKind::ForeignWorktree { target } => AttrStep::Done(
                Ok(self.symlink_attr(id, target)),
            ),
            _ => AttrStep::Done(Ok(self.virtual_dir_attr(id))),
        }
    }

    /// Where attributes are to be set.
    pub fn setattr(&self, id: u64) -> (r: Result<FsPath, Status>)
        requires
            self.state.wf(),
        ensures
            is_path(r, path_of(self.state@.tree, id, Status::RoFs)),
    {
        self.disk_path_of(id, Status::RoFs)
    }

    /// Where a file is to be read.
    pub fn read(&self, id: u64) -> (r: Result<FsPath, Status>)
        requires
            self.state.wf(),
        ensures
            is_path(r, path_of(self.state@.tree, id, Status::IsDir)),
    {
        self.disk_path_of(id, Status::IsDir)
    }

    /// Where a file is to be written.
    pub fn write(&self, id: u64) -> (r: Result<FsPath, Status>)
        requires
            self.state.wf(),
        ensures
            is_path(r, path_of(self.state@.tree, id, Status::RoFs)),
    {
        self.disk_path_of(id, Status::RoFs)
    }

    /// Where a symlink points.
    pub fn readlink(&self, id: u64) -> (r: LinkStep)
        requires
            self.state.wf(),
        ensures
            r@ == link_target(self.state@.tree, id),
    {
        match self.state.get(id) {
            Some(node) => match &node.kind {
                NodeKind::ForeignWorktree { target } => {
                    return LinkStep::Target(target.clone());
                },
                _ => {},
            },
            None => {},
        }
        match self.disk_path_of(id, Status::Inval) {
            Ok(path) => LinkStep::OnDisk(path),
            Err(status) => LinkStep::Fail(status),
        }
    }
}

} // verus!
