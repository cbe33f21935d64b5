//! Looking up a name in a directory.

use crate::component::{is_valid_component, is_valid_disk_name, valid_component, valid_disk_name};
use crate::caches::{any_below, has_below};
use crate::config::Config;
use crate::fs::{child_added, only_state_changes, only_state_differs, with_tree, TreeportFs};
use crate::fspath::{path_join, FsPath};
use crate::git::git_file;
use crate::names::NameMap;
use crate::node::{directories, NodeKind, StateView};
use crate::protocol::{name_in, str_name, Status};
use crate::task::{branch_name, DiskTask, DiskTaskView, RefsTask, RefsTaskView};
use crate::text::{join, same, utf8};
use crate::tree::{KindView, NfsTime, ROOT_ID, TreeView};
use crate::trie::{is_ref_path, BranchTrie};
use vstd::prelude::*;
use vstd::string::*;

verus! {

/// A repository that is to be validated against the remote.
#[derive(Debug)]
pub struct ProbeTask {
    pub dirid: u64,
    pub org: String,
    pub name: String,
}

/// What a [`ProbeTask`] says.
pub struct ProbeView {
    pub dirid: u64,
    pub org: Seq<char>,
    pub name: Seq<char>,
}

impl View for ProbeTask {
    type V = ProbeView;

    open spec fn view(&self) -> ProbeView {
        ProbeView { dirid: self.dirid, org: self.org@, name: self.name@ }
    }
}

/// What a lookup comes to after its first step.
#[derive(Debug)]
pub enum LookupStep {
    Done(Result<u64, Status>),
    /// It is this worktree; it may be due for a refresh first.
    Refresh(u64),
    /// The repository has to be known to the remote; then
    /// [`TreeportFs::lookup_probed`].
    Probe(ProbeTask),
    /// It is resolved against the foreign worktrees of the repository, by
    /// [`TreeportFs::lookup_refs`].
    Refs(RefsTask),
    /// It is there if something stands at the path; then
    /// [`TreeportFs::lookup_disk`].
    OnDisk(DiskTask),
}

/// What a [`LookupStep`] says.
pub enum LookupStepView {
    Done(Result<u64, Status>),
    Refresh(u64),
    Probe(ProbeView),
    Refs(RefsTaskView),
    OnDisk(DiskTaskView),
}

impl View for LookupStep {
    type V = LookupStepView;

    open spec fn view(&self) -> LookupStepView {
        match *self {
            LookupStep::Done(result) => LookupStepView::Done(result),
            LookupStep::Refresh(id) => LookupStepView::Refresh(id),
            LookupStep::Probe(task) => LookupStepView::Probe(task@),
            LookupStep::Refs(task) => LookupStepView::Refs(task@),
            LookupStep::OnDisk(task) => LookupStepView::OnDisk(task@),
        }
    }
}

/// A lookup that is over without a change.
pub open spec fn settled(state: StateView, result: Result<u64, Status>) -> (
    StateView,
    LookupStepView,
) {
    (state, LookupStepView::Done(result))
}

/// A lookup in a directory inside a worktree.
pub open spec fn lookup_on_disk(tree: TreeView, dirid: u64, name: Seq<char>) -> LookupStepView {
    match tree.child(dirid, name) {
        Some(id) => LookupStepView::Done(Ok(id)),
        None => if !is_valid_disk_name(name) {
            LookupStepView::Done(Err(Status::NoEnt))
        } else {
            match tree.disk_path(dirid) {
                Some(dir) => LookupStepView::OnDisk(
                    DiskTaskView { dirid, name, path: path_join(dir, utf8(name)) },
                ),
                None => LookupStepView::Done(Err(Status::Stale)),
            }
        },
    }
}

/// A lookup in a directory of the `refs` subtree. A worktree that is there
/// only needs its periodic refresh; anything else is resolved against the
/// branches.
pub open spec fn lookup_in_refs(tree: TreeView, dirid: u64, name: Seq<char>) -> LookupStepView {
    let existing = tree.child(dirid, name);
    if existing matches Some(id) && tree.kind(id) matches Some(kind) && kind is Worktree {
        LookupStepView::Refresh(existing.unwrap())
    } else if !is_valid_component(name) {
        LookupStepView::Done(Err(Status::NoEnt))
    } else {
        match tree.refs_context(dirid) {
            Some(parent) => LookupStepView::Refs(RefsTaskView { dirid, parent, name, existing }),
            None => LookupStepView::Done(Err(Status::Stale)),
        }
    }
}

/// [`TreeportFs::plan_lookup`].
pub open spec fn looked_up(state: StateView, dirid: u64, filename: Seq<u8>, wall: NfsTime) -> (
    StateView,
    LookupStepView,
) {
    let tree = state.tree;
    match name_in(filename) {
        None => settled(state, Err(Status::NoEnt)),
        Some(name) => if !tree.nodes.contains_key(dirid) {
            settled(state, Err(Status::Stale))
        } else if name == "."@ {
            settled(state, Ok(dirid))
        } else if name == ".."@ {
            settled(state, Ok(tree.nodes[dirid].parent))
        } else {
            match tree.nodes[dirid].kind {
                KindView::Root => match tree.child(dirid, name) {
                    Some(id) => settled(state, Ok(id)),
                    None => if is_valid_component(name) {
                        settled(
                            with_tree(state, tree.with_child(dirid, name, KindView::Org, wall)),
                            Ok(tree.child_id(dirid, name)),
                        )
                    } else {
                        settled(state, Err(Status::NoEnt))
                    },
                },
                KindView::Org => match tree.child(dirid, name) {
                    Some(id) => settled(state, Ok(id)),
                    None => if is_valid_component(name) {
                        (
                            state,
                            LookupStepView::Probe(
                                ProbeView { dirid, org: tree.nodes[dirid].name, name },
                            ),
                        )
                    } else {
                        settled(state, Err(Status::NoEnt))
                    },
                },
                KindView::Repo => match tree.child(dirid, name) {
                    Some(id) => settled(state, Ok(id)),
                    None => settled(state, Err(Status::NoEnt)),
                },
                KindView::RefsRoot | KindView::RefPath => (
                    state,
                    lookup_in_refs(tree, dirid, name),
                ),
                KindView::ForeignWorktree { target } => settled(state, Err(Status::NotDir)),
                KindView::Worktree { .. } | KindView::Disk => (
                    state,
                    lookup_on_disk(tree, dirid, name),
                ),
            }
        },
    }
}

/// What a lookup carries on from its first step is about the directory that it
/// was asked about, and can be a task of the tree.
pub proof fn lemma_lookup_fits(state: StateView, dirid: u64, filename: Seq<u8>, wall: NfsTime)
    requires
        state.tree.wf(),
    ensures
        match looked_up(state, dirid, filename, wall).1 {
            LookupStepView::Probe(task) => task.dirid == dirid && dirid < state.tree.next_id,
            LookupStepView::Refs(task) => task.dirid == dirid && task.fits(state.tree),
            LookupStepView::OnDisk(task) => task.dirid == dirid && dirid < state.tree.next_id,
            _ => true,
        },
{
    if state.tree.nodes.contains_key(dirid) {
        assert(dirid < state.tree.next_id);
        match name_in(filename) {
            Some(name) => {
                if state.tree.child(dirid, name) is Some {
                    assert(state.tree.links(dirid, name));
                }
            },
            None => {},
        }
    }
}

/// [`TreeportFs::lookup_probed`]: the repository and its `refs` directory are
/// entered; the organisation now shows up in the root.
pub open spec fn probed(state: StateView, task: ProbeView, wall: NfsTime) -> (StateView, u64) {
    let id = state.tree.child_id(task.dirid, task.name);
    let tree = state.tree.with_child(task.dirid, task.name, KindView::Repo, wall);
    let tree = tree.with_child(id, "refs"@, KindView::RefsRoot, wall);
    (with_tree(state, tree.touched(ROOT_ID, wall)), id)
}

/// What a lookup in the `refs` subtree comes to once the foreign worktrees are
/// known.
#[derive(Debug)]
pub enum RefsStep {
    Done(u64),
    /// It is resolved against the branches, by [`TreeportFs::lookup_trie`].
    Resolve(RefsTask),
}

/// What a [`RefsStep`] says.
pub enum RefsStepView {
    Done(u64),
    Resolve(RefsTaskView),
}

impl View for RefsStep {
    type V = RefsStepView;

    open spec fn view(&self) -> RefsStepView {
        match *self {
            RefsStep::Done(id) => RefsStepView::Done(id),
            RefsStep::Resolve(task) => RefsStepView::Resolve(task@),
        }
    }
}

/// The child as it was, or a new one of the kind given.
pub open spec fn existing_or_new(state: StateView, task: RefsTaskView, kind: KindView, wall: NfsTime) -> (
    StateView,
    u64,
) {
    match task.existing {
        Some(id) => (state, id),
        None => (
            with_tree(state, state.tree.with_child(task.dirid, task.name, kind, wall)),
            state.tree.child_id(task.dirid, task.name),
        ),
    }
}

/// The child turned into the kind given, or a new one of that kind.
pub open spec fn turned_or_new(state: StateView, task: RefsTaskView, kind: KindView, wall: NfsTime) -> (
    StateView,
    u64,
) {
    match task.existing {
        Some(id) => (with_tree(state, state.tree.with_kind(id, kind)), id),
        None => (
            with_tree(state, state.tree.with_child(task.dirid, task.name, kind, wall)),
            state.tree.child_id(task.dirid, task.name),
        ),
    }
}

/// [`TreeportFs::lookup_refs`]. A branch checked out elsewhere is a symlink to
/// that place, and a leading part of such a branch a directory. A symlink to a
/// worktree that is gone is dropped.
pub open spec fn refs_looked_up(
    state: StateView,
    task: RefsTaskView,
    foreign: Map<Seq<char>, Seq<u8>>,
    wall: NfsTime,
) -> (StateView, RefsStepView) {
    if foreign.contains_key(task.branch()) {
        let kind = KindView::ForeignWorktree { target: foreign[task.branch()] };
        let (after, id) = turned_or_new(state, task, kind, wall);
        (after, RefsStepView::Done(id))
    } else if has_below(foreign, task.branch()) {
        let (after, id) = existing_or_new(state, task, KindView::RefPath, wall);
        (after, RefsStepView::Done(id))
    } else if task.existing matches Some(id) && state.tree.kind(id) matches Some(kind)
        && kind is ForeignWorktree {
        (
            with_tree(state, state.tree.without_child(task.dirid, task.name, wall)),
            RefsStepView::Resolve(RefsTaskView { existing: None, ..task }),
        )
    } else {
        (state, RefsStepView::Resolve(task))
    }
}

/// What a lookup in the `refs` subtree comes to once the branches are known.
#[derive(Debug)]
pub enum TrieStep {
    Done(u64),
    /// The directory is itself a branch that is not checked out yet: check it
    /// out, then [`TreeportFs::lookup_parent`].
    Parent { task: RefsTask, branch: String },
    /// The remote has no such branch, but the worktree of a local one may
    /// stand at `root`: see whether `marker` can be reached, then
    /// [`TreeportFs::lookup_local`].
    Local { task: RefsTask, root: FsPath, marker: FsPath },
    /// It is a branch: check it out, then [`TreeportFs::lookup_leaf`].
    Leaf { task: RefsTask, branch: String },
}

/// What a [`TrieStep`] says.
pub enum TrieStepView {
    Done(u64),
    Parent { task: RefsTaskView, branch: Seq<char> },
    Local { task: RefsTaskView, root: Seq<u8>, marker: Seq<u8> },
    Leaf { task: RefsTaskView, branch: Seq<char> },
}

impl View for TrieStep {
    type V = TrieStepView;

    open spec fn view(&self) -> TrieStepView {
        match *self {
            TrieStep::Done(id) => TrieStepView::Done(id),
            TrieStep::Parent { task, branch } => TrieStepView::Parent {
                task: task@,
                branch: branch@,
            },
            TrieStep::Local { task, root, marker } => TrieStepView::Local {
                task: task@,
                root: root@,
                marker: marker@,
            },
            TrieStep::Leaf { task, branch } => TrieStepView::Leaf { task: task@, branch: branch@ },
        }
    }
}

/// [`TreeportFs::lookup_trie`]. Clients that got the directory out of a
/// listing never looked it up by name; where it is itself a branch, it is
/// checked out and the name resolved inside it.
pub open spec fn trie_looked_up(
    cfg: &Config,
    state: StateView,
    task: RefsTaskView,
    branches: Set<Seq<Seq<char>>>,
    wall: NfsTime,
) -> (StateView, TrieStepView) {
    if task.parent.segs.len() > 0 && branches.contains(task.parent.segs) {
        (state, TrieStepView::Parent { task, branch: join(task.parent.segs, '/') })
    } else if !is_ref_path(branches, task.segs()) {
        let root = cfg.worktree(task.parent.org, task.parent.repo, task.branch());
        (state, TrieStepView::Local { task, root, marker: git_file(root) })
    } else if branches.contains(task.segs()) {
        (state, TrieStepView::Leaf { task, branch: task.branch() })
    } else {
        let (after, id) = existing_or_new(state, task, KindView::RefPath, wall);
        (after, TrieStepView::Done(id))
    }
}

/// [`TreeportFs::ensure_branch_dir`]: a directory that turned out to be a
/// branch and has been checked out. The first refresh is left out.
pub open spec fn branch_ready(state: StateView, id: u64, root: Seq<u8>, now: u128) -> StateView {
    StateView {
        tree: state.tree.with_kind(id, KindView::Worktree { root }),
        wt_refresh: state.wt_refresh.insert(id, now),
        ..state
    }
}

/// [`TreeportFs::lookup_parent`].
pub open spec fn parent_ready(state: StateView, task: RefsTaskView, root: Seq<u8>, now: u128) -> (
    StateView,
    Result<Seq<u8>, Status>,
) {
    (
        branch_ready(state, task.dirid, root, now),
        if is_valid_disk_name(task.name) {
            Ok(path_join(root, utf8(task.name)))
        } else {
            Err(Status::NoEnt)
        },
    )
}

/// [`TreeportFs::lookup_leaf`].
pub open spec fn leaf_ready(
    state: StateView,
    task: RefsTaskView,
    root: Seq<u8>,
    now: u128,
    wall: NfsTime,
) -> (StateView, u64) {
    let (after, id) = turned_or_new(state, task, KindView::Worktree { root }, wall);
    (StateView { wt_refresh: after.wt_refresh.insert(id, now), ..after }, id)
}

/// Something that may be there, entered if it is.
pub open spec fn entered_if(
    state: StateView,
    there: bool,
    dirid: u64,
    name: Seq<char>,
    kind: KindView,
    wall: NfsTime,
) -> (StateView, Result<u64, Status>) {
    if there {
        let (after, id) = child_added(state, dirid, name, kind, wall);
        (after, Ok(id))
    } else {
        (state, Err(Status::NoEnt))
    }
}

impl TreeportFs {
    fn lookup_refs_dir(&self, dirid: u64, name: String) -> (r: LookupStep)
        requires
            self.state.wf(),
        ensures
            r@ == lookup_in_refs(self.state@.tree, dirid, name@),
    {
        let existing = self.state.child(dirid, name.as_str());
        match existing {
            Some(id) => match self.state.get(id) {
                Some(n) => match &n.kind {
                    NodeKind::Worktree { .. } => {
                        return LookupStep::Refresh(id);
                    },
                    _ => {},
                },
                None => {},
            },
            None => {},
        }
        if !valid_component(name.as_str()) {
            return LookupStep::Done(Err(Status::NoEnt));
        }
        match self.state.refs_context(dirid) {
            Some(parent) => LookupStep::Refs(RefsTask { dirid, parent, name, existing }),
            None => LookupStep::Done(Err(Status::Stale)),
        }
    }

    fn lookup_disk_dir(&self, dirid: u64, name: String) -> (r: LookupStep)
        requires
            self.state.wf(),
        ensures
            r@ == lookup_on_disk(self.state@.tree, dirid, name@),
    {
        match self.state.child(dirid, name.as_str()) {
            Some(id) => {
                return LookupStep::Done(Ok(id));
            },
            None => {},
        }
        if !valid_disk_name(name.as_str()) {
            return LookupStep::Done(Err(Status::NoEnt));
        }
        match self.state.disk_path(dirid) {
            Some(dir) => {
                let path = dir.join(name.as_str());
                LookupStep::OnDisk(DiskTask { dirid, name, path })
            },
            None => LookupStep::Done(Err(Status::Stale)),
        }
    }

    /// Looks up a name in a directory, as far as the state alone tells.
    pub fn plan_lookup(&mut self, dirid: u64, filename: &[u8], wall: NfsTime) -> (r: LookupStep)
        requires
            old(self).state.wf(),
            old(self).state@.tree.next_id < u64::MAX,
        ensures
            only_state_differs(old(self), final(self)),
            (final(self).state@, r@) == looked_up(old(self).state@, dirid, filename@, wall),
    {
        let name = match str_name(filename) {
            Ok(name) => name,
            Err(status) => {
                return LookupStep::Done(Err(status));
            },
        };
        proof {
            self.state.lemma_wf();
        }
        let (parent, dir_name, kind) = match self.state.get(dirid) {
            Some(dir) => (dir.parent, dir.name.clone(), dir.kind.clone()),
            None => {
                return LookupStep::Done(Err(Status::Stale));
            },
        };
        if same(name.as_str(), ".") {
            return LookupStep::Done(Ok(dirid));
        }
        if same(name.as_str(), "..") {
            return LookupStep::Done(Ok(parent));
        }
        match kind {
            NodeKind::Root => {
                // Organisations are cheap virtual directories; they show up in
                // the root listing once a repository under them validates.
                match self.state.child(dirid, name.as_str()) {
                    Some(id) => LookupStep::Done(Ok(id)),
                    None => {
                        if valid_component(name.as_str()) {
                            LookupStep::Done(
                                Ok(self.state.add_child(dirid, name.as_str(), NodeKind::Org, wall)),
                            )
                        } else {
                            LookupStep::Done(Err(Status::NoEnt))
                        }
                    },
                }
            },
            NodeKind::Org => {
                match self.state.child(dirid, name.as_str()) {
                    Some(id) => LookupStep::Done(Ok(id)),
                    None => {
                        if valid_component(name.as_str()) {
                            LookupStep::Probe(ProbeTask { dirid, org: dir_name, name })
                        } else {
                            LookupStep::Done(Err(Status::NoEnt))
                        }
                    },
                }
            },
            NodeKind::Repo => {
                match self.state.child(dirid, name.as_str()) {
                    Some(id) => LookupStep::Done(Ok(id)),
                    None => LookupStep::Done(Err(Status::NoEnt)),
                }
            },
            NodeKind::RefsRoot | NodeKind::RefPath => self.lookup_refs_dir(dirid, name),
            NodeKind::ForeignWorktree { .. } => LookupStep::Done(Err(Status::NotDir)),
            NodeKind::Worktree { .. } | NodeKind::Disk => self.lookup_disk_dir(dirid, name),
        }
    }

    /// A lookup whose repository the remote acknowledges.
    pub fn lookup_probed(&mut self, task: &ProbeTask, wall: NfsTime) -> (r: u64)
        requires
            old(self).state.wf(),
            old(self).state@.tree.next_id < u64::MAX - 1,
        ensures
            only_state_changes(
                old(self),
                final(self),
                task.dirid < old(self).state@.tree.next_id,
            ),
            (final(self).state@, r) == probed(old(self).state@, task@, wall),
    {
        proof {
            self.state.lemma_wf();
            if task.dirid < self.state@.tree.next_id {
                self.state@.tree.lemma_with_child(task.dirid, task.name@, KindView::Repo, wall);
            }
        }
        let id = self.state.add_child(task.dirid, task.name.as_str(), NodeKind::Repo, wall);
        self.state.add_child(id, "refs", NodeKind::RefsRoot, wall);
        self.state.touch(ROOT_ID, wall);
        id
    }

    /// A lookup of something on disk, once it is known whether it is there.
    pub fn lookup_disk(&mut self, task: &DiskTask, there: bool, wall: NfsTime) -> (r: Result<
        u64,
        Status,
    >)
        requires
            old(self).state.wf(),
            old(self).state@.tree.next_id < u64::MAX,
        ensures
            only_state_changes(
                old(self),
                final(self),
                !there || task.dirid < old(self).state@.tree.next_id,
            ),
            (final(self).state@, r) == entered_if(
                old(self).state@,
                there,
                task@.dirid,
                task@.name,
                KindView::Disk,
                wall,
            ),
    {
        if !there {
            return Err(Status::NoEnt);
        }
        Ok(self.add_disk_child(task.dirid, task.name.as_str(), wall))
    }

    /// A lookup in the `refs` subtree, once the foreign worktrees are known.
    pub fn lookup_refs(
        &mut self,
        task: RefsTask,
        foreign: &NameMap<FsPath>,
        wall: NfsTime,
    ) -> (r: RefsStep)
        requires
            old(self).state.wf(),
            old(self).state@.tree.next_id < u64::MAX,
            foreign.wf(),
        ensures
            only_state_changes(
                old(self),
                final(self),
                r is Resolve || task@.fits(old(self).state@.tree),
            ),
            (final(self).state@, r@) == refs_looked_up(
                old(self).state@,
                task@,
                directories(foreign@),
                wall,
            ),
    {
        let branch = task.branch();
        match foreign.get(branch.as_str()) {
            Some(target) => {
                let kind = NodeKind::ForeignWorktree { target: target.clone() };
                return RefsStep::Done(self.turn_or_add(&task, kind, wall));
            },
            None => {},
        }
        if any_below(foreign, branch.as_str()) {
            return RefsStep::Done(self.keep_or_add(&task, wall));
        }
        let stale = match task.existing {
            Some(id) => match self.state.get(id) {
                Some(n) => match &n.kind {
                    NodeKind::ForeignWorktree { .. } => true,
                    _ => false,
                },
                None => false,
            },
            None => false,
        };
        if stale {
            self.state.remove_child(task.dirid, task.name.as_str(), wall);
            return RefsStep::Resolve(RefsTask { existing: None, ..task });
        }
        RefsStep::Resolve(task)
    }

    fn turn_or_add(&mut self, task: &RefsTask, kind: NodeKind, wall: NfsTime) -> (r: u64)
        requires
            old(self).state.wf(),
            old(self).state@.tree.next_id < u64::MAX,
        ensures
            only_state_changes(old(self), final(self), task@.fits(old(self).state@.tree)),
            (final(self).state@, r) == turned_or_new(old(self).state@, task@, kind@, wall),
    {
        match task.existing {
            Some(id) => {
                self.state.set_kind(id, kind);
                id
            },
            None => self.state.add_child(task.dirid, task.name.as_str(), kind, wall),
        }
    }

    fn keep_or_add(&mut self, task: &RefsTask, wall: NfsTime) -> (r: u64)
        requires
            old(self).state.wf(),
            old(self).state@.tree.next_id < u64::MAX,
        ensures
            only_state_changes(old(self), final(self), task@.fits(old(self).state@.tree)),
            (final(self).state@, r) == existing_or_new(
                old(self).state@,
                task@,
                KindView::RefPath,
                wall,
            ),
    {
        match task.existing {
            Some(id) => id,
            None => self.state.add_child(task.dirid, task.name.as_str(), NodeKind::RefPath, wall),
        }
    }

    /// A lookup in the `refs` subtree, once the branches are known.
    pub fn lookup_trie(&mut self, task: RefsTask, trie: &BranchTrie, wall: NfsTime) -> (r: TrieStep)
        requires
            old(self).state.wf(),
            old(self).state@.tree.next_id < u64::MAX,
            trie.wf(),
        ensures
            only_state_changes(
                old(self),
                final(self),
                !(r is Done) || task@.fits(old(self).state@.tree),
            ),
            (final(self).state@, r@) == trie_looked_up(
                &old(self).git.settings(),
                old(self).state@,
                task@,
                trie@,
                wall,
            ),
    {
        if task.parent.segs.len() > 0 {
            let parent_is_branch = match trie.node(task.parent.segs.as_slice()) {
                Some(n) => n.is_branch,
                None => false,
            };
            if parent_is_branch {
                let branch = branch_name(&task.parent.segs);
                return TrieStep::Parent { task, branch };
            }
        }
        let segs = task.segs();
        match trie.node(segs.as_slice()) {
            None => {
                let branch = task.branch();
                let root = self.git.config().worktree_path(
                    task.org(),
                    task.repo(),
                    branch.as_str(),
                );
                let marker = root.join(".git");
                TrieStep::Local { task, root, marker }
            },
            Some(n) => {
                if n.is_branch {
                    let branch = task.branch();
                    TrieStep::Leaf { task, branch }
                } else {
                    TrieStep::Done(self.keep_or_add(&task, wall))
                }
            },
        }
    }

    /// Records that a directory of the `refs` subtree is a branch, checked out
    /// at `root`.
    pub fn ensure_branch_dir(&mut self, id: u64, root: &FsPath, now: u128)
        requires
            old(self).state.wf(),
        ensures
            only_state_changes(old(self), final(self), id != ROOT_ID),
            final(self).state@ == branch_ready(old(self).state@, id, root@, now),
    {
        self.state.set_kind(id, NodeKind::Worktree { root: root.clone() });
        self.state.note_refresh(id, now);
    }

    /// A lookup whose directory is a branch that has been checked out at
    /// `root`: where to look for the name. What was found is entered by
    /// [`TreeportFs::lookup_disk`].
    pub fn lookup_parent(&mut self, task: &RefsTask, root: &FsPath, now: u128) -> (r: Result<
        DiskTask,
        Status,
    >)
        requires
            old(self).state.wf(),
        ensures
            only_state_changes(old(self), final(self), task.dirid != ROOT_ID),
            final(self).state@ == parent_ready(old(self).state@, task@, root@, now).0,
            match (r, parent_ready(old(self).state@, task@, root@, now).1) {
                (Ok(found), Ok(path)) => found@ == (DiskTaskView {
                    dirid: task@.dirid,
                    name: task@.name,
                    path,
                }),
                (Err(e), Err(s)) => e == s,
                _ => false,
            },
    {
        self.ensure_branch_dir(task.dirid, root, now);
        if !valid_disk_name(task.name.as_str()) {
            return Err(Status::NoEnt);
        }
        Ok(
            DiskTask {
                dirid: task.dirid,
                name: task.name.clone(),
                path: root.join(task.name.as_str()),
            },
        )
    }

    /// A lookup of a branch that the remote does not have, once it is known
    /// whether a worktree of a local branch stands at `root`.
    pub fn lookup_local(&mut self, task: &RefsTask, root: FsPath, there: bool, wall: NfsTime) -> (r:
        Result<u64, Status>)
        requires
            old(self).state.wf(),
            old(self).state@.tree.next_id < u64::MAX,
        ensures
            only_state_changes(
                old(self),
                final(self),
                !there || task.dirid < old(self).state@.tree.next_id,
            ),
            (final(self).state@, r) == entered_if(
                old(self).state@,
                there,
                task@.dirid,
                task@.name,
                KindView::Worktree { root: root@ },
                wall,
            ),
    {
        if !there {
            return Err(Status::NoEnt);
        }
        Ok(
            self.state.add_child(task.dirid, task.name.as_str(), NodeKind::Worktree { root }, wall),
        )
    }

    /// A lookup of a branch that has been checked out at `root`.
    pub fn lookup_leaf(&mut self, task: &RefsTask, root: FsPath, now: u128, wall: NfsTime) -> (r: u64)
        requires
            old(self).state.wf(),
            old(self).state@.tree.next_id < u64::MAX,
        ensures
            only_state_changes(old(self), final(self), task@.fits(old(self).state@.tree)),
            (final(self).state@, r) == leaf_ready(old(self).state@, task@, root@, now, wall),
    {
        let id = self.turn_or_add(task, NodeKind::Worktree { root }, wall);
        self.state.note_refresh(id, now);
        id
    }
}

} // verus!
