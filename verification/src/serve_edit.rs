//! Serving requests that make or remove directories and branches, from their
//! start to their end.

use crate::caches::{
    cached_answer, creation_err, creation_status, foreign_in, has_below, known_foreign, learned,
    with_foreign, TrieAnswer, TrieAnswerView,
};
use crate::changes::{
    branch_made, branch_removed, makes_dir, removable, removes, MkdirStep, MkdirStepView, RemoveStep,
    RemoveStepView,
};
use crate::config::Config;
use crate::fs::{child_added, only_state_changes, only_state_differs, with_tree, TreeportFs};
use crate::fspath::FsPath;
use crate::names::NameMap;
use crate::need::{Event, EventView, Need, NeedView};
use crate::node::{directories, StateView};
use crate::protocol::{io_err, io_status, Status};
use crate::task::{DiskTask, DiskTaskView, RefsTask, RefsTaskView};
use crate::tree::{KindView, NfsTime, TreeView};
use crate::trie::{is_ref_path, BranchTrie};
use vstd::prelude::*;
use vstd::string::*;

verus! {

/// Where the making of a directory stands while it waits.
#[derive(Debug)]
pub enum MkdirStage {
    /// The branches are being listed.
    Branches(RefsTask),
    /// The foreign worktrees are being listed.
    Foreign(RefsTask),
    /// The default branch is being asked for.
    Base(RefsTask),
    /// The branch is being forked.
    Fork(RefsTask),
    /// The directory is being made on disk.
    OnDisk(DiskTask),
}

/// What a [`MkdirStage`] says.
pub enum MkdirStageView {
    Branches(RefsTaskView),
    Foreign(RefsTaskView),
    Base(RefsTaskView),
    Fork(RefsTaskView),
    OnDisk(DiskTaskView),
}

impl View for MkdirStage {
    type V = MkdirStageView;

    open spec fn view(&self) -> MkdirStageView {
        match *self {
            MkdirStage::Branches(task) => MkdirStageView::Branches(task@),
            MkdirStage::Foreign(task) => MkdirStageView::Foreign(task@),
            MkdirStage::Base(task) => MkdirStageView::Base(task@),
            MkdirStage::Fork(task) => MkdirStageView::Fork(task@),
            MkdirStage::OnDisk(task) => MkdirStageView::OnDisk(task@),
        }
    }
}

impl MkdirStageView {
    /// Whether the stage can be one of a request in this tree.
    pub open spec fn fits(self, tree: TreeView) -> bool {
        match self {
            MkdirStageView::Branches(task) => task.fits(tree),
            MkdirStageView::Foreign(task) => task.fits(tree),
            MkdirStageView::Base(task) => task.fits(tree),
            MkdirStageView::Fork(task) => task.fits(tree),
            MkdirStageView::OnDisk(task) => task.dirid < tree.next_id,
        }
    }
}

/// What comes next in making a directory.
#[derive(Debug)]
pub enum MkdirNext {
    /// The number of the directory and where it stands on disk.
    Done(Result<(u64, FsPath), Status>),
    /// Find this out and go on with [`TreeportFs::mkdir_next`].
    Wait(Need, MkdirStage),
}

/// What a [`MkdirNext`] says.
pub enum MkdirNextView {
    Done(Result<(u64, Seq<u8>), Status>),
    Wait(NeedView, MkdirStageView),
}

impl View for MkdirNext {
    type V = MkdirNextView;

    open spec fn view(&self) -> MkdirNextView {
        match *self {
            MkdirNext::Done(Ok((id, path))) => MkdirNextView::Done(Ok((id, path@))),
            MkdirNext::Done(Err(status)) => MkdirNextView::Done(Err(status)),
            MkdirNext::Wait(need, stage) => MkdirNextView::Wait(need@, stage@),
        }
    }
}

/// A new branch that is to be forked off `base`.
pub open spec fn fork_wait(task: RefsTaskView, base: Seq<char>) -> MkdirNextView {
    MkdirNextView::Wait(
        NeedView::Fork {
            org: task.parent.org,
            repo: task.parent.repo,
            branch: task.branch(),
            base,
        },
        MkdirStageView::Fork(task),
    )
}

/// A new branch: the foreign worktrees are known.
pub open spec fn mkdir_with_foreign(
    state: StateView,
    task: RefsTaskView,
    foreign: Map<Seq<char>, Seq<u8>>,
) -> MkdirNextView {
    if foreign.contains_key(task.branch()) || has_below(foreign, task.branch()) {
        MkdirNextView::Done(Err(Status::Exist))
    } else if state.default_branches.contains_key(task.key()) {
        fork_wait(task, state.default_branches[task.key()])
    } else {
        MkdirNextView::Wait(
            NeedView::DefaultBranch { org: task.parent.org, repo: task.parent.repo },
            MkdirStageView::Base(task),
        )
    }
}

/// A new branch: the branches are known.
pub open spec fn mkdir_with_branches(
    cfg: &Config,
    state: StateView,
    task: RefsTaskView,
    branches: Set<Seq<Seq<char>>>,
    now: u128,
) -> MkdirNextView {
    if is_ref_path(branches, task.segs()) {
        MkdirNextView::Done(Err(Status::Exist))
    } else {
        match known_foreign(cfg, state, task.key(), now) {
            Some(foreign) => mkdir_with_foreign(state, task, foreign),
            None => MkdirNextView::Wait(
                NeedView::Worktrees { org: task.parent.org, repo: task.parent.repo },
                MkdirStageView::Foreign(task),
            ),
        }
    }
}

/// [`TreeportFs::mkdir`].
pub open spec fn mkdir_started(
    cfg: &Config,
    state: StateView,
    dirid: u64,
    dirname: Seq<u8>,
    now: u128,
) -> MkdirNextView {
    match makes_dir(state.tree, dirid, dirname) {
        MkdirStepView::Fail(status) => MkdirNextView::Done(Err(status)),
        MkdirStepView::OnDisk(task) => MkdirNextView::Wait(
            NeedView::MakeDir(task.path),
            MkdirStageView::OnDisk(task),
        ),
        MkdirStepView::Branch(task) => match cached_answer(cfg, state, task.key(), now) {
            TrieAnswerView::Known(Ok(branches)) => mkdir_with_branches(
                cfg,
                state,
                task,
                branches,
                now,
            ),
            TrieAnswerView::Known(Err(status)) => MkdirNextView::Done(Err(status)),
            TrieAnswerView::Query => MkdirNextView::Wait(
                NeedView::Heads { org: task.parent.org, repo: task.parent.repo },
                MkdirStageView::Branches(task),
            ),
        },
    }
}

/// [`TreeportFs::mkdir_next`].
pub open spec fn mkdir_continued(
    cfg: &Config,
    state: StateView,
    stage: MkdirStageView,
    event: EventView,
    now: u128,
    wall: NfsTime,
) -> (StateView, MkdirNextView) {
    match (stage, event) {
        (MkdirStageView::Branches(task), EventView::Heads { remote, local }) => {
            let (after, result) = learned(state, task.key(), remote, local, now, wall);
            match result {
                Ok(branches) => (after, mkdir_with_branches(cfg, after, task, branches, now)),
                Err(status) => (after, MkdirNextView::Done(Err(status))),
            }
        },
        (MkdirStageView::Foreign(task), EventView::Worktrees(list)) => {
            let foreign = foreign_in(cfg, task.parent.org, task.parent.repo, list);
            let after = with_foreign(state, task.key(), foreign, now);
            (after, mkdir_with_foreign(after, task, foreign))
        },
        (MkdirStageView::Base(task), EventView::DefaultBranch(Some(base))) => (
            StateView {
                default_branches: state.default_branches.insert(task.key(), base),
                ..state
            },
            fork_wait(task, base),
        ),
        (MkdirStageView::Fork(task), EventView::CheckedOut(Ok(root))) => {
            let (after, id) = branch_made(state, task, root, now, wall);
            (after, MkdirNextView::Done(Ok((id, root))))
        },
        (MkdirStageView::Fork(_), EventView::CheckedOut(Err(e))) => (
            state,
            MkdirNextView::Done(Err(creation_status(e))),
        ),
        (MkdirStageView::OnDisk(task), EventView::Made(Ok(_))) => {
            let (after, id) = child_added(state, task.dirid, task.name, KindView::Disk, wall);
            (after, MkdirNextView::Done(Ok((id, task.path))))
        },
        (MkdirStageView::OnDisk(_), EventView::Made(Err(kind))) => (
            state,
            MkdirNextView::Done(Err(io_status(kind))),
        ),
        _ => (state, MkdirNextView::Done(Err(Status::Io))),
    }
}

/// Where a removal stands while it waits.
#[derive(Debug)]
pub enum RemoveStage {
    /// The foreign worktrees are being listed.
    Foreign(RefsTask),
    /// The branches are being listed.
    Branches(RefsTask),
    /// The branch is being deleted.
    Delete(RefsTask),
    /// Something is being removed on disk.
    OnDisk(DiskTask),
}

/// What a [`RemoveStage`] says.
pub enum RemoveStageView {
    Foreign(RefsTaskView),
    Branches(RefsTaskView),
    Delete(RefsTaskView),
    OnDisk(DiskTaskView),
}

impl View for RemoveStage {
    type V = RemoveStageView;

    open spec fn view(&self) -> RemoveStageView {
        match *self {
            RemoveStage::Foreign(task) => RemoveStageView::Foreign(task@),
            RemoveStage::Branches(task) => RemoveStageView::Branches(task@),
            RemoveStage::Delete(task) => RemoveStageView::Delete(task@),
            RemoveStage::OnDisk(task) => RemoveStageView::OnDisk(task@),
        }
    }
}

/// What comes next in a removal.
#[derive(Debug)]
pub enum RemoveNext {
    Done(Result<(), Status>),
    /// Find this out and go on with [`TreeportFs::remove_next`].
    Wait(Need, RemoveStage),
}

/// What a [`RemoveNext`] says.
pub enum RemoveNextView {
    Done(Result<(), Status>),
    Wait(NeedView, RemoveStageView),
}

impl View for RemoveNext {
    type V = RemoveNextView;

    open spec fn view(&self) -> RemoveNextView {
        match *self {
            RemoveNext::Done(result) => RemoveNextView::Done(result),
            RemoveNext::Wait(need, stage) => RemoveNextView::Wait(need@, stage@),
        }
    }
}

/// A branch that is to be deleted.
pub open spec fn delete_wait(task: RefsTaskView) -> RemoveNextView {
    RemoveNextView::Wait(
        NeedView::Delete { org: task.parent.org, repo: task.parent.repo, branch: task.branch() },
        RemoveStageView::Delete(task),
    )
}

/// The removal of a branch: the branches are known.
pub open spec fn remove_with_branches(
    task: RefsTaskView,
    branches: Set<Seq<Seq<char>>>,
) -> RemoveNextView {
    match removable(branches, task.segs()) {
        Ok(_) => delete_wait(task),
        Err(status) => RemoveNextView::Done(Err(status)),
    }
}

/// The removal of a branch: the foreign worktrees are known.
pub open spec fn remove_with_foreign(
    cfg: &Config,
    state: StateView,
    task: RefsTaskView,
    foreign: Map<Seq<char>, Seq<u8>>,
    now: u128,
) -> RemoveNextView {
    if foreign.contains_key(task.branch()) {
        delete_wait(task)
    } else {
        match cached_answer(cfg, state, task.key(), now) {
            TrieAnswerView::Known(Ok(branches)) => remove_with_branches(task, branches),
            TrieAnswerView::Known(Err(status)) => RemoveNextView::Done(Err(status)),
            TrieAnswerView::Query => RemoveNextView::Wait(
                NeedView::Heads { org: task.parent.org, repo: task.parent.repo },
                RemoveStageView::Branches(task),
            ),
        }
    }
}

/// [`TreeportFs::remove`].
pub open spec fn remove_started(
    cfg: &Config,
    state: StateView,
    dirid: u64,
    filename: Seq<u8>,
    now: u128,
) -> RemoveNextView {
    match removes(state.tree, dirid, filename) {
        RemoveStepView::Fail(status) => RemoveNextView::Done(Err(status)),
        RemoveStepView::OnDisk(task) => RemoveNextView::Wait(
            NeedView::Remove(task.path),
            RemoveStageView::OnDisk(task),
        ),
        RemoveStepView::Branch { task, certain } => if certain {
            delete_wait(task)
        } else {
            match known_foreign(cfg, state, task.key(), now) {
                Some(foreign) => remove_with_foreign(cfg, state, task, foreign, now),
                None => RemoveNextView::Wait(
                    NeedView::Worktrees { org: task.parent.org, repo: task.parent.repo },
                    RemoveStageView::Foreign(task),
                ),
            }
        },
    }
}

/// [`TreeportFs::remove_next`].
pub open spec fn remove_continued(
    cfg: &Config,
    state: StateView,
    stage: RemoveStageView,
    event: EventView,
    now: u128,
    wall: NfsTime,
) -> (StateView, RemoveNextView) {
    match (stage, event) {
        (RemoveStageView::Foreign(task), EventView::Worktrees(list)) => {
            let foreign = foreign_in(cfg, task.parent.org, task.parent.repo, list);
            let after = with_foreign(state, task.key(), foreign, now);
            (after, remove_with_foreign(cfg, after, task, foreign, now))
        },
        (RemoveStageView::Branches(task), EventView::Heads { remote, local }) => {
            let (after, result) = learned(state, task.key(), remote, local, now, wall);
            match result {
                Ok(branches) => (after, remove_with_branches(task, branches)),
                Err(status) => (after, RemoveNextView::Done(Err(status))),
            }
        },
        (RemoveStageView::Delete(task), EventView::Deleted(true)) => (
            branch_removed(state, task, wall),
            RemoveNextView::Done(Ok(())),
        ),
        (RemoveStageView::OnDisk(task), EventView::Removed(Ok(_))) => (
            with_tree(state, state.tree.without_child(task.dirid, task.name, wall)),
            RemoveNextView::Done(Ok(())),
        ),
        (RemoveStageView::OnDisk(_), EventView::Removed(Err(kind))) => (
            state,
            RemoveNextView::Done(Err(io_status(kind))),
        ),
        _ => (state, RemoveNextView::Done(Err(Status::Io))),
    }
}

impl TreeportFs {
    fn fork_off(task: RefsTask, base: String) -> (r: MkdirNext)
        ensures
            r@ == fork_wait(task@, base@),
    {
        let org = task.org().to_owned();
        let repo = task.repo().to_owned();
        let branch = task.branch();
        MkdirNext::Wait(Need::Fork { org, repo, branch, base }, MkdirStage::Fork(task))
    }

    fn mkdir_foreign_known(&self, task: RefsTask, foreign: &NameMap<FsPath>) -> (r: MkdirNext)
        requires
            self.state.wf(),
            foreign.wf(),
        ensures
            r@ == mkdir_with_foreign(self.state@, task@, directories(foreign@)),
    {
        match self.mkdir_unclaimed(&task, foreign) {
            Ok(_) => {},
            Err(status) => {
                return MkdirNext::Done(Err(status));
            },
        }
        match self.default_branch_for(task.org(), task.repo()) {
            Some(base) => Self::fork_off(task, base),
            None => {
                let org = task.org().to_owned();
                let repo = task.repo().to_owned();
                MkdirNext::Wait(Need::DefaultBranch { org, repo }, MkdirStage::Base(task))
            },
        }
    }

    fn mkdir_branches_known(&self, task: RefsTask, trie: &BranchTrie, now: u128) -> (r: MkdirNext)
        requires
            self.state.wf(),
            trie.wf(),
        ensures
            r@ == mkdir_with_branches(&self.git.settings(), self.state@, task@, trie@, now),
    {
        match self.mkdir_unknown(&task, trie) {
            Ok(_) => {},
            Err(status) => {
                return MkdirNext::Done(Err(status));
            },
        }
        match self.get_foreign(task.org(), task.repo(), now) {
            Some(foreign) => self.mkdir_foreign_known(task, &foreign),
            None => {
                let org = task.org().to_owned();
                let repo = task.repo().to_owned();
                MkdirNext::Wait(Need::Worktrees { org, repo }, MkdirStage::Foreign(task))
            },
        }
    }

    /// Makes a directory. In the `refs` subtree that means: creates a branch,
    /// forked off the remote's default branch.
    pub fn mkdir(&self, dirid: u64, dirname: &[u8], now: u128) -> (r: MkdirNext)
        requires
            self.state.wf(),
        ensures
            r@ == mkdir_started(&self.git.settings(), self.state@, dirid, dirname@, now),
    {
        match self.plan_mkdir(dirid, dirname) {
            MkdirStep::Fail(status) => MkdirNext::Done(Err(status)),
            MkdirStep::OnDisk(task) => MkdirNext::Wait(
                Need::MakeDir(task.path.clone()),
                MkdirStage::OnDisk(task),
            ),
            MkdirStep::Branch(task) => match self.get_trie(task.org(), task.repo(), now) {
                TrieAnswer::Known(Ok(trie)) => self.mkdir_branches_known(task, &trie, now),
                TrieAnswer::Known(Err(status)) => MkdirNext::Done(Err(status)),
                TrieAnswer::Query => {
                    let org = task.org().to_owned();
                    let repo = task.repo().to_owned();
                    MkdirNext::Wait(Need::Heads { org, repo }, MkdirStage::Branches(task))
                },
            },
        }
    }

    /// Goes on with making a directory, given the answer to what it waited
    /// for.
    pub fn mkdir_next(&mut self, stage: MkdirStage, event: Event, now: u128, wall: NfsTime) -> (r:
        MkdirNext)
        requires
            old(self).state.wf(),
            old(self).state@.tree.next_id < u64::MAX,
        ensures
            only_state_changes(old(self), final(self), stage@.fits(old(self).state@.tree)),
            (final(self).state@, r@) == mkdir_continued(
                &old(self).git.settings(),
                old(self).state@,
                stage@,
                event@,
                now,
                wall,
            ),
    {
        match (stage, event) {
            (MkdirStage::Branches(task), Event::Heads { remote, local }) => {
                match self.trie_update(task.org(), task.repo(), remote, local, now, wall) {
                    Ok(trie) => self.mkdir_branches_known(task, &trie, now),
                    Err(status) => MkdirNext::Done(Err(status)),
                }
            },
            (MkdirStage::Foreign(task), Event::Worktrees(listed)) => {
                let foreign = self.foreign_update(task.org(), task.repo(), listed, now);
                self.mkdir_foreign_known(task, &foreign)
            },
            (MkdirStage::Base(task), Event::DefaultBranch(Some(base))) => {
                self.default_branch_learned(task.org(), task.repo(), base.as_str());
                Self::fork_off(task, base)
            },
            (MkdirStage::Fork(task), Event::CheckedOut(Ok(root))) => {
                let path = root.clone();
                let id = self.mkdir_branch(&task, root, now, wall);
                MkdirNext::Done(Ok((id, path)))
            },
            (MkdirStage::Fork(_), Event::CheckedOut(Err(e))) => MkdirNext::Done(
                Err(creation_err(&e)),
            ),
            (MkdirStage::OnDisk(task), Event::Made(Ok(_))) => {
                let id = self.add_disk_child(task.dirid, task.name.as_str(), wall);
                MkdirNext::Done(Ok((id, task.path)))
            },
            (MkdirStage::OnDisk(_), Event::Made(Err(kind))) => MkdirNext::Done(Err(io_err(kind))),
            _ => MkdirNext::Done(Err(Status::Io)),
        }
    }

    fn delete(task: RefsTask) -> (r: RemoveNext)
        ensures
            r@ == delete_wait(task@),
    {
        let org = task.org().to_owned();
        let repo = task.repo().to_owned();
        let branch = task.branch();
        RemoveNext::Wait(Need::Delete { org, repo, branch }, RemoveStage::Delete(task))
    }

    fn remove_branches_known(&self, task: RefsTask, trie: &BranchTrie) -> (r: RemoveNext)
        requires
            trie.wf(),
        ensures
            r@ == remove_with_branches(task@, trie@),
    {
        match self.remove_is_branch(&task, trie) {
            Ok(_) => Self::delete(task),
            Err(status) => RemoveNext::Done(Err(status)),
        }
    }

    fn remove_foreign_known(&self, task: RefsTask, foreign: &NameMap<FsPath>, now: u128) -> (r:
        RemoveNext)
        requires
            self.state.wf(),
            foreign.wf(),
        ensures
            r@ == remove_with_foreign(
                &self.git.settings(),
                self.state@,
                task@,
                directories(foreign@),
                now,
            ),
    {
        if self.remove_is_foreign(&task, foreign) {
            return Self::delete(task);
        }
        match self.get_trie(task.org(), task.repo(), now) {
            TrieAnswer::Known(Ok(trie)) => self.remove_branches_known(task, &trie),
            TrieAnswer::Known(Err(status)) => RemoveNext::Done(Err(status)),
            TrieAnswer::Query => {
                let org = task.org().to_owned();
                let repo = task.repo().to_owned();
                RemoveNext::Wait(Need::Heads { org, repo }, RemoveStage::Branches(task))
            },
        }
    }

    /// Removes a file or a directory. In the `refs` subtree that means:
    /// deletes the branch everywhere, in the worktree, locally and on the
    /// remote.
    pub fn remove(&self, dirid: u64, filename: &[u8], now: u128) -> (r: RemoveNext)
        requires
            self.state.wf(),
        ensures
            r@ == remove_started(&self.git.settings(), self.state@, dirid, filename@, now),
    {
        match self.plan_remove(dirid, filename) {
            RemoveStep::Fail(status) => RemoveNext::Done(Err(status)),
            RemoveStep::OnDisk(task) => RemoveNext::Wait(
                Need::Remove(task.path.clone()),
                RemoveStage::OnDisk(task),
            ),
            RemoveStep::Branch { task, certain } => {
                if certain {
                    return Self::delete(task);
                }
                match self.get_foreign(task.org(), task.repo(), now) {
                    Some(foreign) => self.remove_foreign_known(task, &foreign, now),
                    None => {
                        let org = task.org().to_owned();
                        let repo = task.repo().to_owned();
                        RemoveNext::Wait(Need::Worktrees { org, repo }, RemoveStage::Foreign(task))
                    },
                }
            },
        }
    }

    /// Goes on with a removal, given the answer to what it waited for.
    pub fn remove_next(&mut self, stage: RemoveStage, event: Event, now: u128, wall: NfsTime) -> (r:
        RemoveNext)
        requires
            old(self).state.wf(),
        ensures
            only_state_differs(old(self), final(self)),
            (final(self).state@, r@) == remove_continued(
                &old(self).git.settings(),
                old(self).state@,
                stage@,
                event@,
                now,
                wall,
            ),
    {
        match (stage, event) {
            (RemoveStage::Foreign(task), Event::Worktrees(listed)) => {
                let foreign = self.foreign_update(task.org(), task.repo(), listed, now);
                self.remove_foreign_known(task, &foreign, now)
            },
            (RemoveStage::Branches(task), Event::Heads { remote, local }) => {
                match self.trie_update(task.org(), task.repo(), remote, local, now, wall) {
                    Ok(trie) => self.remove_branches_known(task, &trie),
                    Err(status) => RemoveNext::Done(Err(status)),
                }
            },
            (RemoveStage::Delete(task), Event::Deleted(done)) => {
                if done {
                    self.remove_branch(&task, wall);
                    RemoveNext::Done(Ok(()))
                } else {
                    RemoveNext::Done(Err(Status::Io))
                }
            },
            (RemoveStage::OnDisk(task), Event::Removed(Ok(_))) => {
                self.remove_disk(&task, wall);
                RemoveNext::Done(Ok(()))
            },
            (RemoveStage::OnDisk(_), Event::Removed(Err(kind))) => RemoveNext::Done(
                Err(io_err(kind)),
            ),
            _ => RemoveNext::Done(Err(Status::Io)),
        }
    }
}

} // verus!
