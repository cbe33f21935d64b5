//! Serving a lookup from its start to its end.

use crate::caches::{
    cached_answer, foreign_in, known_foreign, learned, materialize_err, materialize_status, refresh_due,
    with_foreign, TrieAnswer, TrieAnswerView,
};
use crate::config::Config;
use crate::fs::{only_state_changes, only_state_differs, TreeportFs};
use crate::fspath::FsPath;
use crate::lookup::{
    entered_if, leaf_ready, lemma_lookup_fits, looked_up, parent_ready, probed, refs_looked_up, trie_looked_up, LookupStep,
    LookupStepView, ProbeTask, ProbeView, RefsStep, RefsStepView, TrieStep, TrieStepView,
};
use crate::names::NameMap;
use crate::need::{Event, EventView, Need, NeedView};
use crate::node::{directories, StateView};
use crate::protocol::Status;
use crate::task::{DiskTask, DiskTaskView, RefsTask, RefsTaskView};
use crate::tree::{KindView, NfsTime, TreeView};
use crate::trie::BranchTrie;
use vstd::prelude::*;
use vstd::string::*;

verus! {

/// Where a lookup stands while it waits.
#[derive(Debug)]
pub enum LookupStage {
    /// A worktree that is found is being refreshed.
    Refresh(u64),
    /// A repository is being validated.
    Probe(ProbeTask),
    /// The foreign worktrees are being listed.
    Foreign(RefsTask),
    /// The branches are being listed.
    Branches(RefsTask),
    /// The directory is being checked out.
    Parent(RefsTask),
    /// A local branch is being looked for.
    Local(RefsTask, FsPath),
    /// The branch is being checked out.
    Leaf(RefsTask),
    /// Something on disk is being looked for.
    OnDisk(DiskTask),
}

/// What a [`LookupStage`] says.
pub enum LookupStageView {
    Refresh(u64),
    Probe(ProbeView),
    Foreign(RefsTaskView),
    Branches(RefsTaskView),
    Parent(RefsTaskView),
    Local(RefsTaskView, Seq<u8>),
    Leaf(RefsTaskView),
    OnDisk(DiskTaskView),
}

impl View for LookupStage {
    type V = LookupStageView;

    open spec fn view(&self) -> LookupStageView {
        match *self {
            LookupStage::Refresh(id) => LookupStageView::Refresh(id),
            LookupStage::Probe(task) => LookupStageView::Probe(task@),
            LookupStage::Foreign(task) => LookupStageView::Foreign(task@),
            LookupStage::Branches(task) => LookupStageView::Branches(task@),
            LookupStage::Parent(task) => LookupStageView::Parent(task@),
            LookupStage::Local(task, root) => LookupStageView::Local(task@, root@),
            LookupStage::Leaf(task) => LookupStageView::Leaf(task@),
            LookupStage::OnDisk(task) => LookupStageView::OnDisk(task@),
        }
    }
}

impl LookupStageView {
    /// Whether the stage can be one of a lookup in this tree.
    pub open spec fn fits(self, tree: TreeView) -> bool {
        match self {
            LookupStageView::Refresh(_) => true,
            LookupStageView::Probe(task) => task.dirid < tree.next_id,
            LookupStageView::Foreign(task) => task.fits(tree),
            LookupStageView::Branches(task) => task.fits(tree),
            LookupStageView::Parent(task) => task.fits(tree),
            LookupStageView::Local(task, _) => task.fits(tree),
            LookupStageView::Leaf(task) => task.fits(tree),
            LookupStageView::OnDisk(task) => task.dirid < tree.next_id,
        }
    }
}

/// What comes next in a lookup.
#[derive(Debug)]
pub enum LookupNext {
    Done(Result<u64, Status>),
    /// Find this out and go on with [`TreeportFs::lookup_next`].
    Wait(Need, LookupStage),
}

/// What a [`LookupNext`] says.
pub enum LookupNextView {
    Done(Result<u64, Status>),
    Wait(NeedView, LookupStageView),
}

impl View for LookupNext {
    type V = LookupNextView;

    open spec fn view(&self) -> LookupNextView {
        match *self {
            LookupNext::Done(result) => LookupNextView::Done(result),
            LookupNext::Wait(need, stage) => LookupNextView::Wait(need@, stage@),
        }
    }
}

/// A lookup in the `refs` subtree: the branches are known.
pub open spec fn lookup_with_branches(
    cfg: &Config,
    state: StateView,
    task: RefsTaskView,
    branches: Set<Seq<Seq<char>>>,
    wall: NfsTime,
) -> (StateView, LookupNextView) {
    let (after, step) = trie_looked_up(cfg, state, task, branches, wall);
    let next = match step {
        TrieStepView::Done(id) => LookupNextView::Done(Ok(id)),
        TrieStepView::Parent { task, branch } => LookupNextView::Wait(
            NeedView::CheckOut { org: task.parent.org, repo: task.parent.repo, branch },
            LookupStageView::Parent(task),
        ),
        TrieStepView::Local { task, root, marker } => LookupNextView::Wait(
            NeedView::Reachable(marker),
            LookupStageView::Local(task, root),
        ),
        TrieStepView::Leaf { task, branch } => LookupNextView::Wait(
            NeedView::CheckOut { org: task.parent.org, repo: task.parent.repo, branch },
            LookupStageView::Leaf(task),
        ),
    };
    (after, next)
}

/// A lookup in the `refs` subtree: the branches come next.
pub open spec fn lookup_for_branches(
    cfg: &Config,
    state: StateView,
    task: RefsTaskView,
    now: u128,
    wall: NfsTime,
) -> (StateView, LookupNextView) {
    match cached_answer(cfg, state, task.key(), now) {
        TrieAnswerView::Known(Ok(branches)) => lookup_with_branches(
            cfg,
            state,
            task,
            branches,
            wall,
        ),
        TrieAnswerView::Known(Err(status)) => (state, LookupNextView::Done(Err(status))),
        TrieAnswerView::Query => (
            state,
            LookupNextView::Wait(
                NeedView::Heads { org: task.parent.org, repo: task.parent.repo },
                LookupStageView::Branches(task),
            ),
        ),
    }
}

/// A lookup in the `refs` subtree: the foreign worktrees are known.
pub open spec fn lookup_with_foreign(
    cfg: &Config,
    state: StateView,
    task: RefsTaskView,
    foreign: Map<Seq<char>, Seq<u8>>,
    now: u128,
    wall: NfsTime,
) -> (StateView, LookupNextView) {
    let (after, step) = refs_looked_up(state, task, foreign, wall);
    match step {
        RefsStepView::Done(id) => (after, LookupNextView::Done(Ok(id))),
        RefsStepView::Resolve(task) => lookup_for_branches(cfg, after, task, now, wall),
    }
}

/// [`TreeportFs::lookup`].
pub open spec fn lookup_started(
    cfg: &Config,
    state: StateView,
    dirid: u64,
    filename: Seq<u8>,
    now: u128,
    wall: NfsTime,
) -> (StateView, LookupNextView) {
    let (after, step) = looked_up(state, dirid, filename, wall);
    match step {
        LookupStepView::Done(result) => (after, LookupNextView::Done(result)),
        LookupStepView::Refresh(id) => {
            let (noted, due) = refresh_due(cfg, after, id, now);
            match due {
                Some(task) => (
                    noted,
                    LookupNextView::Wait(NeedView::Refresh(task), LookupStageView::Refresh(id)),
                ),
                None => (noted, LookupNextView::Done(Ok(id))),
            }
        },
        LookupStepView::Probe(task) => match cached_answer(cfg, after, (task.org, task.name), now) {
            TrieAnswerView::Known(Ok(_)) => {
                let (entered, id) = probed(after, task, wall);
                (entered, LookupNextView::Done(Ok(id)))
            },
            TrieAnswerView::Known(Err(status)) => (after, LookupNextView::Done(Err(status))),
            TrieAnswerView::Query => (
                after,
                LookupNextView::Wait(
                    NeedView::Heads { org: task.org, repo: task.name },
                    LookupStageView::Probe(task),
                ),
            ),
        },
        LookupStepView::Refs(task) => match known_foreign(cfg, after, task.key(), now) {
            Some(foreign) => lookup_with_foreign(cfg, after, task, foreign, now, wall),
            None => (
                after,
                LookupNextView::Wait(
                    NeedView::Worktrees { org: task.parent.org, repo: task.parent.repo },
                    LookupStageView::Foreign(task),
                ),
            ),
        },
        LookupStepView::OnDisk(task) => (
            after,
            LookupNextView::Wait(NeedView::Exists(task.path), LookupStageView::OnDisk(task)),
        ),
    }
}

/// [`TreeportFs::lookup_next`]. A worktree that is found is found whether or
/// not its refresh worked; elsewhere, an answer that does not come is an error.
pub open spec fn lookup_continued(
    cfg: &Config,
    state: StateView,
    stage: LookupStageView,
    event: EventView,
    now: u128,
    wall: NfsTime,
) -> (StateView, LookupNextView) {
    match (stage, event) {
        (LookupStageView::Refresh(id), _) => (state, LookupNextView::Done(Ok(id))),
        (LookupStageView::Probe(task), EventView::Heads { remote, local }) => {
            let (after, result) = learned(
                state,
                (task.org, task.name),
                remote,
                local,
                now,
                wall,
            );
            match result {
                Ok(_) => {
                    let (entered, id) = probed(after, task, wall);
                    (entered, LookupNextView::Done(Ok(id)))
                },
                Err(status) => (after, LookupNextView::Done(Err(status))),
            }
        },
        (LookupStageView::Foreign(task), EventView::Worktrees(list)) => {
            let foreign = foreign_in(cfg, task.parent.org, task.parent.repo, list);
            lookup_with_foreign(
                cfg,
                with_foreign(state, task.key(), foreign, now),
                task,
                foreign,
                now,
                wall,
            )
        },
        (LookupStageView::Branches(task), EventView::Heads { remote, local }) => {
            let (after, result) = learned(state, task.key(), remote, local, now, wall);
            match result {
                Ok(branches) => lookup_with_branches(cfg, after, task, branches, wall),
                Err(status) => (after, LookupNextView::Done(Err(status))),
            }
        },
        (LookupStageView::Parent(task), EventView::CheckedOut(Ok(root))) => {
            let (after, result) = parent_ready(state, task, root, now);
            match result {
                Ok(path) => (
                    after,
                    LookupNextView::Wait(
                        NeedView::Exists(path),
                        LookupStageView::OnDisk(
                            DiskTaskView { dirid: task.dirid, name: task.name, path },
                        ),
                    ),
                ),
                Err(status) => (after, LookupNextView::Done(Err(status))),
            }
        },
        (LookupStageView::Parent(_), EventView::CheckedOut(Err(e))) => (
            state,
            LookupNextView::Done(Err(materialize_status(e))),
        ),
        (LookupStageView::Local(task, root), EventView::Exists(there)) => {
            let (after, result) = entered_if(
                state,
                there,
                task.dirid,
                task.name,
                KindView::Worktree { root },
                wall,
            );
            (after, LookupNextView::Done(result))
        },
        (LookupStageView::Leaf(task), EventView::CheckedOut(Ok(root))) => {
            let (after, id) = leaf_ready(state, task, root, now, wall);
            (after, LookupNextView::Done(Ok(id)))
        },
        (LookupStageView::Leaf(_), EventView::CheckedOut(Err(e))) => (
            state,
            LookupNextView::Done(Err(materialize_status(e))),
        ),
        (LookupStageView::OnDisk(task), EventView::Exists(there)) => {
            let (after, result) = entered_if(
                state,
                there,
                task.dirid,
                task.name,
                KindView::Disk,
                wall,
            );
            (after, LookupNextView::Done(result))
        },
        _ => (state, LookupNextView::Done(Err(Status::Io))),
    }
}

impl TreeportFs {
    fn lookup_branches_known(&mut self, task: RefsTask, trie: &BranchTrie, wall: NfsTime) -> (r:
        LookupNext)
        requires
            old(self).state.wf(),
            old(self).state@.tree.next_id < u64::MAX,
            trie.wf(),
        ensures
            only_state_changes(old(self), final(self), task@.fits(old(self).state@.tree)),
            (final(self).state@, r@) == lookup_with_branches(
                &old(self).git.settings(),
                old(self).state@,
                task@,
                trie@,
                wall,
            ),
    {
        match self.lookup_trie(task, trie, wall) {
            TrieStep::Done(id) => LookupNext::Done(Ok(id)),
            TrieStep::Parent { task, branch } => {
                let org = task.org().to_owned();
                let repo = task.repo().to_owned();
                LookupNext::Wait(Need::CheckOut { org, repo, branch }, LookupStage::Parent(task))
            },
            TrieStep::Local { task, root, marker } => LookupNext::Wait(
                Need::Reachable(marker),
                LookupStage::Local(task, root),
            ),
            TrieStep::Leaf { task, branch } => {
                let org = task.org().to_owned();
                let repo = task.repo().to_owned();
                LookupNext::Wait(Need::CheckOut { org, repo, branch }, LookupStage::Leaf(task))
            },
        }
    }

    fn lookup_foreign_known(
        &mut self,
        task: RefsTask,
        foreign: &NameMap<FsPath>,
        now: u128,
        wall: NfsTime,
    ) -> (r: LookupNext)
        requires
            old(self).state.wf(),
            old(self).state@.tree.next_id < u64::MAX - 1,
            foreign.wf(),
        ensures
            only_state_changes(old(self), final(self), task@.fits(old(self).state@.tree)),
            (final(self).state@, r@) == lookup_with_foreign(
                &old(self).git.settings(),
                old(self).state@,
                task@,
                directories(foreign@),
                now,
                wall,
            ),
    {
        let task = match self.lookup_refs(task, foreign, wall) {
            RefsStep::Done(id) => {
                return LookupNext::Done(Ok(id));
            },
            RefsStep::Resolve(task) => task,
        };
        match self.get_trie(task.org(), task.repo(), now) {
            TrieAnswer::Known(Ok(trie)) => self.lookup_branches_known(task, &trie, wall),
            TrieAnswer::Known(Err(status)) => LookupNext::Done(Err(status)),
            TrieAnswer::Query => {
                let org = task.org().to_owned();
                let repo = task.repo().to_owned();
                LookupNext::Wait(Need::Heads { org, repo }, LookupStage::Branches(task))
            },
        }
    }

    /// Looks up a name in a directory.
    pub fn lookup(&mut self, dirid: u64, filename: &[u8], now: u128, wall: NfsTime) -> (r: LookupNext)
        requires
            old(self).state.wf(),
            old(self).state@.tree.next_id < u64::MAX - 2,
        ensures
            only_state_differs(old(self), final(self)),
            (final(self).state@, r@) == lookup_started(
                &old(self).git.settings(),
                old(self).state@,
                dirid,
                filename@,
                now,
                wall,
            ),
    {
        proof {
            self.state.lemma_wf();
            lemma_lookup_fits(self.state@, dirid, filename@, wall);
        }
        match self.plan_lookup(dirid, filename, wall) {
            LookupStep::Done(result) => LookupNext::Done(result),
            LookupStep::Refresh(id) => match self.maybe_refresh_worktree(id, now) {
                Some(task) => LookupNext::Wait(Need::Refresh(task), LookupStage::Refresh(id)),
                None => LookupNext::Done(Ok(id)),
            },
            LookupStep::Probe(task) => match self.get_trie(
                task.org.as_str(),
                task.name.as_str(),
                now,
            ) {
                TrieAnswer::Known(Ok(_)) => LookupNext::Done(Ok(self.lookup_probed(&task, wall))),
                TrieAnswer::Known(Err(status)) => LookupNext::Done(Err(status)),
                TrieAnswer::Query => LookupNext::Wait(
                    Need::Heads { org: task.org.clone(), repo: task.name.clone() },
                    LookupStage::Probe(task),
                ),
            },
            LookupStep::Refs(task) => match self.get_foreign(task.org(), task.repo(), now) {
                Some(foreign) => self.lookup_foreign_known(task, &foreign, now, wall),
                None => {
                    let org = task.org().to_owned();
                    let repo = task.repo().to_owned();
                    LookupNext::Wait(Need::Worktrees { org, repo }, LookupStage::Foreign(task))
                },
            },
            LookupStep::OnDisk(task) => LookupNext::Wait(
                Need::Exists(task.path.clone()),
                LookupStage::OnDisk(task),
            ),
        }
    }

    /// Goes on with a lookup, given the answer to what it waited for.
    pub fn lookup_next(&mut self, stage: LookupStage, event: Event, now: u128, wall: NfsTime) -> (r:
        LookupNext)
        requires
            old(self).state.wf(),
            old(self).state@.tree.next_id < u64::MAX - 1,
        ensures
            only_state_changes(old(self), final(self), stage@.fits(old(self).state@.tree)),
            (final(self).state@, r@) == lookup_continued(
                &old(self).git.settings(),
                old(self).state@,
                stage@,
                event@,
                now,
                wall,
            ),
    {
        match (stage, event) {
            (LookupStage::Refresh(id), _) => LookupNext::Done(Ok(id)),
            (LookupStage::Probe(task), Event::Heads { remote, local }) => {
                match self.trie_update(
                    task.org.as_str(),
                    task.name.as_str(),
                    remote,
                    local,
                    now,
                    wall,
                ) {
                    Ok(_) => LookupNext::Done(Ok(self.lookup_probed(&task, wall))),
                    Err(status) => LookupNext::Done(Err(status)),
                }
            },
            (LookupStage::Foreign(task), Event::Worktrees(listed)) => {
                let foreign = self.foreign_update(task.org(), task.repo(), listed, now);
                self.lookup_foreign_known(task, &foreign, now, wall)
            },
            (LookupStage::Branches(task), Event::Heads { remote, local }) => {
                match self.trie_update(task.org(), task.repo(), remote, local, now, wall) {
                    Ok(trie) => self.lookup_branches_known(task, &trie, wall),
                    Err(status) => LookupNext::Done(Err(status)),
                }
            },
            (LookupStage::Parent(task), Event::CheckedOut(Ok(root))) => {
                match self.lookup_parent(&task, &root, now) {
                    Ok(found) => LookupNext::Wait(
                        Need::Exists(found.path.clone()),
                        LookupStage::OnDisk(found),
                    ),
                    Err(status) => LookupNext::Done(Err(status)),
                }
            },
            (LookupStage::Parent(_), Event::CheckedOut(Err(e))) => LookupNext::Done(
                Err(materialize_err(&e)),
            ),
            (LookupStage::Local(task, root), Event::Exists(there)) => LookupNext::Done(
                self.lookup_local(&task, root, there, wall),
            ),
            (LookupStage::Leaf(task), Event::CheckedOut(Ok(root))) => LookupNext::Done(
                Ok(self.lookup_leaf(&task, root, now, wall)),
            ),
            (LookupStage::Leaf(_), Event::CheckedOut(Err(e))) => LookupNext::Done(
                Err(materialize_err(&e)),
            ),
            (LookupStage::OnDisk(task), Event::Exists(there)) => LookupNext::Done(
                self.lookup_disk(&task, there, wall),
            ),
            _ => LookupNext::Done(Err(Status::Io)),
        }
    }
}

} // verus!
