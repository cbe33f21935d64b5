//! What holds of requests as a whole.

use crate::caches::{cached_answer, has_below, known_foreign, TrieAnswerView};
use crate::changes::is_checked_out;
use crate::config::Config;
use crate::lookup::lemma_lookup_fits;
use crate::need::{EventView, NeedView};
use crate::node::StateView;
use crate::protocol::name_in;
use crate::serve_edit::{
    mkdir_continued, mkdir_started, mkdir_with_branches, mkdir_with_foreign, remove_continued,
    remove_started, remove_with_branches, remove_with_foreign, MkdirNextView, MkdirStageView,
    RemoveNextView, RemoveStageView,
};
use crate::serve_list::{
    readdir_continued, readdir_started, PageRequest, ReaddirNextView, ReaddirStageView,
};
use crate::serve_lookup::{lookup_continued, lookup_started, LookupNextView, LookupStageView};
use crate::task::RefsTaskView;
use crate::tree::{KindView, NfsTime, ROOT_ID};
use crate::trie::is_ref_path;
use vstd::prelude::*;

verus! {

/// How many answers a lookup can still wait for.
pub open spec fn lookup_waits(stage: LookupStageView) -> nat {
    match stage {
        LookupStageView::Foreign(_) => 4,
        LookupStageView::Branches(_) => 3,
        LookupStageView::Parent(_) => 2,
        _ => 1,
    }
}

/// How many answers the making of a directory can still wait for.
pub open spec fn mkdir_waits(stage: MkdirStageView) -> nat {
    match stage {
        MkdirStageView::Branches(_) => 4,
        MkdirStageView::Foreign(_) => 3,
        MkdirStageView::Base(_) => 2,
        _ => 1,
    }
}

/// How many answers a removal can still wait for.
pub open spec fn remove_waits(stage: RemoveStageView) -> nat {
    match stage {
        RemoveStageView::Foreign(_) => 3,
        RemoveStageView::Branches(_) => 2,
        _ => 1,
    }
}

/// How many answers a listing can still wait for.
pub open spec fn readdir_waits(stage: ReaddirStageView) -> nat {
    match stage {
        ReaddirStageView::Foreign(_, _) => 5,
        ReaddirStageView::Branches(_, _, _) => 4,
        ReaddirStageView::CheckOut(_) => 3,
        ReaddirStageView::Refresh(_, _) => 3,
        ReaddirStageView::List(_, _) => 2,
        ReaddirStageView::Attributes(_, _) => 1,
    }
}

/// Every lookup comes to an end: whatever the answers, each brings it closer.
pub proof fn law_lookups_end(
    cfg: &Config,
    state: StateView,
    stage: LookupStageView,
    event: EventView,
    now: u128,
    wall: NfsTime,
)
    ensures
        lookup_continued(cfg, state, stage, event, now, wall).1 matches LookupNextView::Wait(_, next)
            ==> lookup_waits(next) < lookup_waits(stage),
{
}

/// Every making of a directory comes to an end.
pub proof fn law_mkdirs_end(
    cfg: &Config,
    state: StateView,
    stage: MkdirStageView,
    event: EventView,
    now: u128,
    wall: NfsTime,
)
    ensures
        mkdir_continued(cfg, state, stage, event, now, wall).1 matches MkdirNextView::Wait(_, next)
            ==> mkdir_waits(next) < mkdir_waits(stage),
{
}

/// Every removal comes to an end.
pub proof fn law_removals_end(
    cfg: &Config,
    state: StateView,
    stage: RemoveStageView,
    event: EventView,
    now: u128,
    wall: NfsTime,
)
    ensures
        remove_continued(cfg, state, stage, event, now, wall).1 matches RemoveNextView::Wait(_, next)
            ==> remove_waits(next) < remove_waits(stage),
{
}

/// Every listing comes to an end.
pub proof fn law_listings_end(
    cfg: &Config,
    state: StateView,
    owner: (u32, u32),
    started: NfsTime,
    stage: ReaddirStageView,
    event: EventView,
    now: u128,
    wall: NfsTime,
)
    ensures
        readdir_continued(
            cfg,
            state,
            owner,
            started,
            stage,
            event,
            now,
            wall,
        ).1 matches ReaddirNextView::Wait(_, next) ==> readdir_waits(next) < readdir_waits(stage),
{
}

/// A lookup only carries on what can be a stage of the tree, so that a lookup
/// taken from its start to its end keeps the form of the tree.
pub proof fn law_lookup_stages_fit(
    cfg: &Config,
    state: StateView,
    dirid: u64,
    filename: Seq<u8>,
    stage: LookupStageView,
    event: EventView,
    now: u128,
    wall: NfsTime,
)
    requires
        state.tree.wf(),
        state.tree.next_id < u64::MAX - 2,
    ensures
        ({
            let (after, next) = lookup_started(cfg, state, dirid, filename, now, wall);
            next matches LookupNextView::Wait(_, later) ==> later.fits(after.tree)
        }),
        stage.fits(state.tree) ==> ({
            let (after, next) = lookup_continued(cfg, state, stage, event, now, wall);
            next matches LookupNextView::Wait(_, later) ==> later.fits(after.tree)
        }),
{
    lemma_lookup_fits(state, dirid, filename, wall);
}

/// The making of a directory only carries on what can be a stage of the tree.
pub proof fn law_mkdir_stages_fit(
    cfg: &Config,
    state: StateView,
    dirid: u64,
    dirname: Seq<u8>,
    stage: MkdirStageView,
    event: EventView,
    now: u128,
    wall: NfsTime,
)
    requires
        state.tree.wf(),
    ensures
        mkdir_started(cfg, state, dirid, dirname, now) matches MkdirNextView::Wait(_, later)
            ==> later.fits(state.tree),
        stage.fits(state.tree) ==> ({
            let (after, next) = mkdir_continued(cfg, state, stage, event, now, wall);
            next matches MkdirNextView::Wait(_, later) ==> later.fits(after.tree)
        }),
{
    assert(state.tree.nodes.contains_key(dirid) ==> dirid < state.tree.next_id);
}

proof fn lemma_readdir_starts_fit(
    cfg: &Config,
    state: StateView,
    owner: (u32, u32),
    started: NfsTime,
    request: PageRequest,
    now: u128,
    wall: NfsTime,
)
    requires
        state.tree.kind(ROOT_ID) == Some(KindView::Root),
        state.tree.nodes.contains_key(request.dirid) ==> request.dirid < state.tree.next_id,
    ensures
        ({
            let (after, next) = readdir_started(cfg, state, owner, started, request, now, wall);
            next matches ReaddirNextView::Wait(_, later) ==> later.fits(after.tree)
        }),
{
}

proof fn lemma_readdir_goes_on_fitting(
    cfg: &Config,
    state: StateView,
    owner: (u32, u32),
    started: NfsTime,
    stage: ReaddirStageView,
    event: EventView,
    now: u128,
    wall: NfsTime,
)
    requires
        stage.fits(state.tree),
    ensures
        ({
            let (after, next) = readdir_continued(
                cfg,
                state,
                owner,
                started,
                stage,
                event,
                now,
                wall,
            );
            next matches ReaddirNextView::Wait(_, later) ==> later.fits(after.tree)
        }),
{
}

/// A listing only carries on what can be a stage of the tree.
pub proof fn law_readdir_stages_fit(
    cfg: &Config,
    state: StateView,
    owner: (u32, u32),
    started: NfsTime,
    request: PageRequest,
    stage: ReaddirStageView,
    event: EventView,
    now: u128,
    wall: NfsTime,
)
    requires
        state.tree.wf(),
    ensures
        ({
            let (after, next) = readdir_started(cfg, state, owner, started, request, now, wall);
            next matches ReaddirNextView::Wait(_, later) ==> later.fits(after.tree)
        }),
        stage.fits(state.tree) ==> ({
            let (after, next) = readdir_continued(
                cfg,
                state,
                owner,
                started,
                stage,
                event,
                now,
                wall,
            );
            next matches ReaddirNextView::Wait(_, later) ==> later.fits(after.tree)
        }),
{
    assert(state.tree.nodes.contains_key(request.dirid) ==> request.dirid < state.tree.next_id);
    lemma_readdir_starts_fit(cfg, state, owner, started, request, now, wall);
    if stage.fits(state.tree) {
        lemma_readdir_goes_on_fitting(cfg, state, owner, started, stage, event, now, wall);
    }
}

/// Nothing is forked over a branch that is there: a new branch goes ahead only
/// if neither the remote's branches nor the foreign worktrees have it, and
/// nothing below it.
pub proof fn law_existing_branches_are_not_forked(
    cfg: &Config,
    state: StateView,
    task: RefsTaskView,
    branches: Set<Seq<Seq<char>>>,
    foreign: Map<Seq<char>, Seq<u8>>,
    now: u128,
)
    ensures
        mkdir_with_branches(cfg, state, task, branches, now) is Wait ==> !is_ref_path(
            branches,
            task.segs(),
        ),
        mkdir_with_foreign(state, task, foreign) is Wait ==> !foreign.contains_key(task.branch())
            && !has_below(foreign, task.branch()),
{
}

/// Only branches are deleted: what is removed in the `refs` subtree is checked
/// out here or elsewhere, or a branch of the remote. Directories on the way to
/// a branch are not removed.
pub proof fn law_only_branches_are_deleted(
    cfg: &Config,
    state: StateView,
    dirid: u64,
    filename: Seq<u8>,
    now: u128,
    org: Seq<char>,
    repo: Seq<char>,
    branch: Seq<char>,
    task: RefsTaskView,
)
    requires
        remove_started(cfg, state, dirid, filename, now) == RemoveNextView::Wait(
            NeedView::Delete { org, repo, branch },
            RemoveStageView::Delete(task),
        ),
    ensures
        org == task.parent.org,
        repo == task.parent.repo,
        branch == task.branch(),
        name_in(filename) == Some(task.name),
        state.tree.refs_context(dirid) == Some(task.parent),
        ({
            ||| is_checked_out(state.tree, dirid, task.name)
            ||| known_foreign(cfg, state, task.key(), now) matches Some(foreign)
                && foreign.contains_key(branch)
            ||| cached_answer(cfg, state, task.key(), now) matches TrieAnswerView::Known(Ok(branches))
                && branches.contains(task.segs())
        }),
{
}

/// The same once the foreign worktrees or the branches had to be asked for.
pub proof fn law_only_branches_are_deleted_later(
    cfg: &Config,
    state: StateView,
    task: RefsTaskView,
    foreign: Map<Seq<char>, Seq<u8>>,
    branches: Set<Seq<Seq<char>>>,
    now: u128,
)
    ensures
        remove_with_foreign(cfg, state, task, foreign, now) matches RemoveNextView::Wait(
            NeedView::Delete { .. },
            _,
        ) ==> {
            ||| foreign.contains_key(task.branch())
            ||| cached_answer(cfg, state, task.key(), now) matches TrieAnswerView::Known(Ok(known))
                && known.contains(task.segs())
        },
        remove_with_branches(task, branches) is Wait ==> branches.contains(task.segs()),
{
}

} // verus!
