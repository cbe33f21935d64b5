//! Serving a directory listing from its start to its end.

use crate::caches::{
    cached_answer, foreign_in, known_foreign, learned, materialize_err, materialize_status, refresh_due,
    with_foreign, TrieAnswer, TrieAnswerView,
};
use crate::config::Config;
use crate::fs::{only_state_changes, only_state_differs, TreeportFs};
use crate::fspath::FsPath;
use crate::lookup::branch_ready;
use crate::names::{in_order, is_in_order, NameMap};
use crate::need::{paths_in, Event, EventView, Need, NeedView};
use crate::node::{directories, RefsContext, StateView};
use crate::protocol::{
    entry_views, io_err, io_status, page, paginate, EntryView, ReadDirResult, Status,
};
use crate::readdir::{
    disk_listing, listed_views, lists, ref_names, refs_listed, settle, settled_entries, ListedAttr,
    ListedAttrView, ListedEntry, ListedView, ReaddirStep, ReaddirStepView, RefsListing,
    RefsListingView,
};
use crate::text::join;
use crate::tree::{ContextView, NfsTime, ROOT_ID, TreeView};
use crate::trie::BranchTrie;
use vstd::prelude::*;
use vstd::string::*;

verus! {

/// What a client asks for when it lists a directory: the part after the entry
/// with a number, at most so many entries.
#[derive(Clone, Copy, Debug)]
pub struct PageRequest {
    pub dirid: u64,
    pub start_after: u64,
    pub max_entries: usize,
}

impl PageRequest {
    /// Whether the number of the directory has been handed out and is not that
    /// of the root.
    pub open spec fn is_below_root(self, tree: TreeView) -> bool {
        self.dirid < tree.next_id && self.dirid != ROOT_ID
    }
}

/// Where a listing stands while it waits.
#[derive(Debug)]
pub enum ReaddirStage {
    /// The worktree is being refreshed.
    Refresh(PageRequest, FsPath),
    /// The directory is being listed on disk.
    List(PageRequest, FsPath),
    /// The foreign worktrees are being listed.
    Foreign(PageRequest, RefsContext),
    /// The branches are being listed; these are the foreign worktrees.
    Branches(PageRequest, RefsContext, NameMap<FsPath>),
    /// The directory turned out to be a branch and is being checked out.
    CheckOut(PageRequest),
    /// The attributes of these entries are being found.
    Attributes(PageRequest, Vec<ListedEntry>),
}

/// What a [`ReaddirStage`] says.
pub enum ReaddirStageView {
    Refresh(PageRequest, Seq<u8>),
    List(PageRequest, Seq<u8>),
    Foreign(PageRequest, ContextView),
    Branches(PageRequest, ContextView, Map<Seq<char>, Seq<u8>>),
    CheckOut(PageRequest),
    Attributes(PageRequest, Seq<ListedView>),
}

impl View for ReaddirStage {
    type V = ReaddirStageView;

    open spec fn view(&self) -> ReaddirStageView {
        match *self {
            ReaddirStage::Refresh(request, path) => ReaddirStageView::Refresh(request, path@),
            ReaddirStage::List(request, path) => ReaddirStageView::List(request, path@),
            ReaddirStage::Foreign(request, context) => ReaddirStageView::Foreign(request, context@),
            ReaddirStage::Branches(request, context, foreign) => ReaddirStageView::Branches(
                request,
                context@,
                directories(foreign@),
            ),
            ReaddirStage::CheckOut(request) => ReaddirStageView::CheckOut(request),
            ReaddirStage::Attributes(request, entries) => ReaddirStageView::Attributes(
                request,
                listed_views(entries@),
            ),
        }
    }
}

impl ReaddirStageView {
    /// Whether the stage can be one of a listing in this tree.
    pub open spec fn fits(self, tree: TreeView) -> bool {
        match self {
            ReaddirStageView::Refresh(request, _) => request.dirid < tree.next_id,
            ReaddirStageView::List(request, _) => request.dirid < tree.next_id,
            ReaddirStageView::Foreign(request, _) => request.is_below_root(tree),
            ReaddirStageView::Branches(request, _, _) => request.is_below_root(tree),
            ReaddirStageView::CheckOut(request) => request.is_below_root(tree),
            ReaddirStageView::Attributes(_, _) => true,
        }
    }
}

impl ReaddirStage {
    /// Whether what the stage carries is in order.
    pub open spec fn wf(&self) -> bool {
        *self matches ReaddirStage::Branches(_, _, foreign) ==> foreign.wf()
    }
}

/// What comes next in a listing.
#[derive(Debug)]
pub enum ReaddirNext {
    Done(Result<ReadDirResult, Status>),
    /// Find this out and go on with [`TreeportFs::readdir_next`].
    Wait(Need, ReaddirStage),
}

/// What a [`ReaddirNext`] says.
pub enum ReaddirNextView {
    Done(Result<(Seq<EntryView>, bool), Status>),
    Wait(NeedView, ReaddirStageView),
}

impl View for ReaddirNext {
    type V = ReaddirNextView;

    open spec fn view(&self) -> ReaddirNextView {
        match *self {
            ReaddirNext::Done(Ok(part)) => ReaddirNextView::Done(
                Ok((entry_views(part.entries@), part.end)),
            ),
            ReaddirNext::Done(Err(status)) => ReaddirNextView::Done(Err(status)),
            ReaddirNext::Wait(need, stage) => ReaddirNextView::Wait(need@, stage@),
        }
    }
}

impl ReaddirNext {
    /// Whether what is carried on is in order.
    pub open spec fn wf(&self) -> bool {
        *self matches ReaddirNext::Wait(_, stage) ==> stage.wf()
    }
}

/// Where the attributes of entries have to be found.
pub open spec fn wanted_paths(entries: Seq<ListedView>) -> Seq<Option<(u64, Seq<u8>)>> {
    Seq::new(
        entries.len(),
        |i: int|
            match entries[i].attr {
                ListedAttrView::OnDisk { path, fallback } => Some((entries[i].fileid, path)),
                ListedAttrView::Known(_) => None,
            },
    )
}

/// A listing whose attributes have to be found.
pub open spec fn attributes_wait(request: PageRequest, entries: Seq<ListedView>) -> ReaddirNextView {
    ReaddirNextView::Wait(
        NeedView::Attributes(wanted_paths(entries)),
        ReaddirStageView::Attributes(request, entries),
    )
}

/// A directory on disk that is to be listed.
pub open spec fn list_wait(request: PageRequest, path: Seq<u8>) -> ReaddirNextView {
    ReaddirNextView::Wait(NeedView::List(path), ReaddirStageView::List(request, path))
}

/// The page of a listing that was asked for.
pub open spec fn page_of(
    request: PageRequest,
    entries: Seq<EntryView>,
) -> ReaddirNextView {
    ReaddirNextView::Done(Ok(page(entries, request.start_after, request.max_entries as nat)))
}

/// A listing in the `refs` subtree: the branches are known.
pub open spec fn readdir_with_branches(
    state: StateView,
    owner: (u32, u32),
    started: NfsTime,
    request: PageRequest,
    context: ContextView,
    foreign: Map<Seq<char>, Seq<u8>>,
    branches: Set<Seq<Seq<char>>>,
    wall: NfsTime,
) -> (StateView, ReaddirNextView) {
    let (after, listing) = refs_listed(
        state,
        owner,
        started,
        request.dirid,
        context,
        foreign,
        branches,
        wall,
    );
    let next = match listing {
        RefsListingView::Fail(status) => ReaddirNextView::Done(Err(status)),
        RefsListingView::Materialize(branch) => ReaddirNextView::Wait(
            NeedView::CheckOut { org: context.org, repo: context.repo, branch },
            ReaddirStageView::CheckOut(request),
        ),
        RefsListingView::Entries(entries) => attributes_wait(request, entries),
    };
    (after, next)
}

/// A listing in the `refs` subtree: the foreign worktrees are known. A branch
/// that is checked out elsewhere is a symlink, no directory.
pub open spec fn readdir_with_foreign(
    cfg: &Config,
    state: StateView,
    owner: (u32, u32),
    started: NfsTime,
    request: PageRequest,
    context: ContextView,
    foreign: Map<Seq<char>, Seq<u8>>,
    now: u128,
    wall: NfsTime,
) -> (StateView, ReaddirNextView) {
    if foreign.contains_key(join(context.segs, '/')) {
        (state, ReaddirNextView::Done(Err(Status::NotDir)))
    } else {
        match cached_answer(cfg, state, (context.org, context.repo), now) {
            TrieAnswerView::Known(Ok(branches)) => readdir_with_branches(
                state,
                owner,
                started,
                request,
                context,
                foreign,
                branches,
                wall,
            ),
            TrieAnswerView::Known(Err(status)) => (state, ReaddirNextView::Done(Err(status))),
            TrieAnswerView::Query => (
                state,
                ReaddirNextView::Wait(
                    NeedView::Heads { org: context.org, repo: context.repo },
                    ReaddirStageView::Branches(request, context, foreign),
                ),
            ),
        }
    }
}

/// [`TreeportFs::readdir`].
pub open spec fn readdir_started(
    cfg: &Config,
    state: StateView,
    owner: (u32, u32),
    started: NfsTime,
    request: PageRequest,
    now: u128,
    wall: NfsTime,
) -> (StateView, ReaddirNextView) {
    match lists(state.tree, owner, started, request.dirid) {
        ReaddirStepView::Done(Ok(entries)) => (
            state,
            page_of(request, settled_entries(entries, Seq::empty())),
        ),
        ReaddirStepView::Done(Err(status)) => (state, ReaddirNextView::Done(Err(status))),
        ReaddirStepView::OnDisk(path) => {
            let (after, due) = refresh_due(cfg, state, request.dirid, now);
            match due {
                Some(task) => (
                    after,
                    ReaddirNextView::Wait(
                        NeedView::Refresh(task),
                        ReaddirStageView::Refresh(request, path),
                    ),
                ),
                None => (after, list_wait(request, path)),
            }
        },
        ReaddirStepView::Refs(context) => match known_foreign(
            cfg,
            state,
            (context.org, context.repo),
            now,
        ) {
            Some(foreign) => readdir_with_foreign(
                cfg,
                state,
                owner,
                started,
                request,
                context,
                foreign,
                now,
                wall,
            ),
            None => (
                state,
                ReaddirNextView::Wait(
                    NeedView::Worktrees { org: context.org, repo: context.repo },
                    ReaddirStageView::Foreign(request, context),
                ),
            ),
        },
    }
}

/// [`TreeportFs::readdir_next`]. A worktree is listed whether or not its
/// refresh worked.
pub open spec fn readdir_continued(
    cfg: &Config,
    state: StateView,
    owner: (u32, u32),
    started: NfsTime,
    stage: ReaddirStageView,
    event: EventView,
    now: u128,
    wall: NfsTime,
) -> (StateView, ReaddirNextView) {
    match (stage, event) {
        (ReaddirStageView::Refresh(request, path), _) => (state, list_wait(request, path)),
        (ReaddirStageView::List(request, path), EventView::Listed(Ok(files))) => {
            let (after, listing) = disk_listing(state, request.dirid, path, files, wall);
            match listing {
                Ok(entries) => (after, attributes_wait(request, entries)),
                Err(status) => (after, ReaddirNextView::Done(Err(status))),
            }
        },
        (ReaddirStageView::List(_, _), EventView::Listed(Err(kind))) => (
            state,
            ReaddirNextView::Done(Err(io_status(kind))),
        ),
        (ReaddirStageView::Foreign(request, context), EventView::Worktrees(list)) => {
            let foreign = foreign_in(cfg, context.org, context.repo, list);
            readdir_with_foreign(
                cfg,
                with_foreign(state, (context.org, context.repo), foreign, now),
                owner,
                started,
                request,
                context,
                foreign,
                now,
                wall,
            )
        },
        (
            ReaddirStageView::Branches(request, context, foreign),
            EventView::Heads { remote, local },
        ) => {
            let (after, result) = learned(
                state,
                (context.org, context.repo),
                remote,
                local,
                now,
                wall,
            );
            match result {
                Ok(branches) => readdir_with_branches(
                    after,
                    owner,
                    started,
                    request,
                    context,
                    foreign,
                    branches,
                    wall,
                ),
                Err(status) => (after, ReaddirNextView::Done(Err(status))),
            }
        },
        (ReaddirStageView::CheckOut(request), EventView::CheckedOut(Ok(root))) => (
            branch_ready(state, request.dirid, root, now),
            list_wait(request, root),
        ),
        (ReaddirStageView::CheckOut(_), EventView::CheckedOut(Err(e))) => (
            state,
            ReaddirNextView::Done(Err(materialize_status(e))),
        ),
        (ReaddirStageView::Attributes(request, entries), EventView::Attributes(found)) => (
            state,
            page_of(request, settled_entries(entries, found)),
        ),
        _ => (state, ReaddirNextView::Done(Err(Status::Io))),
    }
}

/// Whether the names in a directory of the `refs` subtree have an order to be
/// listed in.
pub open spec fn names_have_order(
    tree: TreeView,
    dirid: u64,
    context: ContextView,
    foreign: Map<Seq<char>, Seq<u8>>,
    branches: Set<Seq<Seq<char>>>,
) -> bool {
    let names = ref_names(tree, dirid, context.segs, branches, foreign);
    is_in_order(in_order(names), names)
}

/// Whether the names that [`TreeportFs::readdir`] lists in the `refs` subtree
/// have an order to be listed in.
pub open spec fn started_names_have_order(
    cfg: &Config,
    state: StateView,
    owner: (u32, u32),
    started: NfsTime,
    request: PageRequest,
    now: u128,
) -> bool {
    lists(state.tree, owner, started, request.dirid) matches ReaddirStepView::Refs(context) ==> {
        let key = (context.org, context.repo);
        match (known_foreign(cfg, state, key, now), cached_answer(cfg, state, key, now)) {
            (Some(foreign), TrieAnswerView::Known(Ok(branches))) => names_have_order(
                state.tree,
                request.dirid,
                context,
                foreign,
                branches,
            ),
            _ => true,
        }
    }
}

/// Whether the names that [`TreeportFs::readdir_next`] lists in the `refs`
/// subtree have an order to be listed in.
pub open spec fn continued_names_have_order(
    cfg: &Config,
    state: StateView,
    stage: ReaddirStageView,
    event: EventView,
    now: u128,
    wall: NfsTime,
) -> bool {
    match (stage, event) {
        (ReaddirStageView::Foreign(request, context), EventView::Worktrees(list)) => {
            let key = (context.org, context.repo);
            let foreign = foreign_in(cfg, context.org, context.repo, list);
            match cached_answer(cfg, with_foreign(state, key, foreign, now), key, now) {
                TrieAnswerView::Known(Ok(branches)) => names_have_order(
                    state.tree,
                    request.dirid,
                    context,
                    foreign,
                    branches,
                ),
                _ => true,
            }
        },
        (
            ReaddirStageView::Branches(request, context, foreign),
            EventView::Heads { remote, local },
        ) => {
            let key = (context.org, context.repo);
            let (after, result) = learned(state, key, remote, local, now, wall);
            result matches Ok(branches) ==> names_have_order(
                after.tree,
                request.dirid,
                context,
                foreign,
                branches,
            )
        },
        _ => true,
    }
}

/// Has the attributes of entries found.
fn find_attributes(request: PageRequest, entries: Vec<ListedEntry>) -> (r: ReaddirNext)
    ensures
        r@ == attributes_wait(request, listed_views(entries@)),
        r.wf(),
{
    let ghost all = listed_views(entries@);
    let mut wanted: Vec<Option<(u64, FsPath)>> = Vec::new();
    let mut i: usize = 0;
    while i < entries.len()
        invariant
            i <= entries@.len(),
            all == listed_views(entries@),
            wanted@.len() == i,
            forall|j: int| 0 <= j < i ==> #[trigger] paths_in(wanted@)[j] == wanted_paths(all)[j],
        decreases entries@.len() - i,
    {
        let ghost before = wanted@;
        let item: Option<(u64, FsPath)> = match &entries[i].attr {
            ListedAttr::OnDisk { path, fallback } => Some((entries[i].fileid, path.clone())),
            ListedAttr::Known(_) => None,
        };
        wanted.push(item);
        proof {
            assert(paths_in(wanted@)[i as int] == wanted_paths(all)[i as int]);
            assert forall|j: int| 0 <= j < i + 1 implies #[trigger] paths_in(wanted@)[j]
                == wanted_paths(all)[j] by {
                if j < i {
                    assert(paths_in(wanted@)[j] == paths_in(before)[j]);
                }
            }
        }
        i = i + 1;
    }
    assert(paths_in(wanted@) =~= wanted_paths(all));
    ReaddirNext::Wait(Need::Attributes(wanted), ReaddirStage::Attributes(request, entries))
}

impl TreeportFs {
    fn readdir_branches_known(
        &mut self,
        request: PageRequest,
        context: RefsContext,
        foreign: &NameMap<FsPath>,
        trie: &BranchTrie,
        wall: NfsTime,
    ) -> (r: ReaddirNext)
        requires
            old(self).state.wf(),
            foreign.wf(),
            trie.wf(),
        ensures
            only_state_changes(
                old(self),
                final(self),
                request.dirid < old(self).state@.tree.next_id,
            ),
            r.wf(),
            r@ matches ReaddirNextView::Wait(_, ReaddirStageView::Attributes(..))
                ==> names_have_order(
                old(self).state@.tree,
                request.dirid,
                context@,
                directories(foreign@),
                trie@,
            ),
            (final(self).state@, r@) == readdir_with_branches(
                old(self).state@,
                old(self).owner,
                old(self).started,
                request,
                context@,
                directories(foreign@),
                trie@,
                wall,
            ),
    {
        match self.readdir_refs(request.dirid, &context, foreign, trie, wall) {
            RefsListing::Fail(status) => ReaddirNext::Done(Err(status)),
            RefsListing::Materialize(branch) => ReaddirNext::Wait(
                Need::CheckOut { org: context.org, repo: context.repo, branch },
                ReaddirStage::CheckOut(request),
            ),
            RefsListing::Entries(entries) => find_attributes(request, entries),
        }
    }

    fn readdir_foreign_known(
        &mut self,
        request: PageRequest,
        context: RefsContext,
        foreign: NameMap<FsPath>,
        now: u128,
        wall: NfsTime,
    ) -> (r: ReaddirNext)
        requires
            old(self).state.wf(),
            foreign.wf(),
        ensures
            only_state_changes(
                old(self),
                final(self),
                request.dirid < old(self).state@.tree.next_id,
            ),
            r.wf(),
            r@ matches ReaddirNextView::Wait(_, ReaddirStageView::Attributes(..)) ==> (cached_answer(
                &old(self).git.settings(),
                old(self).state@,
                (context@.org, context@.repo),
                now,
            ) matches TrieAnswerView::Known(Ok(branches)) && names_have_order(
                old(self).state@.tree,
                request.dirid,
                context@,
                directories(foreign@),
                branches,
            )),
            (final(self).state@, r@) == readdir_with_foreign(
                &old(self).git.settings(),
                old(self).state@,
                old(self).owner,
                old(self).started,
                request,
                context@,
                directories(foreign@),
                now,
                wall,
            ),
    {
        match self.readdir_is_dir(&context, &foreign) {
            Ok(_) => {},
            Err(status) => {
                return ReaddirNext::Done(Err(status));
            },
        }
        match self.get_trie(context.org.as_str(), context.repo.as_str(), now) {
            TrieAnswer::Known(Ok(trie)) => self.readdir_branches_known(
                request,
                context,
                &foreign,
                &trie,
                wall,
            ),
            TrieAnswer::Known(Err(status)) => ReaddirNext::Done(Err(status)),
            TrieAnswer::Query => ReaddirNext::Wait(
                Need::Heads { org: context.org.clone(), repo: context.repo.clone() },
                ReaddirStage::Branches(request, context, foreign),
            ),
        }
    }

    /// Lists a part of a directory.
    pub fn readdir(&mut self, request: PageRequest, now: u128, wall: NfsTime) -> (r: ReaddirNext)
        requires
            old(self).state.wf(),
        ensures
            only_state_differs(old(self), final(self)),
            r.wf(),
            r@ matches ReaddirNextView::Wait(_, ReaddirStageView::Attributes(..))
                ==> started_names_have_order(
                &old(self).git.settings(),
                old(self).state@,
                old(self).owner,
                old(self).started,
                request,
                now,
            ),
            (final(self).state@, r@) == readdir_started(
                &old(self).git.settings(),
                old(self).state@,
                old(self).owner,
                old(self).started,
                request,
                now,
                wall,
            ),
    {
        proof {
            self.state.lemma_wf();
            assert(self.state@.tree.nodes.contains_key(request.dirid) ==> request.dirid
                < self.state@.tree.next_id);
        }
        match self.plan_readdir(request.dirid) {
            ReaddirStep::Done(Ok(entries)) => {
                let none = Vec::new();
                assert(none@ =~= Seq::empty());
                let settled = settle(entries, none);
                ReaddirNext::Done(Ok(paginate(settled, request.start_after, request.max_entries)))
            },
            ReaddirStep::Done(Err(status)) => ReaddirNext::Done(Err(status)),
            ReaddirStep::OnDisk(path) => match self.maybe_refresh_worktree(request.dirid, now) {
                Some(task) => ReaddirNext::Wait(
                    Need::Refresh(task),
                    ReaddirStage::Refresh(request, path),
                ),
                None => ReaddirNext::Wait(
                    Need::List(path.clone()),
                    ReaddirStage::List(request, path),
                ),
            },
            ReaddirStep::Refs(context) => match self.get_foreign(
                context.org.as_str(),
                context.repo.as_str(),
                now,
            ) {
                Some(foreign) => self.readdir_foreign_known(request, context, foreign, now, wall),
                None => ReaddirNext::Wait(
                    Need::Worktrees { org: context.org.clone(), repo: context.repo.clone() },
                    ReaddirStage::Foreign(request, context),
                ),
            },
        }
    }

    /// Goes on with a listing, given the answer to what it waited for.
    pub fn readdir_next(&mut self, stage: ReaddirStage, event: Event, now: u128, wall: NfsTime) -> (r:
        ReaddirNext)
        requires
            old(self).state.wf(),
            stage.wf(),
        ensures
            only_state_changes(old(self), final(self), stage@.fits(old(self).state@.tree)),
            r.wf(),
            r@ matches ReaddirNextView::Wait(_, ReaddirStageView::Attributes(..))
                ==> continued_names_have_order(
                &old(self).git.settings(),
                old(self).state@,
                stage@,
                event@,
                now,
                wall,
            ),
            (final(self).state@, r@) == readdir_continued(
                &old(self).git.settings(),
                old(self).state@,
                old(self).owner,
                old(self).started,
                stage@,
                event@,
                now,
                wall,
            ),
    {
        match (stage, event) {
            (ReaddirStage::Refresh(request, path), _) => ReaddirNext::Wait(
                Need::List(path.clone()),
                ReaddirStage::List(request, path),
            ),
            (ReaddirStage::List(request, path), Event::Listed(Ok(files))) => {
                match self.disk_entries(request.dirid, &path, &files, wall) {
                    Ok(entries) => find_attributes(request, entries),
                    Err(status) => ReaddirNext::Done(Err(status)),
                }
            },
            (ReaddirStage::List(_, _), Event::Listed(Err(kind))) => ReaddirNext::Done(
                Err(io_err(kind)),
            ),
            (ReaddirStage::Foreign(request, context), Event::Worktrees(listed)) => {
                let foreign = self.foreign_update(
                    context.org.as_str(),
                    context.repo.as_str(),
                    listed,
                    now,
                );
                self.readdir_foreign_known(request, context, foreign, now, wall)
            },
            (ReaddirStage::Branches(request, context, foreign), Event::Heads { remote, local }) => {
                match self.trie_update(
                    context.org.as_str(),
                    context.repo.as_str(),
                    remote,
                    local,
                    now,
                    wall,
                ) {
                    Ok(trie) => self.readdir_branches_known(request, context, &foreign, &trie, wall),
                    Err(status) => ReaddirNext::Done(Err(status)),
                }
            },
            (ReaddirStage::CheckOut(request), Event::CheckedOut(Ok(root))) => {
                self.ensure_branch_dir(request.dirid, &root, now);
                ReaddirNext::Wait(Need::List(root.clone()), ReaddirStage::List(request, root))
            },
            (ReaddirStage::CheckOut(_), Event::CheckedOut(Err(e))) => ReaddirNext::Done(
                Err(materialize_err(&e)),
            ),
            (ReaddirStage::Attributes(request, entries), Event::Attributes(found)) => {
                let settled = settle(entries, found);
                ReaddirNext::Done(Ok(paginate(settled, request.start_after, request.max_entries)))
            },
            _ => ReaddirNext::Done(Err(Status::Io)),
        }
    }
}

} // verus!
