//! What the filesystem remembers about repositories, and for how long.

use crate::action::{GitError, GitErrorView};
use crate::config::Config;
use crate::fs::{only_state_differs, TreeportFs};
use crate::fspath::{components, FsPath};
use crate::names::NameMap;
use crate::node::{directories, ForeignView, ListingView, StateView};
use crate::porcelain::{already_there, checkouts, says_exists, Checkout};
use crate::protocol::Status;
use crate::text::{join, join_all, starts_with, strings};
use crate::tree::{NfsTime, NodeView};
use crate::trie::{branch_set, BranchTrie};
use std::sync::Arc;
use vstd::prelude::*;
use vstd::string::*;

verus! {

/// Whether something noted at `at` is still good at `now`.
pub open spec fn is_fresh(at: u128, now: u128, ttl: u128) -> bool {
    if now >= at {
        now - at < ttl
    } else {
        0 < ttl
    }
}

/// Whether something noted at `at` is still good at `now`. A clock that runs
/// backwards counts as standing still.
pub fn fresh(at: u128, now: u128, ttl: u128) -> (r: bool)
    ensures
        r == is_fresh(at, now, ttl),
{
    if now >= at {
        now - at < ttl
    } else {
        0 < ttl
    }
}

/// What the caches say about the branches of a repository.
#[derive(Debug)]
pub enum TrieAnswer {
    /// The listing, or that the repository is not there.
    Known(Result<Arc<BranchTrie>, Status>),
    /// The remote has to be asked.
    Query,
}

/// What a [`TrieAnswer`] says.
pub enum TrieAnswerView {
    Known(Result<Set<Seq<Seq<char>>>, Status>),
    Query,
}

impl View for TrieAnswer {
    type V = TrieAnswerView;

    open spec fn view(&self) -> TrieAnswerView {
        match *self {
            TrieAnswer::Known(Ok(trie)) => TrieAnswerView::Known(Ok((*trie)@)),
            TrieAnswer::Known(Err(status)) => TrieAnswerView::Known(Err(status)),
            TrieAnswer::Query => TrieAnswerView::Query,
        }
    }
}

/// What the caches say about the branches of a repository: a fresh listing is
/// used, and a repository that was missing a moment ago is still missing.
pub open spec fn cached_answer(
    cfg: &Config,
    state: StateView,
    key: (Seq<char>, Seq<char>),
    now: u128,
) -> TrieAnswerView {
    if state.tries.contains_key(key) && is_fresh(state.tries[key].fetched, now, cfg.branch_ttl) {
        TrieAnswerView::Known(Ok(state.tries[key].branches))
    } else if state.missing_repos.contains_key(key) && is_fresh(
        state.missing_repos[key],
        now,
        cfg.negative_ttl,
    ) {
        TrieAnswerView::Known(Err(Status::NoEnt))
    } else {
        TrieAnswerView::Query
    }
}

/// What the remote's answer changes, and what it comes to. A new listing is
/// cached, and where it differs from the one before, clients drop what they
/// know of the `refs` subtree. If the remote did not answer, an old listing
/// beats an error, then the refs that were last fetched; failing both, the
/// repository counts as missing.
pub open spec fn learned(
    state: StateView,
    key: (Seq<char>, Seq<char>),
    remote: Option<Seq<Seq<char>>>,
    local: Option<Seq<Seq<char>>>,
    now: u128,
    wall: NfsTime,
) -> (StateView, Result<Set<Seq<Seq<char>>>, Status>) {
    match remote {
        Some(names) => {
            let branches = branch_set(names);
            let listing = ListingView { branches, fetched: now };
            let changed = !state.tries.contains_key(key) || state.tries[key].branches != branches;
            let tree = if changed {
                state.tree.refs_touched(key.0, key.1, wall)
            } else {
                state.tree
            };
            (
                StateView {
                    tree,
                    tries: state.tries.insert(key, listing),
                    missing_repos: state.missing_repos.remove(key),
                    ..state
                },
                Ok(branches),
            )
        },
        None => if state.tries.contains_key(key) {
            (state, Ok(state.tries[key].branches))
        } else {
            match local {
                Some(names) => {
                    let branches = branch_set(names);
                    let listing = ListingView { branches, fetched: now };
                    (StateView { tries: state.tries.insert(key, listing), ..state }, Ok(branches))
                },
                None => (
                    StateView { missing_repos: state.missing_repos.insert(key, now), ..state },
                    Err(Status::NoEnt),
                ),
            }
        },
    }
}

/// Names in an optional list.
pub open spec fn names_in(list: Option<Vec<String>>) -> Option<Seq<Seq<char>>> {
    match list {
        Some(names) => Some(strings(names@)),
        None => None,
    }
}

/// Whether a listing or a failure is the one wanted.
pub open spec fn is_trie(
    r: Result<Arc<BranchTrie>, Status>,
    want: Result<Set<Seq<Seq<char>>>, Status>,
) -> bool {
    match (r, want) {
        (Ok(trie), Ok(branches)) => trie.wf() && (*trie)@ == branches,
        (Err(e), Err(s)) => e == s,
        _ => false,
    }
}

/// The foreign worktrees in a listing: those that do not stand where this
/// cache keeps the worktree of their branch. Of two for one branch the later
/// counts.
pub open spec fn foreign_in(
    cfg: &Config,
    org: Seq<char>,
    repo: Seq<char>,
    list: Seq<(Seq<char>, Seq<u8>)>,
) -> Map<Seq<char>, Seq<u8>>
    decreases list.len(),
{
    if list.len() == 0 {
        Map::empty()
    } else {
        let before = foreign_in(cfg, org, repo, list.drop_last());
        let (branch, path) = list.last();
        if components(path) == components(cfg.worktree(org, repo, branch)) {
            before
        } else {
            before.insert(branch, path)
        }
    }
}

/// The worktrees in an optional listing; none, where there is no listing.
pub open spec fn listed_worktrees(listed: Option<Vec<Checkout>>) -> Seq<(Seq<char>, Seq<u8>)> {
    match listed {
        Some(list) => checkouts(list@),
        None => Seq::empty(),
    }
}

/// The foreign worktrees of a repository, where they were listed a moment ago.
pub open spec fn known_foreign(
    cfg: &Config,
    state: StateView,
    key: (Seq<char>, Seq<char>),
    now: u128,
) -> Option<Map<Seq<char>, Seq<u8>>> {
    if state.foreign.contains_key(key) && is_fresh(state.foreign[key].listed, now, cfg.branch_ttl) {
        Some(state.foreign[key].worktrees)
    } else {
        None
    }
}

/// The state once the foreign worktrees of a repository have been listed.
pub open spec fn with_foreign(
    state: StateView,
    key: (Seq<char>, Seq<char>),
    worktrees: Map<Seq<char>, Seq<u8>>,
    now: u128,
) -> StateView {
    StateView {
        foreign: state.foreign.insert(key, ForeignView { worktrees, listed: now }),
        ..state
    }
}

/// Whether a branch below `branch` is checked out elsewhere.
pub open spec fn has_below(foreign: Map<Seq<char>, Seq<u8>>, branch: Seq<char>) -> bool {
    exists|k: Seq<char>| #[trigger] foreign.contains_key(k) && (branch + seq!['/']).is_prefix_of(k)
}

/// A copy of a map of directories.
pub fn copy_directories(m: &NameMap<FsPath>) -> (r: NameMap<FsPath>)
    requires
        m.wf(),
    ensures
        r.wf(),
        directories(r@) == directories(m@),
{
    let mut keys: Vec<String> = Vec::new();
    let mut values: Vec<FsPath> = Vec::new();
    let mut i: usize = 0;
    while i < m.keys.len()
        invariant
            m.wf(),
            i <= m.keys@.len(),
            keys@.len() == i,
            values@.len() == i,
            forall|j: int| 0 <= j < i ==> (#[trigger] keys@[j])@ == m.keys@[j]@,
            forall|j: int| 0 <= j < i ==> (#[trigger] values@[j])@ == m.values@[j]@,
        decreases m.keys@.len() - i,
    {
        keys.push(m.keys[i].clone());
        values.push(m.values[i].clone());
        i = i + 1;
    }
    let r = NameMap { keys, values };
    proof {
        assert(r.names() =~= m.names());
        assert forall|k: Seq<char>| #[trigger] m@.contains_key(k) implies r@[k]@ == m@[k]@ by {
            m.lemma_position(k);
            let p = m.position(k);
            m.lemma_at(p);
            r.lemma_at(p);
        }
        assert(directories(r@) =~= directories(m@));
    }
    r
}

/// Whether some branch below `branch` is in the map.
pub fn any_below(foreign: &NameMap<FsPath>, branch: &str) -> (r: bool)
    requires
        foreign.wf(),
    ensures
        r == has_below(directories(foreign@), branch@),
{
    let mut prefix = branch.to_owned();
    prefix.append("/");
    let ghost wanted = branch@ + seq!['/'];
    proof {
        reveal_strlit("/");
        assert(prefix@ =~= wanted);
    }
    let ghost dirs = directories(foreign@);
    let mut i: usize = 0;
    while i < foreign.keys.len()
        invariant
            foreign.wf(),
            dirs == directories(foreign@),
            wanted == branch@ + seq!['/'],
            prefix@ == wanted,
            i <= foreign.keys@.len(),
            forall|j: int| 0 <= j < i ==> !wanted.is_prefix_of(#[trigger] foreign.names()[j]),
        decreases foreign.keys@.len() - i,
    {
        proof {
            foreign.lemma_at(i as int);
        }
        if starts_with(foreign.keys[i].as_str(), prefix.as_str()) {
            assert(dirs.contains_key(foreign.keys@[i as int]@));
            return true;
        }
        i = i + 1;
    }
    proof {
        assert forall|k: Seq<char>| #[trigger] dirs.contains_key(k) implies !wanted.is_prefix_of(k) by {
            foreign.lemma_position(k);
            let p = foreign.position(k);
            assert(foreign.names()[p] == k);
        }
    }
    false
}

/// The status that answers a failure to check out a branch.
pub open spec fn materialize_status(e: GitErrorView) -> Status {
    match e {
        GitErrorView::RepoNotFound(_) | GitErrorView::BranchNotFound(_) => Status::NoEnt,
        _ => Status::Io,
    }
}

/// The status that answers a failure to check out a branch.
pub fn materialize_err(e: &GitError) -> (r: Status)
    ensures
        r == materialize_status(e@),
{
    match e {
        GitError::RepoNotFound(_) | GitError::BranchNotFound(_) => Status::NoEnt,
        _ => Status::Io,
    }
}

/// The status that answers a failure to create a branch.
pub open spec fn creation_status(e: GitErrorView) -> Status {
    match e {
        GitErrorView::CommandFailed { args, stderr } => if says_exists(stderr) {
            Status::Exist
        } else {
            Status::Io
        },
        _ => Status::Io,
    }
}

/// The status that answers a failure to create a branch.
pub fn creation_err(e: &GitError) -> (r: Status)
    ensures
        r == creation_status(e@),
{
    match e {
        GitError::CommandFailed { args, stderr } => {
            if already_there(stderr.as_str()) {
                Status::Exist
            } else {
                Status::Io
            }
        },
        _ => Status::Io,
    }
}

/// A worktree that is due for a refresh.
#[derive(Debug)]
pub struct RefreshTask {
    pub org: String,
    pub repo: String,
    pub branch: String,
}

/// What a [`RefreshTask`] says.
pub struct RefreshView {
    pub org: Seq<char>,
    pub repo: Seq<char>,
    pub branch: Seq<char>,
}

impl View for RefreshTask {
    type V = RefreshView;

    open spec fn view(&self) -> RefreshView {
        RefreshView { org: self.org@, repo: self.repo@, branch: self.branch@ }
    }
}

/// Whether the worktree around a node is due for a refresh, and if so, which
/// branch of which repository. A refresh is noted before it starts, so that
/// requests that come meanwhile start none.
pub open spec fn refresh_due(cfg: &Config, state: StateView, id: u64, now: u128) -> (
    StateView,
    Option<RefreshView>,
) {
    match state.tree.worktree_root(id) {
        None => (state, None),
        Some(root) => if state.wt_refresh.contains_key(root) && is_fresh(
            state.wt_refresh[root],
            now,
            cfg.branch_ttl,
        ) {
            (state, None)
        } else {
            (
                StateView { wt_refresh: state.wt_refresh.insert(root, now), ..state },
                match state.tree.refs_context(root) {
                    Some(c) => Some(
                        RefreshView { org: c.org, repo: c.repo, branch: join(c.segs, '/') },
                    ),
                    None => None,
                },
            )
        },
    }
}

impl TreeportFs {
    /// The branches of a repository, as far as they are known. (First half of
    /// resolving a repository; the second is [`TreeportFs::trie_update`].)
    pub fn get_trie(&self, org: &str, repo: &str, now: u128) -> (r: TrieAnswer)
        requires
            self.state.wf(),
        ensures
            r@ == cached_answer(&self.git.settings(), self.state@, (org@, repo@), now),
            r matches TrieAnswer::Known(Ok(trie)) ==> trie.wf(),
    {
        match self.state.trie(org, repo) {
            Some(cached) => {
                if fresh(cached.fetched, now, self.git.config().branch_ttl) {
                    return TrieAnswer::Known(Ok(cached.trie));
                }
            },
            None => {},
        }
        match self.state.missing_since(org, repo) {
            Some(when) => {
                if fresh(when, now, self.git.config().negative_ttl) {
                    return TrieAnswer::Known(Err(Status::NoEnt));
                }
            },
            None => {},
        }
        TrieAnswer::Query
    }

    /// Takes in what the remote said about the branches of a repository, and
    /// where it said nothing, the refs that were last fetched.
    pub fn trie_update(
        &mut self,
        org: &str,
        repo: &str,
        remote: Option<Vec<String>>,
        local: Option<Vec<String>>,
        now: u128,
        wall: NfsTime,
    ) -> (r: Result<Arc<BranchTrie>, Status>)
        requires
            old(self).state.wf(),
        ensures
            only_state_differs(old(self), final(self)),
            final(self).state@ == learned(
                old(self).state@,
                (org@, repo@),
                names_in(remote),
                names_in(local),
                now,
                wall,
            ).0,
            is_trie(
                r,
                learned(
                    old(self).state@,
                    (org@, repo@),
                    names_in(remote),
                    names_in(local),
                    now,
                    wall,
                ).1,
            ),
    {
        match remote {
            Some(names) => {
                let trie = Arc::new(BranchTrie::from_branches(names.as_slice()));
                self.state.forget_missing(org, repo);
                let changed = match self.state.trie(org, repo) {
                    Some(cached) => !cached.trie.same_branches(&trie),
                    None => true,
                };
                self.state.put_trie(org, repo, trie.clone(), now);
                if changed {
                    self.state.touch_refs_subtree(org, repo, wall);
                }
                Ok(trie)
            },
            None => {
                match self.state.trie(org, repo) {
                    Some(cached) => {
                        return Ok(cached.trie);
                    },
                    None => {},
                }
                match local {
                    Some(names) => {
                        let trie = Arc::new(BranchTrie::from_branches(names.as_slice()));
                        self.state.put_trie(org, repo, trie.clone(), now);
                        Ok(trie)
                    },
                    None => {
                        self.state.note_missing(org, repo, now);
                        Err(Status::NoEnt)
                    },
                }
            },
        }
    }

    /// The foreign worktrees of a repository by branch, where they were listed
    /// a moment ago. (First half; the second is
    /// [`TreeportFs::foreign_update`].)
    pub fn get_foreign(&self, org: &str, repo: &str, now: u128) -> (r: Option<NameMap<FsPath>>)
        requires
            self.state.wf(),
        ensures
            match (r, known_foreign(&self.git.settings(), self.state@, (org@, repo@), now)) {
                (Some(m), Some(worktrees)) => m.wf() && directories(m@) == worktrees,
                (None, None) => true,
                _ => false,
            },
    {
        match self.state.foreign(org, repo) {
            Some(cached) => {
                if fresh(cached.listed, now, self.git.config().branch_ttl) {
                    return Some(copy_directories(&cached.worktrees));
                }
            },
            None => {},
        }
        None
    }

    /// Takes in the worktrees that git lists for a repository; where it lists
    /// none, none are foreign.
    pub fn foreign_update(
        &mut self,
        org: &str,
        repo: &str,
        listed: Option<Vec<Checkout>>,
        now: u128,
    ) -> (r: NameMap<FsPath>)
        requires
            old(self).state.wf(),
        ensures
            only_state_differs(old(self), final(self)),
            r.wf(),
            directories(r@) == foreign_in(
                &old(self).git.settings(),
                org@,
                repo@,
                listed_worktrees(listed),
            ),
            final(self).state@ == with_foreign(
                old(self).state@,
                (org@, repo@),
                directories(r@),
                now,
            ),
    {
        let ghost cfg = self.git.settings();
        let list = match listed {
            Some(list) => list,
            None => {
                let none: Vec<Checkout> = Vec::new();
                assert(checkouts(none@) =~= Seq::empty());
                none
            },
        };
        let ghost all = checkouts(list@);
        let mut map: NameMap<FsPath> = NameMap::new();
        let mut i: usize = 0;
        proof {
            assert(all.take(0) =~= Seq::empty());
            assert(directories(map@) =~= Map::empty());
        }
        while i < list.len()
            invariant
                i <= list@.len(),
                all == checkouts(list@),
                cfg == self.git.settings(),
                map.wf(),
                directories(map@) == foreign_in(&cfg, org@, repo@, all.take(i as int)),
            decreases list@.len() - i,
        {
            proof {
                assert(all.take(i + 1).drop_last() =~= all.take(i as int));
                assert(all.take(i + 1).last() == list@[i as int]@);
            }
            let own = self.git.config().worktree_path(org, repo, list[i].branch.as_str());
            if !list[i].path.same_path(&own) {
                let ghost before = map@;
                let path = list[i].path.clone();
                let ghost p = path@;
                map.insert(list[i].branch.clone(), path);
                assert(directories(map@) =~= directories(before).insert(list@[i as int].branch@, p));
            }
            i = i + 1;
        }
        assert(all.take(all.len() as int) =~= all);
        self.state.put_foreign(org, repo, copy_directories(&map), now);
        map
    }

    /// The default branch of a repository, where it is known already.
    pub fn default_branch_for(&self, org: &str, repo: &str) -> (r: Option<String>)
        requires
            self.state.wf(),
        ensures
            match r {
                Some(name) => self.state@.default_branches.contains_key((org@, repo@)) && name@
                    == self.state@.default_branches[(org@, repo@)],
                None => !self.state@.default_branches.contains_key((org@, repo@)),
            },
    {
        self.state.default_branch(org, repo)
    }

    /// Remembers the default branch of a repository for as long as the server
    /// runs.
    pub fn default_branch_learned(&mut self, org: &str, repo: &str, name: &str)
        requires
            old(self).state.wf(),
        ensures
            only_state_differs(old(self), final(self)),
            final(self).state@ == (StateView {
                default_branches: old(self).state@.default_branches.insert((org@, repo@), name@),
                ..old(self).state@
            }),
    {
        self.state.put_default_branch(org, repo, name);
    }

    /// Whether the worktree around a node is due for a refresh. Called when a
    /// worktree is accessed; `id` may be any node inside it.
    pub fn maybe_refresh_worktree(&mut self, id: u64, now: u128) -> (r: Option<RefreshTask>)
        requires
            old(self).state.wf(),
        ensures
            only_state_differs(old(self), final(self)),
            final(self).state@ == refresh_due(
                &old(self).git.settings(),
                old(self).state@,
                id,
                now,
            ).0,
            match (
                r,
                refresh_due(&old(self).git.settings(), old(self).state@, id, now).1,
            ) {
                (Some(task), Some(want)) => task@ == want,
                (None, None) => true,
                _ => false,
            },
    {
        let root: u64 = match self.state.worktree_root(id) {
            Some(root) => root,
            None => {
                return None;
            },
        };
        match self.state.refreshed_at(root) {
            Some(when) => {
                if fresh(when, now, self.git.config().branch_ttl) {
                    return None;
                }
            },
            None => {},
        }
        self.state.note_refresh(root, now);
        match self.state.refs_context(root) {
            Some(c) => {
                proof {
                    reveal_strlit("/");
                }
                let branch = join_all(c.segs.as_slice(), "/");
                Some(RefreshTask { org: c.org, repo: c.repo, branch })
            },
            None => None,
        }
    }
}

/// A listing that was just fetched is used without asking the remote, for as
/// long as it is fresh, and so is the absence of a repository.
pub proof fn law_answers_are_cached(
    cfg: &Config,
    state: StateView,
    key: (Seq<char>, Seq<char>),
    remote: Option<Seq<Seq<char>>>,
    local: Option<Seq<Seq<char>>>,
    now: u128,
    wall: NfsTime,
    later: u128,
)
    requires
        remote is Some || !state.tries.contains_key(key),
    ensures
        ({
            let (after, result) = learned(state, key, remote, local, now, wall);
            match result {
                Ok(branches) => is_fresh(now, later, cfg.branch_ttl) ==> cached_answer(
                    cfg,
                    after,
                    key,
                    later,
                ) == TrieAnswerView::Known(Ok(branches)),
                Err(status) => is_fresh(now, later, cfg.negative_ttl) ==> cached_answer(
                    cfg,
                    after,
                    key,
                    later,
                ) == TrieAnswerView::Known(Err(status)),
            }
        }),
{
}

/// Once a repository's branches are known, losing the remote changes nothing:
/// the old listing is served and nothing else is touched.
pub proof fn law_stale_listing_beats_error(
    state: StateView,
    key: (Seq<char>, Seq<char>),
    local: Option<Seq<Seq<char>>>,
    now: u128,
    wall: NfsTime,
)
    requires
        state.tries.contains_key(key),
    ensures
        learned(state, key, None, local, now, wall) == (
            state,
            Ok::<Set<Seq<Seq<char>>>, Status>(state.tries[key].branches),
        ),
{
}

/// Clients are told to drop their listings only when the branches changed:
/// the same answer again leaves the tree as it is.
pub proof fn law_unchanged_listing_touches_nothing(
    state: StateView,
    key: (Seq<char>, Seq<char>),
    names: Seq<Seq<char>>,
    now: u128,
    wall: NfsTime,
    later: u128,
    wall_later: NfsTime,
)
    ensures
        ({
            let once = learned(state, key, Some(names), None, now, wall).0;
            learned(once, key, Some(names), None, later, wall_later).0.tree == once.tree
        }),
{
}

/// When the branches changed, or are learned for the first time, every virtual
/// directory in the `refs` subtree of the repository takes on the time of the
/// change, and every other node stays as it is.
pub proof fn law_changed_listing_dates_the_refs(
    state: StateView,
    key: (Seq<char>, Seq<char>),
    names: Seq<Seq<char>>,
    now: u128,
    wall: NfsTime,
    id: u64,
)
    requires
        state.tries.contains_key(key) ==> state.tries[key].branches != branch_set(names),
        state.tree.nodes.contains_key(id),
    ensures
        ({
            let after = learned(state, key, Some(names), None, now, wall).0.tree;
            &&& after.nodes.contains_key(id)
            &&& after.nodes[id] == if state.tree.in_refs(id, key.0, key.1) {
                NodeView { mtime: wall, ..state.tree.nodes[id] }
            } else {
                state.tree.nodes[id]
            }
        }),
{
}

/// What is learned about one repository leaves all others alone.
pub proof fn law_repositories_are_apart(
    cfg: &Config,
    state: StateView,
    key: (Seq<char>, Seq<char>),
    other: (Seq<char>, Seq<char>),
    remote: Option<Seq<Seq<char>>>,
    local: Option<Seq<Seq<char>>>,
    now: u128,
    wall: NfsTime,
    later: u128,
)
    requires
        key != other,
    ensures
        cached_answer(
            cfg,
            learned(state, key, remote, local, now, wall).0,
            other,
            later,
        ) == cached_answer(cfg, state, other, later),
{
}

/// A worktree is refreshed at most once in a while: right after a refresh was
/// noted, none is due until the time is up.
pub proof fn law_refresh_is_throttled(
    cfg: &Config,
    state: StateView,
    id: u64,
    now: u128,
    later: u128,
)
    requires
        refresh_due(cfg, state, id, now).1 is Some,
        is_fresh(now, later, cfg.branch_ttl),
    ensures
        refresh_due(cfg, refresh_due(cfg, state, id, now).0, id, later) == (
            refresh_due(cfg, state, id, now).0,
            None::<RefreshView>,
        ),
{
}

/// A worktree that stands where the cache keeps it is never foreign.
pub proof fn law_own_worktrees_are_not_foreign(
    cfg: &Config,
    org: Seq<char>,
    repo: Seq<char>,
    list: Seq<(Seq<char>, Seq<u8>)>,
    branch: Seq<char>,
)
    ensures
        foreign_in(cfg, org, repo, list).contains_key(branch) ==> {
            &&& list.contains((branch, foreign_in(cfg, org, repo, list)[branch]))
            &&& components(foreign_in(cfg, org, repo, list)[branch]) != components(
                cfg.worktree(org, repo, branch),
            )
        },
    decreases list.len(),
{
    if list.len() > 0 {
        let shorter = list.drop_last();
        law_own_worktrees_are_not_foreign(cfg, org, repo, shorter, branch);
        assert(list.contains(list[list.len() - 1]));
        assert forall|x: (Seq<char>, Seq<u8>)| shorter.contains(x) implies list.contains(x) by {
            let i = choose|i: int| 0 <= i < shorter.len() && shorter[i] == x;
            assert(list[i] == x);
        }
    }
}

} // verus!
