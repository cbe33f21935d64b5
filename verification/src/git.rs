//! Git operations backing the virtual filesystem.
//!
//! Every operation is a function of the replies to the actions it has asked
//! for so far; whoever runs it performs the action asked for, adds the reply
//! and calls again, until the operation is done.

use crate::action::{
    as_repo_not_found, failure, failure_of, flows, git_args, goes_on, lemma_script_run, may, must,
    output_of, replies_view, repo_not_found, run_script, script_run, script_view, ActionView, Flow,
    FlowView, GitAction, GitError, GitErrorView, OnFailure, OnFailureView, Reply, ReplyView, ScriptEnd,
    ScriptEndView, ScriptStep, StepView,
};
use crate::config::Config;
use crate::fspath::{path_join, path_parent, FsPath};
use crate::porcelain::{
    checkouts, default_branch_in, heads_in, parse_default_branch, parse_heads, parse_tracked_heads,
    parse_worktrees, tracked_heads_in, worktrees_in, Checkout,
};
use crate::text::{lossy, strings, texts, utf8};
use vstd::prelude::*;
use vstd::string::*;

verus! {

/// The git side of the cache of one host.
#[derive(Debug)]
pub struct GitCache {
    cfg: Config,
}

/// A run of git outside any repository.
pub open spec fn run_anywhere(args: Seq<Seq<char>>) -> ActionView {
    ActionView::Run { cwd: None, args }
}

/// A run of git in a directory.
pub open spec fn run_in(dir: Seq<u8>, args: Seq<Seq<char>>) -> ActionView {
    ActionView::Run { cwd: Some(dir), args }
}

/// An operation that runs git once and reads its output.
pub open spec fn run_once<V>(
    action: ActionView,
    replies: Seq<ReplyView>,
    read: spec_fn(Seq<char>) -> V,
) -> FlowView<V> {
    if replies.len() == 0 {
        FlowView::Ask(action)
    } else {
        match output_of(replies[0]) {
            Some(text) => FlowView::Done(Ok(read(text)), 1),
            None => FlowView::Done(Err(failure(action, replies[0])), 1),
        }
    }
}

fn run_one(action: GitAction, replies: &[Reply], from: usize) -> (r: Flow<String>)
    requires
        from <= replies@.len(),
    ensures
        flows(
            r,
            run_once(action@, replies_view(replies@).skip(from as int), |text: Seq<char>| text),
            |text: String| text@,
        ),
{
    if from == replies.len() {
        return Flow::Ask(action);
    }
    assert(replies_view(replies@).skip(from as int)[0] == replies@[from as int]@);
    match replies[from].output() {
        Some(text) => Flow::Done(Ok(text), 1),
        None => Flow::Done(Err(failure_of(action, &replies[from])), 1),
    }
}

/// The reply at `at`, as part of the replies from `from` on.
pub proof fn lemma_heard(replies: Seq<Reply>, from: int, at: int)
    requires
        0 <= from <= at,
        at < replies.len(),
    ensures
        replies_view(replies).skip(from)[at - from] == replies[at]@,
{
}

pub proof fn lemma_skip_skip(s: Seq<ReplyView>, a: int, b: int)
    requires
        0 <= a,
        0 <= b,
        a + b <= s.len(),
    ensures
        s.skip(a).skip(b) == s.skip(a + b),
{
    assert(s.skip(a).skip(b) =~= s.skip(a + b));
}

/// The marker file of a cloned repository.
pub open spec fn head_file(bare: Seq<u8>) -> Seq<u8> {
    path_join(bare, utf8("HEAD"@))
}

/// The marker file of a checked out worktree.
pub open spec fn git_file(worktree: Seq<u8>) -> Seq<u8> {
    path_join(worktree, utf8(".git"@))
}

/// The clone goes here first, so that an interrupted one never stands at the
/// final path.
pub open spec fn partial_clone(bare: Seq<u8>, repo: Seq<char>) -> Seq<u8> {
    if repo.len() == 0 || repo.last() == '/' {
        bare + utf8(".git.partial"@)
    } else {
        bare + utf8(".partial"@)
    }
}

/// The step that creates the directory above a path, where it has one.
pub open spec fn parent_steps(path: Seq<u8>) -> Seq<StepView> {
    match path_parent(path) {
        Some(dir) => seq![must(ActionView::CreateDirs(dir))],
        None => seq![],
    }
}

/// Dropping stale bookkeeping of worktrees that are gone.
pub open spec fn prune_action(bare: Seq<u8>) -> ActionView {
    run_in(bare, seq!["worktree"@, "prune"@])
}

/// Fetching the latest refs.
pub open spec fn fetch_action(bare: Seq<u8>) -> ActionView {
    run_in(bare, seq!["fetch"@, "--no-tags"@, "origin"@])
}

/// Fetching the latest refs and forgetting those that are gone.
pub open spec fn fetch_prune_action(bare: Seq<u8>) -> ActionView {
    run_in(bare, seq!["fetch"@, "--prune"@, "--no-tags"@, "origin"@])
}

/// The script that makes a bare, blob-less partial clone: into a temporary
/// directory, with remote-tracking refs, then moved into place.
pub open spec fn clone_script(cfg: &Config, org: Seq<char>, repo: Seq<char>) -> Seq<StepView> {
    let bare = cfg.bare_repo(org, repo);
    let tmp = partial_clone(bare, repo);
    parent_steps(bare) + seq![
        may(ActionView::RemoveTree(tmp)),
        StepView {
            action: run_anywhere(
                seq![
                    "clone"@,
                    "--bare"@,
                    "--filter=blob:none"@,
                    "--no-tags"@,
                    cfg.url(org, repo),
                    lossy(tmp),
                ],
            ),
            on_failure: OnFailureView::RepoMissing(org + "/"@ + repo),
        },
        must(
            run_in(
                tmp,
                seq!["config"@, "remote.origin.fetch"@, "+refs/heads/*:refs/remotes/origin/*"@],
            ),
        ),
        must(fetch_action(tmp)),
        must(ActionView::Rename { from: tmp, to: bare }),
    ]
}

/// Where an operation stands that runs a script and then has its result.
pub open spec fn after_script<V>(
    script: Seq<StepView>,
    replies: Seq<ReplyView>,
    before: nat,
    value: V,
) -> FlowView<V> {
    match script_run(script, replies.skip(before as int)) {
        ScriptEndView::Ask(action) => FlowView::Ask(action),
        ScriptEndView::Stopped(e) => FlowView::Done(Err(e), 0),
        ScriptEndView::Finished => FlowView::Done(Ok(value), before + script.len()),
    }
}

/// [`GitCache::ensure_bare`]: nothing is done for a repository that is there;
/// otherwise it is cloned.
pub open spec fn ensure_bare_flow(
    cfg: &Config,
    org: Seq<char>,
    repo: Seq<char>,
    replies: Seq<ReplyView>,
) -> FlowView<Seq<u8>> {
    let bare = cfg.bare_repo(org, repo);
    if replies.len() == 0 {
        FlowView::Ask(ActionView::Exists(head_file(bare)))
    } else if replies[0] is Success {
        FlowView::Done(Ok(bare), 1)
    } else {
        after_script(clone_script(cfg, org, repo), replies, 1, bare)
    }
}

/// An operation that needs the bare repository first and then runs a script.
pub open spec fn with_bare<V>(
    cfg: &Config,
    org: Seq<char>,
    repo: Seq<char>,
    script: Seq<StepView>,
    replies: Seq<ReplyView>,
    before: nat,
    value: V,
) -> FlowView<V> {
    match ensure_bare_flow(cfg, org, repo, replies.skip(before as int)) {
        FlowView::Ask(action) => FlowView::Ask(action),
        FlowView::Done(Err(e), used) => FlowView::Done(Err(e), 0),
        FlowView::Done(Ok(bare), used) => after_script(script, replies, before + used, value),
    }
}

/// [`GitCache::fetch`].
pub open spec fn fetch_flow(
    cfg: &Config,
    org: Seq<char>,
    repo: Seq<char>,
    replies: Seq<ReplyView>,
) -> FlowView<()> {
    with_bare(cfg, org, repo, seq![must(fetch_action(cfg.bare_repo(org, repo)))], replies, 0, ())
}

/// The script that checks out a branch of the remote, on a local branch that
/// tracks it.
pub open spec fn checkout_script(
    cfg: &Config,
    org: Seq<char>,
    repo: Seq<char>,
    branch: Seq<char>,
) -> Seq<StepView> {
    let bare = cfg.bare_repo(org, repo);
    let wt = cfg.worktree(org, repo, branch);
    seq![may(prune_action(bare))] + parent_steps(wt) + seq![
        StepView {
            action: run_in(
                bare,
                seq![
                    "worktree"@,
                    "add"@,
                    "--track"@,
                    "-B"@,
                    branch,
                    lossy(wt),
                    "origin/"@ + branch,
                ],
            ),
            on_failure: OnFailureView::BranchMissing(org + "/"@ + repo + "@"@ + branch),
        },
    ]
}

/// [`GitCache::ensure_worktree`]: nothing is done for a worktree that is
/// there; otherwise the repository is cloned where needed and the branch
/// checked out.
pub open spec fn ensure_worktree_flow(
    cfg: &Config,
    org: Seq<char>,
    repo: Seq<char>,
    branch: Seq<char>,
    replies: Seq<ReplyView>,
) -> FlowView<Seq<u8>> {
    let wt = cfg.worktree(org, repo, branch);
    if replies.len() == 0 {
        FlowView::Ask(ActionView::Exists(git_file(wt)))
    } else if replies[0] is Success {
        FlowView::Done(Ok(wt), 1)
    } else {
        with_bare(cfg, org, repo, checkout_script(cfg, org, repo, branch), replies, 1, wt)
    }
}

/// The script that forks a new branch off a branch of the remote, in a
/// worktree of its own, and prepares it to be pushed under its own name.
pub open spec fn fork_script(
    cfg: &Config,
    org: Seq<char>,
    repo: Seq<char>,
    branch: Seq<char>,
    base: Seq<char>,
) -> Seq<StepView> {
    let bare = cfg.bare_repo(org, repo);
    let wt = cfg.worktree(org, repo, branch);
    seq![may(prune_action(bare))] + parent_steps(wt) + seq![
        must(
            run_in(
                bare,
                seq![
                    "worktree"@,
                    "add"@,
                    "--no-track"@,
                    "-b"@,
                    branch,
                    lossy(wt),
                    "origin/"@ + base,
                ],
            ),
        ),
        must(run_in(bare, seq!["config"@, "branch."@ + branch + ".remote"@, "origin"@])),
        must(
            run_in(
                bare,
                seq!["config"@, "branch."@ + branch + ".merge"@, "refs/heads/"@ + branch],
            ),
        ),
    ]
}

/// [`GitCache::create_branch_worktree`].
pub open spec fn create_branch_flow(
    cfg: &Config,
    org: Seq<char>,
    repo: Seq<char>,
    branch: Seq<char>,
    base: Seq<char>,
    replies: Seq<ReplyView>,
) -> FlowView<Seq<u8>> {
    with_bare(
        cfg,
        org,
        repo,
        fork_script(cfg, org, repo, branch, base),
        replies,
        0,
        cfg.worktree(org, repo, branch),
    )
}

/// [`GitCache::ls_remote_heads`]: a remote that rejects the repository is
/// reported as a missing repository.
pub open spec fn ls_remote_flow(
    cfg: &Config,
    org: Seq<char>,
    repo: Seq<char>,
    replies: Seq<ReplyView>,
) -> FlowView<Seq<Seq<char>>> {
    let listing = run_once(
        run_anywhere(seq!["ls-remote"@, "--heads"@, cfg.url(org, repo)]),
        replies,
        |out: Seq<char>| heads_in(out),
    );
    match listing {
        FlowView::Done(Err(e), used) => FlowView::Done(
            Err(repo_not_found(e, org + "/"@ + repo)),
            used,
        ),
        _ => listing,
    }
}

/// [`GitCache::default_branch`].
pub open spec fn default_branch_flow(
    cfg: &Config,
    org: Seq<char>,
    repo: Seq<char>,
    replies: Seq<ReplyView>,
) -> FlowView<Seq<char>> {
    run_once(
        run_anywhere(seq!["ls-remote"@, "--symref"@, cfg.url(org, repo), "HEAD"@]),
        replies,
        |out: Seq<char>| default_branch_in(out),
    )
}

/// [`GitCache::local_heads`]: the branches that the bare repository last
/// fetched.
pub open spec fn local_heads_flow(
    cfg: &Config,
    org: Seq<char>,
    repo: Seq<char>,
    replies: Seq<ReplyView>,
) -> FlowView<Seq<Seq<char>>> {
    let bare = cfg.bare_repo(org, repo);
    if replies.len() == 0 {
        FlowView::Ask(ActionView::Exists(head_file(bare)))
    } else if replies[0] !is Success {
        FlowView::Done(Err(GitErrorView::RepoNotFound(org + "/"@ + repo)), 1)
    } else {
        let rest = run_once(
            run_in(bare, seq!["for-each-ref"@, "--format=%(refname)"@, "refs/remotes/origin/"@]),
            replies.skip(1),
            |out: Seq<char>| tracked_heads_in(out),
        );
        match rest {
            FlowView::Ask(action) => FlowView::Ask(action),
            FlowView::Done(result, used) => FlowView::Done(result, used + 1),
        }
    }
}

/// The branches of a repository, as far as they could be found out: what the
/// remote says, and where it says nothing, what was last fetched from it.
#[derive(Debug)]
pub struct KnownHeads {
    pub remote: Result<Vec<String>, GitError>,
    pub local: Option<Vec<String>>,
}

/// What a [`KnownHeads`] says.
pub struct KnownHeadsView {
    pub remote: Result<Seq<Seq<char>>, GitErrorView>,
    pub local: Option<Seq<Seq<char>>>,
}

impl View for KnownHeads {
    type V = KnownHeadsView;

    open spec fn view(&self) -> KnownHeadsView {
        KnownHeadsView {
            remote: match self.remote {
                Ok(names) => Ok(strings(names@)),
                Err(e) => Err(e@),
            },
            local: match self.local {
                Some(names) => Some(strings(names@)),
                None => None,
            },
        }
    }
}

/// [`GitCache::known_heads`]: the branches that were last fetched are looked up
/// only where the remote did not list its own, and may be unknown.
pub open spec fn known_heads_flow(
    cfg: &Config,
    org: Seq<char>,
    repo: Seq<char>,
    replies: Seq<ReplyView>,
) -> FlowView<KnownHeadsView> {
    match ls_remote_flow(cfg, org, repo, replies) {
        FlowView::Ask(action) => FlowView::Ask(action),
        FlowView::Done(Ok(names), used) => FlowView::Done(
            Ok(KnownHeadsView { remote: Ok(names), local: None }),
            used,
        ),
        FlowView::Done(Err(e), used) => match local_heads_flow(
            cfg,
            org,
            repo,
            replies.skip(used as int),
        ) {
            FlowView::Ask(action) => FlowView::Ask(action),
            FlowView::Done(result, more) => FlowView::Done(
                Ok(
                    KnownHeadsView {
                        remote: Err(e),
                        local: match result {
                            Ok(names) => Some(names),
                            Err(_) => None,
                        },
                    },
                ),
                used + more,
            ),
        },
    }
}

/// [`GitCache::list_worktrees`]: a repository that is not there has none.
pub open spec fn list_worktrees_flow(
    cfg: &Config,
    org: Seq<char>,
    repo: Seq<char>,
    replies: Seq<ReplyView>,
) -> FlowView<Seq<(Seq<char>, Seq<u8>)>> {
    let bare = cfg.bare_repo(org, repo);
    if replies.len() == 0 {
        FlowView::Ask(ActionView::Exists(head_file(bare)))
    } else if replies[0] !is Success {
        FlowView::Done(Ok(seq![]), 1)
    } else {
        let rest = run_once(
            run_in(bare, seq!["worktree"@, "list"@, "--porcelain"@]),
            replies.skip(1),
            |out: Seq<char>| worktrees_in(out),
        );
        match rest {
            FlowView::Ask(action) => FlowView::Ask(action),
            FlowView::Done(result, used) => FlowView::Done(result, used + 1),
        }
    }
}

impl GitCache {
    /// The configuration in use.
    pub closed spec fn settings(&self) -> Config {
        self.cfg
    }

    /// A cache laid out and reached as `cfg` says.
    pub fn new(cfg: Config) -> (r: GitCache)
        ensures
            r.settings() == cfg,
    {
        GitCache { cfg }
    }

    /// The configuration in use.
    pub fn config(&self) -> (r: &Config)
        ensures
            *r == self.settings(),
    {
        &self.cfg
    }

    /// Lists remote branch names (without the `refs/heads/` prefix). The error
    /// is `RepoNotFound` if the remote rejects the repository.
    pub fn ls_remote_heads(&self, org: &str, repo: &str, replies: &[Reply]) -> (r: Flow<Vec<String>>)
        ensures
            flows(
                r,
                ls_remote_flow(&self.settings(), org@, repo@, replies_view(replies@)),
                |names: Vec<String>| strings(names@),
            ),
    {
        let url = self.cfg.remote_url(org, repo);
        let list = vec!["ls-remote", "--heads", url.as_str()];
        assert(texts(list@) =~= seq!["ls-remote"@, "--heads"@, self.cfg.url(org@, repo@)]);
        assert(replies_view(replies@).skip(0) =~= replies_view(replies@));
        match run_one(GitAction::Run { cwd: None, args: git_args(list) }, replies, 0) {
            Flow::Ask(action) => Flow::Ask(action),
            Flow::Done(Ok(out), used) => Flow::Done(Ok(parse_heads(out.as_str())), used),
            Flow::Done(Err(e), used) => Flow::Done(
                Err(self.map_not_found(e, repo_title(org, repo))),
                used,
            ),
        }
    }

    /// The remote's default branch (symref target of HEAD), such as `main`.
    pub fn default_branch(&self, org: &str, repo: &str, replies: &[Reply]) -> (r: Flow<String>)
        ensures
            flows(
                r,
                default_branch_flow(&self.settings(), org@, repo@, replies_view(replies@)),
                |name: String| name@,
            ),
    {
        let url = self.cfg.remote_url(org, repo);
        let list = vec!["ls-remote", "--symref", url.as_str(), "HEAD"];
        assert(texts(list@) =~= seq!["ls-remote"@, "--symref"@, self.cfg.url(org@, repo@), "HEAD"@]);
        assert(replies_view(replies@).skip(0) =~= replies_view(replies@));
        match run_one(GitAction::Run { cwd: None, args: git_args(list) }, replies, 0) {
            Flow::Ask(action) => Flow::Ask(action),
            Flow::Done(Ok(out), used) => Flow::Done(Ok(parse_default_branch(out.as_str())), used),
            Flow::Done(Err(e), used) => Flow::Done(Err(e), used),
        }
    }

    /// Whether the remote acknowledges the repository. `ls-remote` errors
    /// don't always say "not found"; any failure counts as absence.
    pub fn repo_exists(&self, org: &str, repo: &str, replies: &[Reply]) -> (r: Flow<bool>)
        ensures
            flows(
                r,
                match ls_remote_flow(&self.settings(), org@, repo@, replies_view(replies@)) {
                    FlowView::Ask(action) => FlowView::Ask(action),
                    FlowView::Done(result, used) => FlowView::Done(Ok(result is Ok), used),
                },
                |there: bool| there,
            ),
    {
        match self.ls_remote_heads(org, repo, replies) {
            Flow::Ask(action) => Flow::Ask(action),
            Flow::Done(Ok(_), used) => Flow::Done(Ok(true), used),
            Flow::Done(Err(_), used) => Flow::Done(Ok(false), used),
        }
    }

    /// Turns a complaint of git that means a missing repository into that.
    pub fn map_not_found(&self, e: GitError, what: String) -> (r: GitError)
        ensures
            r@ == repo_not_found(e@, what@),
    {
        as_repo_not_found(e, what)
    }

    fn head_of(bare: &FsPath) -> (r: FsPath)
        ensures
            r@ == head_file(bare@),
    {
        bare.join("HEAD")
    }

    fn local_heads_from(&self, org: &str, repo: &str, replies: &[Reply], from: usize) -> (r: Flow<
        Vec<String>,
    >)
        requires
            from <= replies@.len(),
        ensures
            flows(
                r,
                local_heads_flow(
                    &self.settings(),
                    org@,
                    repo@,
                    replies_view(replies@).skip(from as int),
                ),
                |names: Vec<String>| strings(names@),
            ),
            r matches Flow::Done(_, used) ==> from + used <= replies@.len(),
    {
        let bare = self.cfg.bare_repo_path(org, repo);
        if from == replies.len() {
            return Flow::Ask(GitAction::Exists(Self::head_of(&bare)));
        }
        proof {
            lemma_heard(replies@, from as int, from as int);
            lemma_skip_skip(replies_view(replies@), from as int, 1);
        }
        if !replies[from].worked() {
            return Flow::Done(Err(GitError::RepoNotFound(repo_title(org, repo))), 1);
        }
        let list = vec!["for-each-ref", "--format=%(refname)", "refs/remotes/origin/"];
        assert(texts(list@) =~= seq![
            "for-each-ref"@,
            "--format=%(refname)"@,
            "refs/remotes/origin/"@,
        ]);
        match run_one(GitAction::Run { cwd: Some(bare), args: git_args(list) }, replies, from + 1) {
            Flow::Ask(action) => Flow::Ask(action),
            Flow::Done(Ok(out), used) => Flow::Done(Ok(parse_tracked_heads(out.as_str())), 2),
            Flow::Done(Err(e), used) => Flow::Done(Err(e), 2),
        }
    }

    /// The branches that the bare repository last fetched.
    pub fn local_heads(&self, org: &str, repo: &str, replies: &[Reply]) -> (r: Flow<Vec<String>>)
        ensures
            flows(
                r,
                local_heads_flow(&self.settings(), org@, repo@, replies_view(replies@)),
                |names: Vec<String>| strings(names@),
            ),
    {
        assert(replies_view(replies@).skip(0) =~= replies_view(replies@));
        self.local_heads_from(org, repo, replies, 0)
    }

    /// The branches of a repository, as far as they can be found out.
    pub fn known_heads(&self, org: &str, repo: &str, replies: &[Reply]) -> (r: Flow<KnownHeads>)
        ensures
            flows(
                r,
                known_heads_flow(&self.settings(), org@, repo@, replies_view(replies@)),
                |heads: KnownHeads| heads@,
            ),
    {
        let total = replies.len();
        assert(total == replies@.len());
        match self.ls_remote_heads(org, repo, replies) {
            Flow::Ask(action) => Flow::Ask(action),
            Flow::Done(Ok(names), used) => Flow::Done(
                Ok(KnownHeads { remote: Ok(names), local: None }),
                used,
            ),
            Flow::Done(Err(e), used) => match self.local_heads_from(org, repo, replies, used) {
                Flow::Ask(action) => Flow::Ask(action),
                Flow::Done(result, more) => Flow::Done(
                    Ok(
                        KnownHeads {
                            remote: Err(e),
                            local: match result {
                                Ok(names) => Some(names),
                                Err(_) => None,
                            },
                        },
                    ),
                    used + more,
                ),
            },
        }
    }

    pub(crate) fn list_worktrees_from(
        &self,
        org: &str,
        repo: &str,
        replies: &[Reply],
        from: usize,
    ) -> (r: Flow<Vec<Checkout>>)
        requires
            from <= replies@.len(),
        ensures
            flows(
                r,
                list_worktrees_flow(
                    &self.settings(),
                    org@,
                    repo@,
                    replies_view(replies@).skip(from as int),
                ),
                |list: Vec<Checkout>| checkouts(list@),
            ),
            r matches Flow::Done(_, used) ==> from + used <= replies@.len(),
    {
        let bare = self.cfg.bare_repo_path(org, repo);
        if from == replies.len() {
            return Flow::Ask(GitAction::Exists(Self::head_of(&bare)));
        }
        proof {
            lemma_heard(replies@, from as int, from as int);
            lemma_skip_skip(replies_view(replies@), from as int, 1);
        }
        if !replies[from].worked() {
            let none: Vec<Checkout> = Vec::new();
            assert(checkouts(none@) =~= seq![]);
            return Flow::Done(Ok(none), 1);
        }
        let list = vec!["worktree", "list", "--porcelain"];
        assert(texts(list@) =~= seq!["worktree"@, "list"@, "--porcelain"@]);
        match run_one(GitAction::Run { cwd: Some(bare), args: git_args(list) }, replies, from + 1) {
            Flow::Ask(action) => Flow::Ask(action),
            Flow::Done(Ok(out), used) => Flow::Done(Ok(parse_worktrees(out.as_str())), 2),
            Flow::Done(Err(e), used) => Flow::Done(Err(e), 2),
        }
    }

    /// All registered worktrees of a repository: ours and foreign ones that
    /// were added elsewhere. The bare entry and detached checkouts are
    /// skipped.
    pub fn list_worktrees(&self, org: &str, repo: &str, replies: &[Reply]) -> (r: Flow<Vec<Checkout>>)
        ensures
            flows(
                r,
                list_worktrees_flow(&self.settings(), org@, repo@, replies_view(replies@)),
                |list: Vec<Checkout>| checkouts(list@),
            ),
    {
        assert(replies_view(replies@).skip(0) =~= replies_view(replies@));
        self.list_worktrees_from(org, repo, replies, 0)
    }
}

/// A repository as messages name it.
fn repo_title(org: &str, repo: &str) -> (r: String)
    ensures
        r@ == org@ + "/"@ + repo@,
{
    let mut title = org.to_owned();
    title.append("/");
    title.append(repo);
    title
}

/// A branch as messages name it.
fn branch_title(org: &str, repo: &str, branch: &str) -> (r: String)
    ensures
        r@ == org@ + "/"@ + repo@ + "@"@ + branch@,
{
    let mut title = repo_title(org, repo);
    title.append("@");
    title.append(branch);
    title
}

/// `head` with `tail` behind it.
pub(crate) fn glue(head: &str, tail: &str) -> (r: String)
    ensures
        r@ == head@ + tail@,
{
    let mut s = head.to_owned();
    s.append(tail);
    s
}

fn must_do(action: GitAction) -> (r: ScriptStep)
    ensures
        r@ == must(action@),
{
    ScriptStep { action, on_failure: OnFailure::Abort }
}

pub(crate) fn may_do(action: GitAction) -> (r: ScriptStep)
    ensures
        r@ == may(action@),
{
    ScriptStep { action, on_failure: OnFailure::Ignore }
}

pub(crate) fn run_there(dir: &FsPath, list: Vec<&str>) -> (r: GitAction)
    ensures
        r@ == run_in(dir@, texts(list@)),
{
    GitAction::Run { cwd: Some(dir.clone()), args: git_args(list) }
}

fn fetch_there(dir: &FsPath) -> (r: GitAction)
    ensures
        r@ == fetch_action(dir@),
{
    let list = vec!["fetch", "--no-tags", "origin"];
    assert(texts(list@) =~= seq!["fetch"@, "--no-tags"@, "origin"@]);
    run_there(dir, list)
}

pub(crate) fn fetch_prune_there(dir: &FsPath) -> (r: GitAction)
    ensures
        r@ == fetch_prune_action(dir@),
{
    let list = vec!["fetch", "--prune", "--no-tags", "origin"];
    assert(texts(list@) =~= seq!["fetch"@, "--prune"@, "--no-tags"@, "origin"@]);
    run_there(dir, list)
}

pub(crate) fn prune_there(dir: &FsPath) -> (r: GitAction)
    ensures
        r@ == prune_action(dir@),
{
    let list = vec!["worktree", "prune"];
    assert(texts(list@) =~= seq!["worktree"@, "prune"@]);
    run_there(dir, list)
}

/// Adds the step that creates the directory above `path`.
fn add_parent_step(script: &mut Vec<ScriptStep>, path: &FsPath)
    ensures
        script_view(final(script)@) == script_view(old(script)@) + parent_steps(path@),
{
    match path.parent() {
        Some(dir) => {
            script.push(must_do(GitAction::CreateDirs(dir)));
            assert(script_view(script@) =~= script_view(old(script)@) + parent_steps(path@));
        },
        None => {
            assert(script_view(script@) =~= script_view(old(script)@) + parent_steps(path@));
        },
    }
}

/// Adds a step.
pub(crate) fn add_step(script: &mut Vec<ScriptStep>, step: ScriptStep)
    ensures
        script_view(final(script)@) == script_view(old(script)@).push(step@),
{
    script.push(step);
    assert(script_view(script@) =~= script_view(old(script)@).push(step@));
}

impl GitCache {
    fn partial_path(bare: &FsPath, repo: &str) -> (r: FsPath)
        ensures
            r@ == partial_clone(bare@, repo@),
    {
        proof {
            reveal_strlit("/");
            assert("/"@ =~= seq!['/']);
            if repo@.len() > 0 && repo@.last() == '/' {
                assert("/"@ =~= repo@.subrange(repo@.len() - 1, repo@.len() as int));
            }
        }
        if repo.is_empty() || crate::text::strip_suffix(repo, "/").is_some() {
            bare.append(".git.partial")
        } else {
            bare.append(".partial")
        }
    }

    fn clone_steps(&self, org: &str, repo: &str) -> (r: Vec<ScriptStep>)
        ensures
            script_view(r@) == clone_script(&self.settings(), org@, repo@),
    {
        let bare = self.cfg.bare_repo_path(org, repo);
        let tmp = Self::partial_path(&bare, repo);
        let url = self.cfg.remote_url(org, repo);
        let target = tmp.to_text();
        let mut script: Vec<ScriptStep> = Vec::new();
        assert(script_view(script@) =~= seq![]);
        add_parent_step(&mut script, &bare);
        add_step(&mut script, may_do(GitAction::RemoveTree(tmp.clone())));
        let list = vec![
            "clone",
            "--bare",
            "--filter=blob:none",
            "--no-tags",
            url.as_str(),
            target.as_str(),
        ];
        assert(texts(list@) =~= seq![
            "clone"@,
            "--bare"@,
            "--filter=blob:none"@,
            "--no-tags"@,
            self.cfg.url(org@, repo@),
            lossy(tmp@),
        ]);
        add_step(
            &mut script,
            ScriptStep {
                action: GitAction::Run { cwd: None, args: git_args(list) },
                on_failure: OnFailure::RepoMissing(repo_title(org, repo)),
            },
        );
        let list = vec!["config", "remote.origin.fetch", "+refs/heads/*:refs/remotes/origin/*"];
        assert(texts(list@) =~= seq![
            "config"@,
            "remote.origin.fetch"@,
            "+refs/heads/*:refs/remotes/origin/*"@,
        ]);
        add_step(&mut script, must_do(run_there(&tmp, list)));
        add_step(&mut script, must_do(fetch_there(&tmp)));
        add_step(&mut script, must_do(GitAction::Rename { from: tmp.clone(), to: bare.clone() }));
        assert(script_view(script@) =~= clone_script(&self.settings(), org@, repo@));
        script
    }

    fn ensure_bare_from(
        &self,
        org: &str,
        repo: &str,
        replies: &[Reply],
        from: usize,
    ) -> (r: Flow<FsPath>)
        requires
            from <= replies@.len(),
        ensures
            flows(
                r,
                ensure_bare_flow(
                    &self.settings(),
                    org@,
                    repo@,
                    replies_view(replies@).skip(from as int),
                ),
                |path: FsPath| path@,
            ),
            r matches Flow::Done(_, used) ==> from + used <= replies@.len(),
    {
        let bare = self.cfg.bare_repo_path(org, repo);
        if from == replies.len() {
            return Flow::Ask(GitAction::Exists(Self::head_of(&bare)));
        }
        proof {
            lemma_heard(replies@, from as int, from as int);
            lemma_skip_skip(replies_view(replies@), from as int, 1);
        }
        if replies[from].worked() {
            return Flow::Done(Ok(bare), 1);
        }
        let script = self.clone_steps(org, repo);
        let n = script.len();
        assert(script_view(script@).len() == n);
        match run_script(script, replies, from + 1) {
            ScriptEnd::Ask(action) => Flow::Ask(action),
            ScriptEnd::Stopped(e) => Flow::Done(Err(e), 0),
            ScriptEnd::Finished => Flow::Done(Ok(bare), n + 1),
        }
    }

    /// Ensures a bare, blob-less partial clone of `org/repo` exists in the
    /// cache and returns its path. The clone downloads commits and trees
    /// only; blobs stream in later, on demand.
    pub fn ensure_bare(&self, org: &str, repo: &str, replies: &[Reply]) -> (r: Flow<FsPath>)
        ensures
            flows(
                r,
                ensure_bare_flow(&self.settings(), org@, repo@, replies_view(replies@)),
                |path: FsPath| path@,
            ),
    {
        assert(replies_view(replies@).skip(0) =~= replies_view(replies@));
        self.ensure_bare_from(org, repo, replies, 0)
    }

    /// Runs `script` once the bare repository is there; `value` is what the
    /// operation has as its result.
    fn with_bare_from<T: View>(
        &self,
        org: &str,
        repo: &str,
        script: Vec<ScriptStep>,
        replies: &[Reply],
        before: usize,
        value: T,
    ) -> (r: Flow<T>)
        requires
            before <= replies@.len(),
        ensures
            flows(
                r,
                with_bare(
                    &self.settings(),
                    org@,
                    repo@,
                    script_view(script@),
                    replies_view(replies@),
                    before as nat,
                    value@,
                ),
                |v: T| v@,
            ),
    {
        let total = replies.len();
        assert(total == replies@.len());
        let n = script.len();
        assert(script_view(script@).len() == n);
        match self.ensure_bare_from(org, repo, replies, before) {
            Flow::Ask(action) => Flow::Ask(action),
            Flow::Done(Err(e), _) => Flow::Done(Err(e), 0),
            Flow::Done(Ok(_), used) => match run_script(script, replies, before + used) {
                ScriptEnd::Ask(action) => Flow::Ask(action),
                ScriptEnd::Stopped(e) => Flow::Done(Err(e), 0),
                ScriptEnd::Finished => Flow::Done(Ok(value), before + used + n),
            },
        }
    }

    /// Fetches the latest refs, cloning the repository first where needed.
    pub fn fetch(&self, org: &str, repo: &str, replies: &[Reply]) -> (r: Flow<()>)
        ensures
            flows(
                r,
                fetch_flow(&self.settings(), org@, repo@, replies_view(replies@)),
                |nothing: ()| nothing,
            ),
    {
        let bare = self.cfg.bare_repo_path(org, repo);
        let mut script: Vec<ScriptStep> = Vec::new();
        assert(script_view(script@) =~= seq![]);
        add_step(&mut script, must_do(fetch_there(&bare)));
        assert(script_view(script@) =~= seq![must(fetch_action(bare@))]);
        self.with_bare_from(org, repo, script, replies, 0, ())
    }

    fn checkout_steps(&self, org: &str, repo: &str, branch: &str) -> (r: Vec<ScriptStep>)
        ensures
            script_view(r@) == checkout_script(&self.settings(), org@, repo@, branch@),
    {
        let bare = self.cfg.bare_repo_path(org, repo);
        let wt = self.cfg.worktree_path(org, repo, branch);
        let target = wt.to_text();
        let upstream = glue("origin/", branch);
        let mut script: Vec<ScriptStep> = Vec::new();
        assert(script_view(script@) =~= seq![]);
        add_step(&mut script, may_do(prune_there(&bare)));
        add_parent_step(&mut script, &wt);
        let list = vec![
            "worktree",
            "add",
            "--track",
            "-B",
            branch,
            target.as_str(),
            upstream.as_str(),
        ];
        assert(texts(list@) =~= seq![
            "worktree"@,
            "add"@,
            "--track"@,
            "-B"@,
            branch@,
            lossy(wt@),
            "origin/"@ + branch@,
        ]);
        add_step(
            &mut script,
            ScriptStep {
                action: run_there(&bare, list),
                on_failure: OnFailure::BranchMissing(branch_title(org, repo, branch)),
            },
        );
        assert(script_view(script@) =~= checkout_script(&self.settings(), org@, repo@, branch@));
        script
    }

    /// Ensures a worktree for `branch` exists, checked out on a local branch
    /// tracking `origin/<branch>`, and returns its path.
    pub fn ensure_worktree(
        &self,
        org: &str,
        repo: &str,
        branch: &str,
        replies: &[Reply],
    ) -> (r: Flow<FsPath>)
        ensures
            flows(
                r,
                ensure_worktree_flow(
                    &self.settings(),
                    org@,
                    repo@,
                    branch@,
                    replies_view(replies@),
                ),
                |path: FsPath| path@,
            ),
    {
        let wt = self.cfg.worktree_path(org, repo, branch);
        if replies.len() == 0 {
            return Flow::Ask(GitAction::Exists(wt.join(".git")));
        }
        if replies[0].worked() {
            return Flow::Done(Ok(wt), 1);
        }
        let script = self.checkout_steps(org, repo, branch);
        self.with_bare_from(org, repo, script, replies, 1, wt)
    }

    fn fork_steps(&self, org: &str, repo: &str, branch: &str, base: &str) -> (r: Vec<ScriptStep>)
        ensures
            script_view(r@) == fork_script(&self.settings(), org@, repo@, branch@, base@),
    {
        let bare = self.cfg.bare_repo_path(org, repo);
        let wt = self.cfg.worktree_path(org, repo, branch);
        let target = wt.to_text();
        let start = glue("origin/", base);
        let mut script: Vec<ScriptStep> = Vec::new();
        assert(script_view(script@) =~= seq![]);
        add_step(&mut script, may_do(prune_there(&bare)));
        add_parent_step(&mut script, &wt);
        let list = vec![
            "worktree",
            "add",
            "--no-track",
            "-b",
            branch,
            target.as_str(),
            start.as_str(),
        ];
        assert(texts(list@) =~= seq![
            "worktree"@,
            "add"@,
            "--no-track"@,
            "-b"@,
            branch@,
            lossy(wt@),
            "origin/"@ + base@,
        ]);
        add_step(&mut script, must_do(run_there(&bare, list)));
        let mut key = glue("branch.", branch);
        key.append(".remote");
        let list = vec!["config", key.as_str(), "origin"];
        assert(texts(list@) =~= seq!["config"@, "branch."@ + branch@ + ".remote"@, "origin"@]);
        add_step(&mut script, must_do(run_there(&bare, list)));
        let mut key = glue("branch.", branch);
        key.append(".merge");
        let merge = glue("refs/heads/", branch);
        let list = vec!["config", key.as_str(), merge.as_str()];
        assert(texts(list@) =~= seq![
            "config"@,
            "branch."@ + branch@ + ".merge"@,
            "refs/heads/"@ + branch@,
        ]);
        add_step(&mut script, must_do(run_there(&bare, list)));
        assert(script_view(script@) =~= fork_script(
            &self.settings(),
            org@,
            repo@,
            branch@,
            base@,
        ));
        script
    }

    /// Creates a new local branch and worktree forked from `origin/<base>`.
    ///
    /// The branch's upstream is configured to `origin/<branch>`, which does
    /// not exist yet, so that a plain push from inside the worktree creates
    /// the remote branch.
    pub fn create_branch_worktree(
        &self,
        org: &str,
        repo: &str,
        branch: &str,
        base: &str,
        replies: &[Reply],
    ) -> (r: Flow<FsPath>)
        ensures
            flows(
                r,
                create_branch_flow(
                    &self.settings(),
                    org@,
                    repo@,
                    branch@,
                    base@,
                    replies_view(replies@),
                ),
                |path: FsPath| path@,
            ),
    {
        let wt = self.cfg.worktree_path(org, repo, branch);
        let script = self.fork_steps(org, repo, branch, base);
        self.with_bare_from(org, repo, script, replies, 0, wt)
    }
}

impl Clone for GitCache {
    fn clone(&self) -> (r: GitCache)
        ensures
            r.settings().host@ == self.settings().host@,
            r.settings().protocol == self.settings().protocol,
            r.settings().cache_root@ == self.settings().cache_root@,
            r.settings().branch_ttl == self.settings().branch_ttl,
            r.settings().negative_ttl == self.settings().negative_ttl,
    {
        GitCache { cfg: self.cfg.clone() }
    }
}

/// A repository that is there is used as it is, and so is a worktree: nothing
/// more is asked for.
pub proof fn law_present_is_untouched(
    cfg: &Config,
    org: Seq<char>,
    repo: Seq<char>,
    branch: Seq<char>,
    replies: Seq<ReplyView>,
)
    requires
        replies.len() > 0,
        replies[0] is Success,
    ensures
        ensure_bare_flow(cfg, org, repo, replies) == FlowView::Done(
            Ok::<Seq<u8>, GitErrorView>(cfg.bare_repo(org, repo)),
            1,
        ),
        ensure_worktree_flow(cfg, org, repo, branch, replies) == FlowView::Done(
            Ok::<Seq<u8>, GitErrorView>(cfg.worktree(org, repo, branch)),
            1,
        ),
{
}

/// A clone is moved to its final path only when every step before that which
/// has to work has worked, and what is moved there is the temporary clone.
pub proof fn law_only_complete_clones_appear(
    cfg: &Config,
    org: Seq<char>,
    repo: Seq<char>,
    replies: Seq<ReplyView>,
    from: Seq<u8>,
    to: Seq<u8>,
)
    requires
        ensure_bare_flow(cfg, org, repo, replies) == FlowView::<Seq<u8>>::Ask(
            ActionView::Rename { from, to },
        ),
    ensures
        to == cfg.bare_repo(org, repo),
        from == partial_clone(to, repo),
        replies.len() == clone_script(cfg, org, repo).len(),
        forall|i: int|
            0 <= i < replies.len() - 1 && (#[trigger] clone_script(cfg, org, repo)[i]).on_failure !is Ignore
                ==> replies[i + 1] is Success,
{
    let script = clone_script(cfg, org, repo);
    let heard = replies.skip(1);
    lemma_script_run(script, heard);
    let at = heard.len() as int;
    assert(script[at].action is Rename);
    assert(at == script.len() - 1);
    assert forall|i: int| 0 <= i < replies.len() - 1 && (#[trigger] script[i]).on_failure !is Ignore implies replies[i
        + 1] is Success by {
        assert(goes_on(script[i], heard[i]));
        assert(heard[i] == replies[i + 1]);
    }
}

/// A clone that is reported has been there, or has been made with every step
/// that has to work.
pub proof fn law_reported_clones_are_complete(
    cfg: &Config,
    org: Seq<char>,
    repo: Seq<char>,
    replies: Seq<ReplyView>,
)
    requires
        ensure_bare_flow(cfg, org, repo, replies) matches FlowView::Done(result, _) && result is Ok,
    ensures
        replies.len() > 0,
        replies[0] is Success || forall|i: int|
            0 <= i < clone_script(cfg, org, repo).len() && (#[trigger] clone_script(
                cfg,
                org,
                repo,
            )[i]).on_failure !is Ignore ==> replies[i + 1] is Success,
{
    let script = clone_script(cfg, org, repo);
    let heard = replies.skip(1);
    lemma_script_run(script, heard);
    if replies[0] !is Success {
        assert forall|i: int| 0 <= i < script.len() && (#[trigger] script[i]).on_failure !is Ignore implies replies[i
            + 1] is Success by {
            assert(goes_on(script[i], heard[i]));
            assert(heard[i] == replies[i + 1]);
        }
    }
}

/// The environment that git runs in. A credential prompt must never hang the
/// server: where authentication is missing, the command fails.
pub open spec fn git_environment() -> Seq<(Seq<char>, Seq<char>)> {
    seq![
        ("GIT_TERMINAL_PROMPT"@, "0"@),
        ("GIT_SSH_COMMAND"@, "ssh -oBatchMode=yes"@),
    ]
}

/// The variables that are set for every run of git.
pub fn git_env() -> (r: Vec<(&'static str, &'static str)>)
    ensures
        r@.len() == git_environment().len(),
        forall|i: int|
            0 <= i < r@.len() ==> (#[trigger] r@[i]).0@ == git_environment()[i].0 && r@[i].1@
                == git_environment()[i].1,
{
    vec![("GIT_TERMINAL_PROMPT", "0"), ("GIT_SSH_COMMAND", "ssh -oBatchMode=yes")]
}

} // verus!
