//! Deleting branches and keeping worktrees up to date.

use crate::action::{
    failure, failure_of, flows, lemma_script_run, may, must, output_of, replies_view, run_script,
    script_view, ActionView, Flow, FlowView, GitAction, Reply, ReplyView, ScriptEnd, ScriptStep,
    StepView,
};
use crate::config::Config;
use crate::fspath::{bytes_copy, components, path_join, FsPath};
use crate::git::{
    add_step, after_script, checkout_script, clone_script, create_branch_flow, default_branch_flow,
    ensure_bare_flow, ensure_worktree_flow, fetch_action, fetch_flow, fetch_prune_action,
    fetch_prune_there, fork_script, git_file, glue, head_file, known_heads_flow, lemma_heard, lemma_skip_skip,
    list_worktrees_flow, local_heads_flow, ls_remote_flow, may_do, prune_action, prune_there, run_in,
    run_there, with_bare, GitCache,
};
use crate::porcelain::{checkouts, gitdir_in, parse_gitdir, worktrees_in, Checkout};
use crate::text::{exact_text, same, texts, trim, trimmed, utf8};
use vstd::prelude::*;
use vstd::string::*;
use vstd::utf8::{decode_utf8, valid_utf8};

verus! {

/// How far the check of a foreign worktree has come.
pub enum CheckView {
    Ask(ActionView),
    /// The verdict, and how many replies it took.
    Verdict(bool, nat),
}

/// The directory that the content of a `.git` file points to.
pub open spec fn pointed_to(content: Seq<u8>) -> Option<Seq<char>> {
    if valid_utf8(content) {
        gitdir_in(decode_utf8(content))
    } else {
        None
    }
}

/// Whether a canonical directory lies among the worktree records of a
/// canonical bare repository.
pub open spec fn is_record_of(gitdir: Seq<u8>, bare: Seq<u8>) -> bool {
    components(path_join(bare, utf8("worktrees"@))).is_prefix_of(components(gitdir))
}

/// Whether `path` holds a linked worktree of `bare`: its `.git` file points
/// into the records that the repository keeps of its worktrees.
pub open spec fn worktree_check(path: Seq<u8>, bare: Seq<u8>, replies: Seq<ReplyView>) -> CheckView {
    if replies.len() == 0 {
        CheckView::Ask(ActionView::ReadText(git_file(path)))
    } else {
        match replies[0] {
            ReplyView::Success(content) => match pointed_to(content) {
                None => CheckView::Verdict(false, 1),
                Some(gitdir) => if replies.len() == 1 {
                    CheckView::Ask(ActionView::Canonicalize(utf8(gitdir)))
                } else {
                    match replies[1] {
                        ReplyView::Success(real_gitdir) => if replies.len() == 2 {
                            CheckView::Ask(ActionView::Canonicalize(bare))
                        } else {
                            match replies[2] {
                                ReplyView::Success(real_bare) => CheckView::Verdict(
                                    is_record_of(real_gitdir, real_bare),
                                    3,
                                ),
                                _ => CheckView::Verdict(false, 3),
                            }
                        },
                        _ => CheckView::Verdict(false, 2),
                    }
                },
            },
            _ => CheckView::Verdict(false, 1),
        }
    }
}

/// How far the removal of foreign worktrees has come.
pub enum ClearView {
    Ask(ActionView),
    /// It is done, after this many replies.
    Done(nat),
}

/// The same with replies that came before.
pub open spec fn delayed(c: ClearView, n: nat) -> ClearView {
    match c {
        ClearView::Ask(action) => ClearView::Ask(action),
        ClearView::Done(m) => ClearView::Done(m + n),
    }
}

/// Removing the directories of foreign worktrees that hold the branch: each
/// is removed only once it has been seen to be a worktree of the repository.
pub open spec fn clear_foreign(
    list: Seq<(Seq<char>, Seq<u8>)>,
    branch: Seq<char>,
    wt: Seq<u8>,
    bare: Seq<u8>,
    replies: Seq<ReplyView>,
) -> ClearView
    decreases list.len(),
{
    if list.len() == 0 {
        ClearView::Done(0)
    } else {
        let (b, path) = list[0];
        let rest = list.drop_first();
        if b != branch || components(path) == components(wt) {
            clear_foreign(rest, branch, wt, bare, replies)
        } else {
            match worktree_check(path, bare, replies) {
                CheckView::Ask(action) => ClearView::Ask(action),
                CheckView::Verdict(ours, used) => if !ours {
                    delayed(clear_foreign(rest, branch, wt, bare, replies.skip(used as int)), used)
                } else if replies.len() == used {
                    ClearView::Ask(ActionView::RemoveTree(path))
                } else {
                    delayed(
                        clear_foreign(rest, branch, wt, bare, replies.skip((used + 1) as int)),
                        used + 1,
                    )
                },
            }
        }
    }
}

/// What is left to do for a deleted branch: bookkeeping, the local branch,
/// the remote branch, the refs. None of it has to work.
pub open spec fn forget_script(bare: Seq<u8>, branch: Seq<char>) -> Seq<StepView> {
    seq![
        may(prune_action(bare)),
        may(run_in(bare, seq!["branch"@, "-D"@, branch])),
        may(run_in(bare, seq!["push"@, "origin"@, "--delete"@, branch])),
        may(fetch_prune_action(bare)),
    ]
}

/// [`GitCache::delete_branch`].
pub open spec fn delete_flow(
    cfg: &Config,
    org: Seq<char>,
    repo: Seq<char>,
    branch: Seq<char>,
    replies: Seq<ReplyView>,
) -> FlowView<()> {
    let wt = cfg.worktree(org, repo, branch);
    let bare = cfg.bare_repo(org, repo);
    if replies.len() == 0 {
        FlowView::Ask(ActionView::RemoveTree(wt))
    } else if replies.len() == 1 {
        FlowView::Ask(ActionView::Exists(head_file(bare)))
    } else if replies[1] !is Success {
        FlowView::Done(Ok(()), 2)
    } else {
        match list_worktrees_flow(cfg, org, repo, replies.skip(2)) {
            FlowView::Ask(action) => FlowView::Ask(action),
            FlowView::Done(result, used) => {
                let list = match result {
                    Ok(found) => found,
                    Err(_) => seq![],
                };
                match clear_foreign(list, branch, wt, bare, replies.skip((2 + used) as int)) {
                    ClearView::Ask(action) => FlowView::Ask(action),
                    ClearView::Done(n) => after_script(
                        forget_script(bare, branch),
                        replies,
                        2 + used + n,
                        (),
                    ),
                }
            },
        }
    }
}

/// Whether a status report shows no change.
pub open spec fn is_clean(reply: ReplyView) -> bool {
    match output_of(reply) {
        Some(text) => trimmed(text).len() == 0,
        None => false,
    }
}

/// Whether the counts of commits show a branch that lags behind its upstream
/// and has nothing of its own.
pub open spec fn only_behind(ahead: ReplyView, behind: ReplyView) -> bool {
    match (output_of(ahead), output_of(behind)) {
        (Some(a), Some(b)) => trimmed(a) == "0"@ && trimmed(b) != "0"@,
        _ => false,
    }
}

/// Moving a worktree forward to its upstream.
pub open spec fn merge_action(wt: Seq<u8>, branch: Seq<char>) -> ActionView {
    run_in(wt, seq!["merge"@, "--ff-only"@, "origin/"@ + branch])
}

/// [`GitCache::refresh_worktree`].
pub open spec fn refresh_flow(
    cfg: &Config,
    org: Seq<char>,
    repo: Seq<char>,
    branch: Seq<char>,
    replies: Seq<ReplyView>,
) -> FlowView<bool> {
    let bare = cfg.bare_repo(org, repo);
    let wt = cfg.worktree(org, repo, branch);
    let upstream = "origin/"@ + branch;
    let n = replies.len();
    if n == 0 {
        FlowView::Ask(ActionView::Exists(head_file(bare)))
    } else if replies[0] !is Success {
        FlowView::Done(Ok(false), 1)
    } else if n == 1 {
        FlowView::Ask(ActionView::Exists(git_file(wt)))
    } else if replies[1] !is Success {
        FlowView::Done(Ok(false), 2)
    } else if n == 2 {
        FlowView::Ask(fetch_prune_action(bare))
    } else if replies[2] !is Success {
        FlowView::Done(Err(failure(fetch_prune_action(bare), replies[2])), 3)
    } else if n == 3 {
        FlowView::Ask(run_in(wt, seq!["status"@, "--porcelain"@]))
    } else if !is_clean(replies[3]) {
        FlowView::Done(Ok(false), 4)
    } else if n == 4 {
        FlowView::Ask(run_in(wt, seq!["rev-list"@, "--count"@, upstream + "..HEAD"@]))
    } else if n == 5 {
        FlowView::Ask(run_in(wt, seq!["rev-list"@, "--count"@, "HEAD.."@ + upstream]))
    } else if !only_behind(replies[4], replies[5]) {
        FlowView::Done(Ok(false), 6)
    } else if n == 6 {
        FlowView::Ask(merge_action(wt, branch))
    } else if replies[6] !is Success {
        FlowView::Done(Err(failure(merge_action(wt, branch), replies[6])), 7)
    } else {
        FlowView::Done(Ok(true), 7)
    }
}

enum Check {
    Ask(GitAction),
    Verdict(bool, usize),
}

enum Clear {
    Ask(GitAction),
    Done(usize),
}

impl GitCache {
    /// True if `path` holds a linked worktree of `bare`. Guards directory
    /// deletion: the paths that git lists are under the control of whoever
    /// added the worktrees.
    fn is_worktree_of(path: &FsPath, bare: &FsPath, replies: &[Reply], from: usize) -> (r: Check)
        requires
            from <= replies@.len(),
        ensures
            match (r, worktree_check(path@, bare@, replies_view(replies@).skip(from as int))) {
                (Check::Ask(action), CheckView::Ask(wanted)) => action@ == wanted,
                (Check::Verdict(ours, used), CheckView::Verdict(v, n)) => ours == v && used == n,
                _ => false,
            },
            r matches Check::Verdict(_, used) ==> from + used <= replies@.len(),
    {
        let total = replies.len();
        let ghost heard = replies_view(replies@).skip(from as int);
        if from == total {
            return Check::Ask(GitAction::ReadText(path.join(".git")));
        }
        proof {
            lemma_heard(replies@, from as int, from as int);
        }
        let text = match &replies[from] {
            Reply::Success(content) => exact_text(content.as_slice()),
            _ => {
                return Check::Verdict(false, 1);
            },
        };
        let gitdir = match &text {
            Some(content) => parse_gitdir(content.as_str()),
            None => None,
        };
        match gitdir {
            None => Check::Verdict(false, 1),
            Some(dir) => {
                if total - from == 1 {
                    return Check::Ask(GitAction::Canonicalize(FsPath::from_text(dir)));
                }
                proof {
                    lemma_heard(replies@, from as int, from + 1);
                }
                match &replies[from + 1] {
                    Reply::Success(real_gitdir) => {
                        if total - from == 2 {
                            return Check::Ask(GitAction::Canonicalize(bare.clone()));
                        }
                        proof {
                            lemma_heard(replies@, from as int, from + 2);
                        }
                        match &replies[from + 2] {
                            Reply::Success(real_bare) => {
                                let records = FsPath::from_bytes(
                                    bytes_copy(real_bare.as_slice()),
                                ).join("worktrees");
                                let gitdir = FsPath::from_bytes(
                                    bytes_copy(real_gitdir.as_slice()),
                                );
                                Check::Verdict(gitdir.starts_with(&records), 3)
                            },
                            _ => Check::Verdict(false, 3),
                        }
                    },
                    _ => Check::Verdict(false, 2),
                }
            },
        }
    }

    fn clear_foreign_from(
        list: &Vec<Checkout>,
        branch: &str,
        wt: &FsPath,
        bare: &FsPath,
        replies: &[Reply],
        from: usize,
    ) -> (r: Clear)
        requires
            from <= replies@.len(),
        ensures
            match (
                r,
                clear_foreign(
                    checkouts(list@),
                    branch@,
                    wt@,
                    bare@,
                    replies_view(replies@).skip(from as int),
                ),
            ) {
                (Clear::Ask(action), ClearView::Ask(wanted)) => action@ == wanted,
                (Clear::Done(used), ClearView::Done(n)) => used == n,
                _ => false,
            },
            r matches Clear::Done(used) ==> from + used <= replies@.len(),
    {
        let ghost all = checkouts(list@);
        let ghost heard = replies_view(replies@);
        let ghost want = clear_foreign(all, branch@, wt@, bare@, heard.skip(from as int));
        let total = replies.len();
        let mut at = from;
        let mut i: usize = 0;
        proof {
            assert(all.skip(0) =~= all);
        }
        while i < list.len()
            invariant
                all == checkouts(list@),
                heard == replies_view(replies@),
                total == replies@.len(),
                from <= at <= total,
                i <= list@.len(),
                want == clear_foreign(all, branch@, wt@, bare@, heard.skip(from as int)),
                want == delayed(
                    clear_foreign(
                        all.skip(i as int),
                        branch@,
                        wt@,
                        bare@,
                        heard.skip(at as int),
                    ),
                    (at - from) as nat,
                ),
            decreases list@.len() - i,
        {
            proof {
                assert(all.skip(i as int)[0] == list@[i as int]@);
                assert(all.skip(i as int).drop_first() =~= all.skip(i + 1));
            }
            if same(list[i].branch.as_str(), branch) && !list[i].path.same_path(wt) {
                match Self::is_worktree_of(&list[i].path, bare, replies, at) {
                    Check::Ask(action) => {
                        return Clear::Ask(action);
                    },
                    Check::Verdict(ours, used) => {
                        proof {
                            lemma_skip_skip(heard, at as int, used as int);
                        }
                        if !ours {
                            at = at + used;
                        } else if at + used == total {
                            return Clear::Ask(GitAction::RemoveTree(list[i].path.clone()));
                        } else {
                            proof {
                                lemma_skip_skip(heard, at as int, used + 1);
                            }
                            at = at + used + 1;
                        }
                    },
                }
            }
            i = i + 1;
        }
        Clear::Done(at - from)
    }

    fn forget_steps(bare: &FsPath, branch: &str) -> (r: Vec<ScriptStep>)
        ensures
            script_view(r@) == forget_script(bare@, branch@),
    {
        let mut script: Vec<ScriptStep> = Vec::new();
        assert(script_view(script@) =~= seq![]);
        add_step(&mut script, may_do(prune_there(bare)));
        let list = vec!["branch", "-D", branch];
        assert(texts(list@) =~= seq!["branch"@, "-D"@, branch@]);
        add_step(&mut script, may_do(run_there(bare, list)));
        let list = vec!["push", "origin", "--delete", branch];
        assert(texts(list@) =~= seq!["push"@, "origin"@, "--delete"@, branch@]);
        add_step(&mut script, may_do(run_there(bare, list)));
        add_step(&mut script, may_do(fetch_prune_there(bare)));
        assert(script_view(script@) =~= forget_script(bare@, branch@));
        script
    }

    /// Deletes a branch everywhere: the worktree directory (also a foreign
    /// one), worktree bookkeeping, local branch and remote branch. Cleanup
    /// that does not work is passed over: the pieces may already be gone.
    pub fn delete_branch(
        &self,
        org: &str,
        repo: &str,
        branch: &str,
        replies: &[Reply],
    ) -> (r: Flow<()>)
        ensures
            flows(
                r,
                delete_flow(&self.settings(), org@, repo@, branch@, replies_view(replies@)),
                |nothing: ()| nothing,
            ),
    {
        let cfg = self.config();
        let wt = cfg.worktree_path(org, repo, branch);
        let bare = cfg.bare_repo_path(org, repo);
        let total = replies.len();
        if total == 0 {
            return Flow::Ask(GitAction::RemoveTree(wt));
        }
        if total == 1 {
            return Flow::Ask(GitAction::Exists(bare.join("HEAD")));
        }
        if !replies[1].worked() {
            return Flow::Done(Ok(()), 2);
        }
        let (list, used) = match self.list_worktrees_from(org, repo, replies, 2) {
            Flow::Ask(action) => {
                return Flow::Ask(action);
            },
            Flow::Done(Ok(list), used) => (list, used),
            Flow::Done(Err(_), used) => {
                let none: Vec<Checkout> = Vec::new();
                assert(checkouts(none@) =~= seq![]);
                (none, used)
            },
        };
        match Self::clear_foreign_from(&list, branch, &wt, &bare, replies, 2 + used) {
            Clear::Ask(action) => Flow::Ask(action),
            Clear::Done(n) => {
                let script = Self::forget_steps(&bare, branch);
                let len = script.len();
                assert(script_view(script@).len() == len);
                match run_script(script, replies, 2 + used + n) {
                    ScriptEnd::Ask(action) => Flow::Ask(action),
                    ScriptEnd::Stopped(e) => Flow::Done(Err(e), 0),
                    ScriptEnd::Finished => Flow::Done(Ok(()), 2 + used + n + len),
                }
            },
        }
    }

    /// Fetches and fast-forwards a worktree to `origin/<branch>`, but only
    /// when that is invisible to the user: the worktree must be clean and the
    /// local branch must have no commits of its own. Tells whether an update
    /// happened.
    pub fn refresh_worktree(
        &self,
        org: &str,
        repo: &str,
        branch: &str,
        replies: &[Reply],
    ) -> (r: Flow<bool>)
        ensures
            flows(
                r,
                refresh_flow(&self.settings(), org@, repo@, branch@, replies_view(replies@)),
                |updated: bool| updated,
            ),
    {
        let cfg = self.config();
        let bare = cfg.bare_repo_path(org, repo);
        let wt = cfg.worktree_path(org, repo, branch);
        let n = replies.len();
        if n == 0 {
            return Flow::Ask(GitAction::Exists(bare.join("HEAD")));
        }
        if !replies[0].worked() {
            return Flow::Done(Ok(false), 1);
        }
        if n == 1 {
            return Flow::Ask(GitAction::Exists(wt.join(".git")));
        }
        if !replies[1].worked() {
            return Flow::Done(Ok(false), 2);
        }
        let fetch = fetch_prune_there(&bare);
        if n == 2 {
            return Flow::Ask(fetch);
        }
        if !replies[2].worked() {
            return Flow::Done(Err(failure_of(fetch, &replies[2])), 3);
        }
        if n == 3 {
            let list = vec!["status", "--porcelain"];
            assert(texts(list@) =~= seq!["status"@, "--porcelain"@]);
            return Flow::Ask(run_there(&wt, list));
        }
        let clean = match replies[3].output() {
            Some(text) => trim(text.as_str()).is_empty(),
            None => false,
        };
        if !clean {
            return Flow::Done(Ok(false), 4);
        }
        let upstream = glue("origin/", branch);
        if n == 4 {
            let range = glue(upstream.as_str(), "..HEAD");
            let list = vec!["rev-list", "--count", range.as_str()];
            assert(texts(list@) =~= seq!["rev-list"@, "--count"@, upstream@ + "..HEAD"@]);
            return Flow::Ask(run_there(&wt, list));
        }
        if n == 5 {
            let range = glue("HEAD..", upstream.as_str());
            let list = vec!["rev-list", "--count", range.as_str()];
            assert(texts(list@) =~= seq!["rev-list"@, "--count"@, "HEAD.."@ + upstream@]);
            return Flow::Ask(run_there(&wt, list));
        }
        let forward = match (replies[4].output(), replies[5].output()) {
            (Some(ahead), Some(behind)) => same(trim(ahead.as_str()), "0") && !same(
                trim(behind.as_str()),
                "0",
            ),
            _ => false,
        };
        if !forward {
            return Flow::Done(Ok(false), 6);
        }
        let list = vec!["merge", "--ff-only", upstream.as_str()];
        assert(texts(list@) =~= seq!["merge"@, "--ff-only"@, "origin/"@ + branch@]);
        let merge = run_there(&wt, list);
        if n == 6 {
            return Flow::Ask(merge);
        }
        if !replies[6].worked() {
            return Flow::Done(Err(failure_of(merge, &replies[6])), 7);
        }
        Flow::Done(Ok(true), 7)
    }
}

/// What is asked for while foreign worktrees are cleared away.
proof fn lemma_clear(
    list: Seq<(Seq<char>, Seq<u8>)>,
    branch: Seq<char>,
    wt: Seq<u8>,
    bare: Seq<u8>,
    replies: Seq<ReplyView>,
)
    ensures
        clear_foreign(list, branch, wt, bare, replies) matches ClearView::Ask(
            ActionView::RemoveTree(path),
        ) ==> {
            &&& list.contains((branch, path))
            &&& components(path) != components(wt)
            &&& replies.len() >= 3
            &&& worktree_check(path, bare, replies.skip(replies.len() - 3)) == CheckView::Verdict(
                true,
                3,
            )
        },
    decreases list.len(),
{
    if list.len() > 0 {
        let (b, path) = list[0];
        let rest = list.drop_first();
        assert forall|x: (Seq<char>, Seq<u8>)| rest.contains(x) implies list.contains(x) by {
            let i = choose|i: int| 0 <= i < rest.len() && rest[i] == x;
            assert(list[i + 1] == x);
        }
        if b != branch || components(path) == components(wt) {
            lemma_clear(rest, branch, wt, bare, replies);
        } else {
            match worktree_check(path, bare, replies) {
                CheckView::Ask(_) => {},
                CheckView::Verdict(ours, used) => {
                    if ours && replies.len() == used {
                        assert(replies.skip(0) =~= replies);
                        assert(list[0] == (branch, path));
                    } else {
                        let n: nat = if ours {
                            used + 1
                        } else {
                            used
                        };
                        let later = replies.skip(n as int);
                        lemma_clear(rest, branch, wt, bare, later);
                        if later.len() >= 3 {
                            assert(later.skip(later.len() - 3) =~= replies.skip(replies.len() - 3));
                        }
                    }
                },
            }
        }
    }
}

/// Apart from the worktree's own directory, deleting a branch removes only
/// directories that git lists for that branch, and each only right after the
/// last three replies have shown that it holds a worktree of the repository.
pub proof fn law_delete_removes_only_worktrees(
    cfg: &Config,
    org: Seq<char>,
    repo: Seq<char>,
    branch: Seq<char>,
    replies: Seq<ReplyView>,
    path: Seq<u8>,
)
    requires
        delete_flow(cfg, org, repo, branch, replies) == FlowView::<()>::Ask(
            ActionView::RemoveTree(path),
        ),
    ensures
        replies.len() == 0 ==> path == cfg.worktree(org, repo, branch),
        replies.len() > 0 ==> {
            &&& replies.len() >= 3
            &&& worktree_check(
                path,
                cfg.bare_repo(org, repo),
                replies.skip(replies.len() - 3),
            ) == CheckView::Verdict(true, 3)
            &&& output_of(replies[3]) is Some
            &&& worktrees_in(output_of(replies[3]).unwrap()).contains((branch, path))
        },
{
    if replies.len() > 1 && replies[1] is Success {
        let wt = cfg.worktree(org, repo, branch);
        let bare = cfg.bare_repo(org, repo);
        match list_worktrees_flow(cfg, org, repo, replies.skip(2)) {
            FlowView::Ask(_) => {},
            FlowView::Done(result, used) => {
                let list = match result {
                    Ok(found) => found,
                    Err(_) => seq![],
                };
                let rest = replies.skip((2 + used) as int);
                lemma_clear(list, branch, wt, bare, rest);
                match clear_foreign(list, branch, wt, bare, rest) {
                    ClearView::Ask(_) => {
                        assert(rest.skip(rest.len() - 3) =~= replies.skip(replies.len() - 3));
                        let out = output_of(replies.skip(2).skip(1)[0]).unwrap();
                        if list != worktrees_in(out) {
                            assert(list =~= seq![]);
                        }
                        assert(worktrees_in(out).contains((branch, path)));
                    },
                    ClearView::Done(n) => {
                        lemma_script_run(
                            forget_script(bare, branch),
                            replies.skip((2 + used + n) as int),
                        );
                    },
                }
            },
        }
    }
}

/// Deleting a branch never fails: whatever the replies, it goes on to its end.
pub proof fn law_delete_never_fails(
    cfg: &Config,
    org: Seq<char>,
    repo: Seq<char>,
    branch: Seq<char>,
    replies: Seq<ReplyView>,
)
    ensures
        delete_flow(cfg, org, repo, branch, replies) matches FlowView::Done(result, _) ==> result
            is Ok,
{
    if replies.len() > 1 && replies[1] is Success {
        let wt = cfg.worktree(org, repo, branch);
        let bare = cfg.bare_repo(org, repo);
        match list_worktrees_flow(cfg, org, repo, replies.skip(2)) {
            FlowView::Ask(_) => {},
            FlowView::Done(result, used) => {
                let list = match result {
                    Ok(found) => found,
                    Err(_) => seq![],
                };
                match clear_foreign(list, branch, wt, bare, replies.skip((2 + used) as int)) {
                    ClearView::Ask(_) => {},
                    ClearView::Done(n) => {
                        lemma_script_run(
                            forget_script(bare, branch),
                            replies.skip((2 + used + n) as int),
                        );
                    },
                }
            },
        }
    }
}

/// A refresh leaves the user's work alone: up to the sixth reply it only
/// looks and fetches; after that it asks for nothing but a fast-forward merge,
/// and for that only where the worktree is clean and its branch is behind its
/// upstream without commits of its own. Only then does it report an update.
pub proof fn law_refresh_spares_user_work(
    cfg: &Config,
    org: Seq<char>,
    repo: Seq<char>,
    branch: Seq<char>,
    replies: Seq<ReplyView>,
)
    ensures
        ({
            let bare = cfg.bare_repo(org, repo);
            let wt = cfg.worktree(org, repo, branch);
            let upstream = "origin/"@ + branch;
            match refresh_flow(cfg, org, repo, branch, replies) {
                FlowView::Ask(action) => {
                    ||| action is Exists
                    ||| action == fetch_prune_action(bare)
                    ||| action == run_in(wt, seq!["status"@, "--porcelain"@])
                    ||| action == run_in(wt, seq!["rev-list"@, "--count"@, upstream + "..HEAD"@])
                    ||| action == run_in(wt, seq!["rev-list"@, "--count"@, "HEAD.."@ + upstream])
                    ||| {
                        &&& action == merge_action(wt, branch)
                        &&& replies.len() == 6
                        &&& is_clean(replies[3])
                        &&& only_behind(replies[4], replies[5])
                    }
                },
                FlowView::Done(Ok(updated), _) => updated ==> {
                    &&& replies.len() >= 7
                    &&& is_clean(replies[3])
                    &&& only_behind(replies[4], replies[5])
                    &&& replies[6] is Success
                },
                FlowView::Done(Err(_), _) => true,
            }
        }),
{
}

proof fn lemma_clear_ends(
    list: Seq<(Seq<char>, Seq<u8>)>,
    branch: Seq<char>,
    wt: Seq<u8>,
    bare: Seq<u8>,
    replies: Seq<ReplyView>,
)
    ensures
        match clear_foreign(list, branch, wt, bare, replies) {
            ClearView::Ask(_) => replies.len() < 4 * list.len(),
            ClearView::Done(n) => n <= 4 * list.len() && n <= replies.len(),
        },
    decreases list.len(),
{
    if list.len() > 0 {
        let (b, path) = list[0];
        let rest = list.drop_first();
        if b != branch || components(path) == components(wt) {
            lemma_clear_ends(rest, branch, wt, bare, replies);
        } else {
            match worktree_check(path, bare, replies) {
                CheckView::Ask(_) => {},
                CheckView::Verdict(ours, used) => {
                    if !ours {
                        lemma_clear_ends(rest, branch, wt, bare, replies.skip(used as int));
                    } else if replies.len() > used {
                        lemma_clear_ends(rest, branch, wt, bare, replies.skip((used + 1) as int));
                    }
                },
            }
        }
    }
}

/// Queries come to an end: once they have had so many replies, whatever they
/// are, they ask for nothing more. So does a refresh.
pub proof fn law_queries_end(
    cfg: &Config,
    org: Seq<char>,
    repo: Seq<char>,
    branch: Seq<char>,
    replies: Seq<ReplyView>,
)
    ensures
        ls_remote_flow(cfg, org, repo, replies) is Ask ==> replies.len() < 1,
        default_branch_flow(cfg, org, repo, replies) is Ask ==> replies.len() < 1,
        local_heads_flow(cfg, org, repo, replies) is Ask ==> replies.len() < 2,
        known_heads_flow(cfg, org, repo, replies) is Ask ==> replies.len() < 3,
        list_worktrees_flow(cfg, org, repo, replies) is Ask ==> replies.len() < 2,
        refresh_flow(cfg, org, repo, branch, replies) is Ask ==> replies.len() < 7,
{
}

/// Clones and fetches come to an end.
pub proof fn law_clones_end(cfg: &Config, org: Seq<char>, repo: Seq<char>, replies: Seq<ReplyView>)
    ensures
        ensure_bare_flow(cfg, org, repo, replies) is Ask ==> replies.len() < 7,
        fetch_flow(cfg, org, repo, replies) is Ask ==> replies.len() < 8,
{
    lemma_bare_ends(cfg, org, repo, replies);
    lemma_with_bare_ends(
        cfg,
        org,
        repo,
        seq![must(fetch_action(cfg.bare_repo(org, repo)))],
        replies,
        0,
        (),
    );
}

/// Checking out a branch comes to an end.
pub proof fn law_checkouts_end(
    cfg: &Config,
    org: Seq<char>,
    repo: Seq<char>,
    branch: Seq<char>,
    replies: Seq<ReplyView>,
)
    ensures
        ensure_worktree_flow(cfg, org, repo, branch, replies) is Ask ==> replies.len() < 11,
{
    let script = checkout_script(cfg, org, repo, branch);
    assert(script.len() <= 3);
    lemma_with_bare_ends(
        cfg,
        org,
        repo,
        script,
        replies,
        1,
        cfg.worktree(org, repo, branch),
    );
}

/// Forking a branch comes to an end.
pub proof fn law_forks_end(
    cfg: &Config,
    org: Seq<char>,
    repo: Seq<char>,
    branch: Seq<char>,
    base: Seq<char>,
    replies: Seq<ReplyView>,
)
    ensures
        create_branch_flow(cfg, org, repo, branch, base, replies) is Ask ==> replies.len() < 12,
{
    let script = fork_script(cfg, org, repo, branch, base);
    assert(script.len() <= 5);
    lemma_with_bare_ends(
        cfg,
        org,
        repo,
        script,
        replies,
        0,
        cfg.worktree(org, repo, branch),
    );
}

/// How many replies a deletion can take, given how many worktrees git lists.
pub open spec fn delete_bound(replies: Seq<ReplyView>) -> nat {
    if replies.len() <= 3 {
        3
    } else {
        match output_of(replies[3]) {
            Some(out) => 7 + 4 * worktrees_in(out).len(),
            None => 7,
        }
    }
}

/// A deletion comes to an end: it asks for a few things, and for at most four
/// more for every worktree that git lists.
pub proof fn law_deletions_end(
    cfg: &Config,
    org: Seq<char>,
    repo: Seq<char>,
    branch: Seq<char>,
    replies: Seq<ReplyView>,
)
    ensures
        delete_flow(cfg, org, repo, branch, replies) is Ask ==> replies.len() <= delete_bound(
            replies,
        ),
{
    let bare = cfg.bare_repo(org, repo);
    let wt = cfg.worktree(org, repo, branch);
    if replies.len() > 3 && replies[1] is Success {
        let later = replies.skip(2);
        match list_worktrees_flow(cfg, org, repo, later) {
            FlowView::Ask(_) => {},
            FlowView::Done(result, used) => {
                let list = match result {
                    Ok(found) => found,
                    Err(_) => seq![],
                };
                assert(later.skip(1)[0] == replies[3]);
                let rest = replies.skip((2 + used) as int);
                lemma_clear_ends(list, branch, wt, bare, rest);
                match clear_foreign(list, branch, wt, bare, rest) {
                    ClearView::Ask(_) => {},
                    ClearView::Done(n) => {
                        lemma_script_run(
                            forget_script(bare, branch),
                            replies.skip((2 + used + n) as int),
                        );
                    },
                }
            },
        }
    }
}

proof fn lemma_bare_ends(cfg: &Config, org: Seq<char>, repo: Seq<char>, replies: Seq<ReplyView>)
    ensures
        match ensure_bare_flow(cfg, org, repo, replies) {
            FlowView::Ask(_) => replies.len() <= 6,
            FlowView::Done(Ok(_), used) => used <= 7 && used <= replies.len(),
            FlowView::Done(Err(_), _) => true,
        },
{
    if replies.len() > 0 {
        lemma_script_run(clone_script(cfg, org, repo), replies.skip(1));
    }
}

proof fn lemma_with_bare_ends<V>(
    cfg: &Config,
    org: Seq<char>,
    repo: Seq<char>,
    script: Seq<StepView>,
    replies: Seq<ReplyView>,
    before: nat,
    value: V,
)
    requires
        before <= 1,
    ensures
        replies.len() >= before && with_bare(cfg, org, repo, script, replies, before, value) is Ask
            ==> replies.len() < before + 7 + script.len(),
{
    if replies.len() >= before {
        let later = replies.skip(before as int);
        lemma_bare_ends(cfg, org, repo, later);
        match ensure_bare_flow(cfg, org, repo, later) {
            FlowView::Done(Ok(_), used) => {
                lemma_script_run(script, replies.skip((before + used) as int));
            },
            _ => {},
        }
    }
}

} // verus!
