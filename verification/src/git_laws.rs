//! What the git operations ask for, and in which order, whatever they are
//! told.

use crate::action::{
    failure, goes_on, lemma_script_run, must, reported, script_run, ActionView, FlowView, GitErrorView,
    ReplyView, ScriptEndView, StepView,
};
use crate::config::Config;
use crate::fspath::{path_join, path_parent};
use crate::git::{
    after_script, checkout_script, clone_script, create_branch_flow, default_branch_flow,
    ensure_bare_flow, ensure_worktree_flow, fetch_action, fetch_flow, fork_script, known_heads_flow,
    list_worktrees_flow, local_heads_flow, ls_remote_flow, parent_steps, partial_clone, with_bare,
    KnownHeadsView,
};
use crate::porcelain::{default_branch_in, heads_in, tracked_heads_in, worktrees_in};
use crate::text::{lemma_utf8_ascii, lemma_utf8_concat, lossy, occurs, utf8};
use vstd::prelude::*;

verus! {

/// Whether the reply at a position answers an action: the operation asked for
/// it when it had heard what came before.
pub open spec fn answers<V>(
    flow: spec_fn(Seq<ReplyView>) -> FlowView<V>,
    replies: Seq<ReplyView>,
    at: int,
    action: ActionView,
) -> bool {
    0 <= at < replies.len() && flow(replies.take(at)) == FlowView::<V>::Ask(action)
}

/// A run of git in a directory, or anywhere.
pub open spec fn git(cwd: Option<Seq<u8>>, args: Seq<Seq<char>>) -> ActionView {
    ActionView::Run { cwd, args }
}

/// A script asks for an action once those before it have gone well enough.
pub proof fn lemma_script_asks(script: Seq<StepView>, replies: Seq<ReplyView>, i: int)
    requires
        0 <= i < script.len(),
        i <= replies.len(),
        forall|j: int| 0 <= j < i ==> goes_on(#[trigger] script[j], replies[j]),
    ensures
        script_run(script, replies.take(i)) == ScriptEndView::Ask(script[i].action),
    decreases i,
{
    if i > 0 {
        let s = script.drop_first();
        let r = replies.drop_first();
        assert(goes_on(script[0], replies[0]));
        assert(replies.take(i)[0] == replies[0]);
        assert(replies.take(i).drop_first() =~= r.take(i - 1));
        assert forall|j: int| 0 <= j < i - 1 implies goes_on(#[trigger] s[j], r[j]) by {
            assert(goes_on(script[j + 1], replies[j + 1]));
        }
        lemma_script_asks(s, r, i - 1);
    }
}

/// A script is finished once every action has gone well enough.
pub proof fn lemma_script_finishes(script: Seq<StepView>, replies: Seq<ReplyView>)
    requires
        script.len() <= replies.len(),
        forall|j: int| 0 <= j < script.len() ==> goes_on(#[trigger] script[j], replies[j]),
    ensures
        script_run(script, replies) == ScriptEndView::Finished,
    decreases script.len(),
{
    if script.len() > 0 {
        let s = script.drop_first();
        let r = replies.drop_first();
        assert(goes_on(script[0], replies[0]));
        assert forall|j: int| 0 <= j < s.len() implies goes_on(#[trigger] s[j], r[j]) by {
            assert(goes_on(script[j + 1], replies[j + 1]));
        }
        lemma_script_finishes(s, r);
    }
}

/// Where a script that ran after something else stands, at each of its steps.
pub proof fn lemma_after_script<V>(
    script: Seq<StepView>,
    replies: Seq<ReplyView>,
    before: nat,
    value: V,
)
    requires
        before <= replies.len(),
        after_script(script, replies, before, value) matches FlowView::Done(result, _) && result is Ok,
    ensures
        before + script.len() <= replies.len(),
        after_script(script, replies, before, value) == FlowView::Done(
            Ok::<V, GitErrorView>(value),
            before + script.len(),
        ),
        forall|i: int|
            0 <= i < script.len() ==> {
                &&& goes_on(#[trigger] script[i], replies[before + i])
                &&& after_script(script, replies.take(before + i), before, value)
                    == FlowView::<V>::Ask(script[i].action)
            },
        forall|k: int|
            before + script.len() <= k <= replies.len() ==> #[trigger] after_script(
                script,
                replies.take(k),
                before,
                value,
            ) == after_script(script, replies, before, value),
{
    let heard = replies.skip(before as int);
    lemma_script_run(script, heard);
    assert forall|i: int| 0 <= i < script.len() implies {
        &&& goes_on(#[trigger] script[i], replies[before + i])
        &&& after_script(script, replies.take(before + i), before, value) == FlowView::<V>::Ask(
            script[i].action,
        )
    } by {
        assert(goes_on(script[i], heard[i]));
        assert(heard[i] == replies[before + i]);
        lemma_script_asks(script, heard, i);
        assert(replies.take(before + i).skip(before as int) =~= heard.take(i));
    }
    assert forall|k: int| before + script.len() <= k <= replies.len() implies #[trigger] after_script(
        script,
        replies.take(k),
        before,
        value,
    ) == after_script(script, replies, before, value) by {
        let part = replies.take(k).skip(before as int);
        assert forall|j: int| 0 <= j < script.len() implies goes_on(#[trigger] script[j], part[j]) by {
            assert(goes_on(script[j], heard[j]));
            assert(part[j] == heard[j]);
        }
        lemma_script_finishes(script, part);
    }
}

/// Where the making of a bare repository stands, at each of its steps.
proof fn lemma_bare(cfg: &Config, org: Seq<char>, repo: Seq<char>, replies: Seq<ReplyView>)
    requires
        ensure_bare_flow(cfg, org, repo, replies) matches FlowView::Done(result, _) && result is Ok,
    ensures
        ({
            let script = clone_script(cfg, org, repo);
            let used = ensure_bare_flow(cfg, org, repo, replies)->Done_1;
            &&& 1 <= used <= replies.len()
            &&& ensure_bare_flow(cfg, org, repo, replies) == FlowView::Done(
                Ok::<Seq<u8>, GitErrorView>(cfg.bare_repo(org, repo)),
                used,
            )
            &&& forall|k: int|
                used <= k <= replies.len() ==> #[trigger] ensure_bare_flow(
                    cfg,
                    org,
                    repo,
                    replies.take(k),
                ) == ensure_bare_flow(cfg, org, repo, replies)
            &&& replies[0] !is Success ==> {
                &&& used == 1 + script.len()
                &&& forall|i: int|
                    0 <= i < script.len() ==> {
                        &&& goes_on(#[trigger] script[i], replies[1 + i])
                        &&& ensure_bare_flow(cfg, org, repo, replies.take(1 + i))
                            == FlowView::<Seq<u8>>::Ask(script[i].action)
                    }
            }
        }),
{
    let script = clone_script(cfg, org, repo);
    let bare = cfg.bare_repo(org, repo);
    if replies[0] is Success {
        assert forall|k: int| 1 <= k <= replies.len() implies #[trigger] ensure_bare_flow(
            cfg,
            org,
            repo,
            replies.take(k),
        ) == ensure_bare_flow(cfg, org, repo, replies) by {
            assert(replies.take(k)[0] == replies[0]);
        }
    } else {
        lemma_after_script(script, replies, 1, bare);
        assert forall|k: int| 1 + script.len() <= k <= replies.len() implies #[trigger] ensure_bare_flow(
            cfg,
            org,
            repo,
            replies.take(k),
        ) == ensure_bare_flow(cfg, org, repo, replies) by {
            assert(replies.take(k)[0] == replies[0]);
            assert(after_script(script, replies.take(k), 1, bare) == after_script(
                script,
                replies,
                1,
                bare,
            ));
        }
        assert forall|i: int| 0 <= i < script.len() implies {
            &&& goes_on(#[trigger] script[i], replies[1 + i])
            &&& ensure_bare_flow(cfg, org, repo, replies.take(1 + i)) == FlowView::<Seq<u8>>::Ask(
                script[i].action,
            )
        } by {
            assert(replies.take(1 + i)[0] == replies[0]);
            assert(goes_on(script[i], replies[1 + i]));
        }
    }
}

/// Where an operation that needs the bare repository stands, at each step of
/// its script.
proof fn lemma_with_bare<V>(
    cfg: &Config,
    org: Seq<char>,
    repo: Seq<char>,
    script: Seq<StepView>,
    replies: Seq<ReplyView>,
    before: nat,
    value: V,
) -> (start: nat)
    requires
        before <= replies.len(),
        with_bare(cfg, org, repo, script, replies, before, value) matches FlowView::Done(result, _)
            && result is Ok,
    ensures
        before < start,
        start + script.len() <= replies.len(),
        with_bare(cfg, org, repo, script, replies, before, value) == FlowView::Done(
            Ok::<V, GitErrorView>(value),
            start + script.len(),
        ),
        forall|i: int|
            0 <= i < script.len() ==> {
                &&& goes_on(#[trigger] script[i], replies[start + i])
                &&& with_bare(cfg, org, repo, script, replies.take(start + i), before, value)
                    == FlowView::<V>::Ask(script[i].action)
            },
{
    let later = replies.skip(before as int);
    lemma_bare(cfg, org, repo, later);
    let used = ensure_bare_flow(cfg, org, repo, later)->Done_1;
    let start = before + used;
    lemma_after_script(script, replies, start, value);
    assert forall|i: int| 0 <= i < script.len() implies {
        &&& goes_on(#[trigger] script[i], replies[start + i])
        &&& with_bare(cfg, org, repo, script, replies.take(start + i), before, value)
            == FlowView::<V>::Ask(script[i].action)
    } by {
        assert(goes_on(script[i], replies[start + i]));
        assert(replies.take(start + i).skip(before as int) =~= later.take(used + i));
        assert(ensure_bare_flow(cfg, org, repo, later.take(used + i)) == ensure_bare_flow(
            cfg,
            org,
            repo,
            later,
        ));
    }
    start
}

/// Whether a path is the other with something put behind it that does not make
/// it the path of a bare repository.
pub open spec fn stands_beside(tmp: Seq<u8>, bare: Seq<u8>) -> bool {
    &&& bare.is_prefix_of(tmp)
    &&& bare.len() < tmp.len()
    &&& !utf8(".git"@).is_suffix_of(tmp)
}

proof fn lemma_last_byte(text: Seq<char>, c: char)
    requires
        (c as u32) < 0x80,
    ensures
        utf8(text.push(c)).len() > 0,
        utf8(text.push(c)).last() == c as u8,
{
    lemma_utf8_concat(text, seq![c]);
    lemma_utf8_ascii(c);
    assert(text + seq![c] =~= text.push(c));
}

proof fn lemma_stands_beside(bare: Seq<u8>, repo: Seq<char>)
    ensures
        stands_beside(partial_clone(bare, repo), bare),
{
    reveal_strlit(".git");
    reveal_strlit(".partial");
    reveal_strlit(".git.partial");
    let tmp = partial_clone(bare, repo);
    let end = if repo.len() == 0 || repo.last() == '/' {
        ".git.partial"@
    } else {
        ".partial"@
    };
    lemma_last_byte(end.drop_last(), 'l');
    assert(end.drop_last().push('l') =~= end);
    lemma_last_byte(".git"@.drop_last(), 't');
    assert(".git"@.drop_last().push('t') =~= ".git"@);
    assert(tmp == bare + utf8(end));
    assert(bare =~= tmp.subrange(0, bare.len() as int));
    if utf8(".git"@).is_suffix_of(tmp) {
        let n = tmp.len() - utf8(".git"@).len();
        assert(tmp.subrange(n, tmp.len() as int).last() == tmp.last());
    }
}

/// Whether a run of git belongs to the making of a bare repository: a bare,
/// blob-less clone without tags of the repository's URL, the refspec that gives
/// it remote-tracking refs, or the first fetch, all in a temporary place.
pub open spec fn makes_bare(
    cfg: &Config,
    org: Seq<char>,
    repo: Seq<char>,
    tmp: Seq<u8>,
    action: ActionView,
) -> bool {
    &&& stands_beside(tmp, cfg.bare_repo(org, repo))
    &&& {
        ||| action == git(
            None,
            seq![
                "clone"@,
                "--bare"@,
                "--filter=blob:none"@,
                "--no-tags"@,
                cfg.url(org, repo),
                lossy(tmp),
            ],
        )
        ||| action == git(
            Some(tmp),
            seq!["config"@, "remote.origin.fetch"@, "+refs/heads/*:refs/remotes/origin/*"@],
        )
        ||| action == git(Some(tmp), seq!["fetch"@, "--no-tags"@, "origin"@])
    }
}

/// Making a bare repository asks for nothing but this: whether it is there,
/// the directory around it, a clean temporary place, a clone of the
/// repository's URL into that place with its refspec and its first fetch, and
/// the move into its final place.
#[verifier::rlimit(40)]
pub proof fn law_clone_asks(cfg: &Config, org: Seq<char>, repo: Seq<char>, replies: Seq<ReplyView>)
    ensures
        ensure_bare_flow(cfg, org, repo, Seq::empty()) == FlowView::<Seq<u8>>::Ask(
            ActionView::Exists(path_join(cfg.bare_repo(org, repo), utf8("HEAD"@))),
        ),
        replies.len() > 0 ==> (ensure_bare_flow(cfg, org, repo, replies) matches FlowView::Ask(action)
            ==> match action {
            ActionView::Exists(path) => false,
            ActionView::CreateDirs(dir) => path_parent(cfg.bare_repo(org, repo)) == Some(dir),
            ActionView::RemoveTree(tmp) => stands_beside(tmp, cfg.bare_repo(org, repo)),
            ActionView::Rename { from, to } => to == cfg.bare_repo(org, repo) && stands_beside(
                from,
                to,
            ),
            ActionView::Run { .. } => exists|tmp: Seq<u8>| makes_bare(cfg, org, repo, tmp, action),
            ActionView::ReadText(path) => false,
            ActionView::Canonicalize(path) => false,
        }),
{
    let bare = cfg.bare_repo(org, repo);
    let tmp = partial_clone(bare, repo);
    lemma_stands_beside(bare, repo);
    if replies.len() > 0 && replies[0] !is Success {
        let script = clone_script(cfg, org, repo);
        lemma_script_run(script, replies.skip(1));
        if let FlowView::Ask(action) = ensure_bare_flow(cfg, org, repo, replies) {
            let i = replies.len() - 1;
            assert(action == script[i].action);
            assert(parent_steps(bare).len() <= 1);
            if action is Run {
                assert(makes_bare(cfg, org, repo, tmp, action));
            }
        }
    }
}

/// Whether the replies from a position on answer the clearing of a temporary
/// place beside the bare repository, a clone of the repository's URL into it,
/// its refspec, its first fetch and its move into place, and all but the
/// clearing worked. What comes before that is only the directory around it.
pub open spec fn is_cloned_at(
    cfg: &Config,
    org: Seq<char>,
    repo: Seq<char>,
    replies: Seq<ReplyView>,
    tmp: Seq<u8>,
    at: int,
) -> bool {
    let flow = |r: Seq<ReplyView>| ensure_bare_flow(cfg, org, repo, r);
    let bare = cfg.bare_repo(org, repo);
    &&& stands_beside(tmp, bare)
    &&& answers(flow, replies, at, ActionView::RemoveTree(tmp))
    &&& answers(
        flow,
        replies,
        at + 1,
        git(
            None,
            seq![
                "clone"@,
                "--bare"@,
                "--filter=blob:none"@,
                "--no-tags"@,
                cfg.url(org, repo),
                lossy(tmp),
            ],
        ),
    )
    &&& replies[at + 1] is Success
    &&& answers(
        flow,
        replies,
        at + 2,
        git(
            Some(tmp),
            seq![
                "config"@,
                "remote.origin.fetch"@,
                "+refs/heads/*:refs/remotes/origin/*"@,
            ],
        ),
    )
    &&& replies[at + 2] is Success
    &&& answers(
        flow,
        replies,
        at + 3,
        git(Some(tmp), seq!["fetch"@, "--no-tags"@, "origin"@]),
    )
    &&& replies[at + 3] is Success
    &&& answers(flow, replies, at + 4, ActionView::Rename { from: tmp, to: bare })
    &&& replies[at + 4] is Success
    &&& match path_parent(bare) {
        Some(dir) => at == 2 && answers(flow, replies, 1, ActionView::CreateDirs(dir))
            && replies[1] is Success,
        None => at == 1,
    }
}

/// A bare repository that is reported was there, or was cloned from the
/// repository's URL, step by step, and every step worked.
#[verifier::rlimit(40)]
pub proof fn law_clone_is_made_whole(
    cfg: &Config,
    org: Seq<char>,
    repo: Seq<char>,
    replies: Seq<ReplyView>,
)
    requires
        ensure_bare_flow(cfg, org, repo, replies) matches FlowView::Done(result, _) && result is Ok,
    ensures
        ensure_bare_flow(cfg, org, repo, replies)->Done_0 == Ok::<Seq<u8>, GitErrorView>(
            cfg.bare_repo(org, repo),
        ),
        replies.len() > 0,
        replies[0] is Success || exists|tmp: Seq<u8>, at: int| #[trigger]
            is_cloned_at(cfg, org, repo, replies, tmp, at),
{
    lemma_bare(cfg, org, repo, replies);
    if replies[0] !is Success {
        let flow = |r: Seq<ReplyView>| ensure_bare_flow(cfg, org, repo, r);
        let bare = cfg.bare_repo(org, repo);
        let tmp = partial_clone(bare, repo);
        let script = clone_script(cfg, org, repo);
        lemma_stands_beside(bare, repo);
        let p = parent_steps(bare).len() as int;
        let at = 1 + p;
        assert(p <= 1);
        assert forall|i: int| 0 <= i < script.len() implies {
            &&& #[trigger] answers(flow, replies, 1 + i, script[i].action)
            &&& goes_on(script[i], replies[1 + i])
        } by {
            assert(goes_on(script[i], replies[1 + i]));
        }
        assert(script.len() == p + 5);
        assert(answers(flow, replies, 1 + p, script[p].action));
        assert(answers(flow, replies, 1 + (p + 1), script[p + 1].action));
        assert(answers(flow, replies, 1 + (p + 2), script[p + 2].action));
        assert(answers(flow, replies, 1 + (p + 3), script[p + 3].action));
        assert(answers(flow, replies, 1 + (p + 4), script[p + 4].action));
        if p == 1 {
            assert(answers(flow, replies, 1 + (p - 1), script[p - 1].action));
        }
        assert(is_cloned_at(cfg, org, repo, replies, tmp, at));
    }
}

/// Whether git's complaint means that the remote has no such repository or
/// does not show it: it speaks of something not found, or of credentials.
pub open spec fn means_no_repository(complaint: Seq<char>) -> bool {
    ||| occurs("not found"@, complaint)
    ||| occurs("could not read Username"@, complaint)
    ||| occurs("Authentication failed"@, complaint)
}

pub proof fn lemma_found_in_found(s: Seq<char>)
    ensures
        occurs("Repository not found"@, s) ==> occurs("not found"@, s),
{
    reveal_strlit("Repository not found");
    reveal_strlit("not found");
    let long = "Repository not found"@;
    let short = "not found"@;
    if occurs(long, s) {
        let i = choose|i: int|
            0 <= i && i + long.len() <= s.len() && #[trigger] s.subrange(i, i + long.len()) == long;
        assert(long.subrange(11, 20) =~= short);
        assert(s.subrange(i + 11, i + 11 + short.len()) =~= s.subrange(i, i + long.len()).subrange(
            11,
            20,
        ));
    }
}

/// A remote that refuses the repository is reported as a missing repository,
/// by name, exactly if it said so; any other complaint is reported as it is.
/// That holds of a listing and of a clone.
pub proof fn law_refused_repositories(
    cfg: &Config,
    org: Seq<char>,
    repo: Seq<char>,
    replies: Seq<ReplyView>,
    stderr: Seq<u8>,
    args: Seq<Seq<char>>,
)
    requires
        replies.len() > 0,
        replies.last() == ReplyView::Refused(stderr),
    ensures
        ({
            let before = replies.drop_last();
            let missing = GitErrorView::RepoNotFound(org + "/"@ + repo);
            let failed = GitErrorView::CommandFailed { args, stderr: lossy(stderr) };
            let error = if means_no_repository(lossy(stderr)) {
                missing
            } else {
                failed
            };
            &&& ls_remote_flow(cfg, org, repo, before) == FlowView::<Seq<Seq<char>>>::Ask(
                git(None, args),
            ) ==> (ls_remote_flow(cfg, org, repo, replies) matches FlowView::Done(result, _)
                && result == Err::<Seq<Seq<char>>, GitErrorView>(error))
            &&& ensure_bare_flow(cfg, org, repo, before) == FlowView::<Seq<u8>>::Ask(git(None, args))
                ==> (ensure_bare_flow(cfg, org, repo, replies) matches FlowView::Done(result, _)
                && result == Err::<Seq<u8>, GitErrorView>(error))
        }),
{
    lemma_found_in_found(lossy(stderr));
    let before = replies.drop_last();
    if ensure_bare_flow(cfg, org, repo, before) == FlowView::<Seq<u8>>::Ask(git(None, args)) {
        let script = clone_script(cfg, org, repo);
        let heard = replies.skip(1);
        lemma_script_run(script, before.skip(1));
        let i = heard.len() - 1;
        assert(before.skip(1) =~= heard.drop_last());
        assert(parent_steps(cfg.bare_repo(org, repo)).len() <= 1);
        lemma_script_stops(script, heard);
        assert(replies[0] == before[0]);
    }
}

/// A script that is told of a failure that matters stops there.
proof fn lemma_script_stops(script: Seq<StepView>, replies: Seq<ReplyView>)
    requires
        replies.len() > 0,
        script_run(script, replies.drop_last()) is Ask,
        !goes_on(script[replies.len() - 1], replies.last()),
    ensures
        script_run(script, replies) == ScriptEndView::Stopped(
            reported(
                script[replies.len() - 1].on_failure,
                failure(script[replies.len() - 1].action, replies.last()),
            ),
        ),
    decreases replies.len(),
{
    if replies.len() > 1 {
        let s = script.drop_first();
        let r = replies.drop_first();
        lemma_script_run(script, replies.drop_last());
        assert(goes_on(script[0], replies.drop_last()[0]));
        assert(replies.drop_last().drop_first() =~= r.drop_last());
        lemma_script_stops(s, r);
    } else {
        assert(replies.drop_last().len() == 0);
        assert(replies[0] == replies.last());
        lemma_script_run(script, replies.drop_last());
    }
}

/// The queries ask for exactly this, and nothing where they have it: the
/// branches of the URL, the symbolic HEAD of the URL, the remote-tracking refs
/// and the worktrees of the bare repository, the last two only where that is
/// there.
pub proof fn law_queries_ask(
    cfg: &Config,
    org: Seq<char>,
    repo: Seq<char>,
    there: ReplyView,
)
    ensures
        ({
            let bare = cfg.bare_repo(org, repo);
            let none = Seq::<ReplyView>::empty();
            let marker = ActionView::Exists(path_join(bare, utf8("HEAD"@)));
            &&& ls_remote_flow(cfg, org, repo, none) == FlowView::<Seq<Seq<char>>>::Ask(
                git(None, seq!["ls-remote"@, "--heads"@, cfg.url(org, repo)]),
            )
            &&& default_branch_flow(cfg, org, repo, none) == FlowView::<Seq<char>>::Ask(
                git(None, seq!["ls-remote"@, "--symref"@, cfg.url(org, repo), "HEAD"@]),
            )
            &&& local_heads_flow(cfg, org, repo, none) == FlowView::<Seq<Seq<char>>>::Ask(marker)
            &&& list_worktrees_flow(cfg, org, repo, none) == FlowView::<
                Seq<(Seq<char>, Seq<u8>)>,
            >::Ask(marker)
            &&& if there is Success {
                &&& local_heads_flow(cfg, org, repo, seq![there]) == FlowView::<
                    Seq<Seq<char>>,
                >::Ask(
                    git(
                        Some(bare),
                        seq!["for-each-ref"@, "--format=%(refname)"@, "refs/remotes/origin/"@],
                    ),
                )
                &&& list_worktrees_flow(cfg, org, repo, seq![there]) == FlowView::<
                    Seq<(Seq<char>, Seq<u8>)>,
                >::Ask(git(Some(bare), seq!["worktree"@, "list"@, "--porcelain"@]))
            } else {
                &&& local_heads_flow(cfg, org, repo, seq![there]) matches FlowView::Done(
                    result,
                    used,
                ) && used == 1 && result == Err::<Seq<Seq<char>>, GitErrorView>(
                    GitErrorView::RepoNotFound(org + "/"@ + repo),
                )
                &&& list_worktrees_flow(cfg, org, repo, seq![there]) matches FlowView::Done(
                    result,
                    used,
                ) && used == 1 && result == Ok::<Seq<(Seq<char>, Seq<u8>)>, GitErrorView>(Seq::empty())
            }
        }),
{
    assert(seq![there].skip(1) =~= Seq::empty());
}

/// What git printed is what the queries report, read line by line; where git
/// failed, they fail. Either way they have used every reply they asked for.
pub proof fn law_queries_report(
    cfg: &Config,
    org: Seq<char>,
    repo: Seq<char>,
    there: Seq<u8>,
    reply: ReplyView,
)
    ensures
        ({
            let marker = ReplyView::Success(there);
            &&& ls_remote_flow(cfg, org, repo, seq![reply]) matches FlowView::Done(result, used)
                && used == 1 && match reply {
                ReplyView::Success(out) => result == Ok::<Seq<Seq<char>>, GitErrorView>(
                    heads_in(lossy(out)),
                ),
                _ => result is Err,
            }
            &&& default_branch_flow(cfg, org, repo, seq![reply]) matches FlowView::Done(result, used)
                && used == 1 && match reply {
                ReplyView::Success(out) => result == Ok::<Seq<char>, GitErrorView>(
                    default_branch_in(lossy(out)),
                ),
                _ => result is Err,
            }
            &&& local_heads_flow(cfg, org, repo, seq![marker, reply]) matches FlowView::Done(
                result,
                used,
            ) && used == 2 && match reply {
                ReplyView::Success(out) => result == Ok::<Seq<Seq<char>>, GitErrorView>(
                    tracked_heads_in(lossy(out)),
                ),
                _ => result is Err,
            }
            &&& list_worktrees_flow(cfg, org, repo, seq![marker, reply]) matches FlowView::Done(
                result,
                used,
            ) && used == 2 && match reply {
                ReplyView::Success(out) => result == Ok::<
                    Seq<(Seq<char>, Seq<u8>)>,
                    GitErrorView,
                >(worktrees_in(lossy(out))),
                _ => result is Err,
            }
        }),
{
    let marker = ReplyView::Success(there);
    assert(seq![marker, reply].skip(1) =~= seq![reply]);
}

/// The branches that were last fetched are asked for exactly where the remote
/// did not list its own. What the remote lists is reported as it is, and where
/// it lists nothing, what was last fetched, if that is known.
pub proof fn law_last_fetched_is_the_fallback(
    cfg: &Config,
    org: Seq<char>,
    repo: Seq<char>,
    first: ReplyView,
    more: Seq<ReplyView>,
)
    ensures
        ({
            let flow = known_heads_flow(cfg, org, repo, seq![first] + more);
            match first {
                ReplyView::Success(out) => {
                    &&& flow matches FlowView::Done(Ok(heads), used) && used == 1
                        && heads.remote == Ok::<Seq<Seq<char>>, GitErrorView>(heads_in(lossy(out)))
                        && heads.local is None
                },
                _ => match local_heads_flow(cfg, org, repo, more) {
                    FlowView::Ask(action) => flow == FlowView::<KnownHeadsView>::Ask(action),
                    FlowView::Done(result, more_used) => {
                        &&& flow matches FlowView::Done(Ok(heads), used) && used == 1 + more_used
                            && heads.remote is Err && (
                        heads.local == match result {
                            Ok(names) => Some(names),
                            Err(_) => None::<Seq<Seq<char>>>,
                        })
                    },
                },
            }
        }),
{
    assert((seq![first] + more).skip(1) =~= more);
}

/// What an operation asks for that needs the bare repository: what the making
/// of that asks for, or a step of its own.
proof fn lemma_with_bare_asks<V>(
    cfg: &Config,
    org: Seq<char>,
    repo: Seq<char>,
    script: Seq<StepView>,
    replies: Seq<ReplyView>,
    before: nat,
    value: V,
    action: ActionView,
) -> (own: int)
    requires
        before <= replies.len(),
        with_bare(cfg, org, repo, script, replies, before, value) == FlowView::<V>::Ask(action),
    ensures
        own < 0 ==> ensure_bare_flow(cfg, org, repo, replies.skip(before as int)) == FlowView::<
            Seq<u8>,
        >::Ask(action),
        own >= 0 ==> own < script.len() && action == script[own].action,
{
    let later = replies.skip(before as int);
    match ensure_bare_flow(cfg, org, repo, later) {
        FlowView::Ask(_) => -1int,
        FlowView::Done(Ok(_), used) => {
            lemma_bare(cfg, org, repo, later);
            let rest = replies.skip((before + used) as int);
            lemma_script_run(script, rest);
            rest.len() as int
        },
        FlowView::Done(Err(_), _) => -1int,
    }
}

/// Where an action is a step of a script whose answer is final for an
/// operation: the operation ends in the error of that answer.
proof fn lemma_with_bare_stops<V>(
    cfg: &Config,
    org: Seq<char>,
    repo: Seq<char>,
    script: Seq<StepView>,
    replies: Seq<ReplyView>,
    before: nat,
    value: V,
    own: int,
)
    requires
        before < replies.len(),
        0 <= own < script.len(),
        with_bare(cfg, org, repo, script, replies.drop_last(), before, value) == FlowView::<V>::Ask(
            script[own].action,
        ),
        ensure_bare_flow(cfg, org, repo, replies.drop_last().skip(before as int)) !is Ask,
        !goes_on(script[own], replies.last()),
        forall|i: int|
            0 <= i < script.len() && (#[trigger] script[i]).action == script[own].action ==> i == own,
    ensures
        with_bare(cfg, org, repo, script, replies, before, value) matches FlowView::Done(result, _)
            && result == Err::<V, GitErrorView>(
            reported(script[own].on_failure, failure(script[own].action, replies.last())),
        ),
{
    let shorter = replies.drop_last();
    let later = shorter.skip(before as int);
    match ensure_bare_flow(cfg, org, repo, later) {
        FlowView::Done(Ok(_), used) => {
            lemma_bare(cfg, org, repo, later);
            let whole = replies.skip(before as int);
            assert(whole.take(later.len() as int) =~= later);
            assert(whole.drop_last() =~= later);
            lemma_bare_goes_on(cfg, org, repo, whole, used);
            let start = (before + used) as int;
            let rest = replies.skip(start);
            assert(rest.drop_last() =~= shorter.skip(start));
            lemma_script_run(script, rest.drop_last());
            assert(script[rest.len() - 1].action == script[own].action);
            lemma_script_stops(script, rest);
        },
        _ => {},
    }
}

/// Once the bare repository is there, more replies do not change that.
proof fn lemma_bare_goes_on(
    cfg: &Config,
    org: Seq<char>,
    repo: Seq<char>,
    replies: Seq<ReplyView>,
    used: nat,
)
    requires
        replies.len() > 0,
        ensure_bare_flow(cfg, org, repo, replies.drop_last()) matches FlowView::Done(result, n)
            && result is Ok && n == used,
    ensures
        ensure_bare_flow(cfg, org, repo, replies) == ensure_bare_flow(
            cfg,
            org,
            repo,
            replies.drop_last(),
        ),
{
    let shorter = replies.drop_last();
    lemma_bare(cfg, org, repo, shorter);
    assert(replies[0] == shorter[0]);
    if replies[0] !is Success {
        let script = clone_script(cfg, org, repo);
        let heard = replies.skip(1);
        assert forall|j: int| 0 <= j < script.len() implies goes_on(#[trigger] script[j], heard[j]) by {
            assert(goes_on(script[j], shorter[1 + j]));
            assert(heard[j] == shorter[1 + j]);
        }
        lemma_script_finishes(script, heard);
    }
}

/// Checking out a branch asks for nothing but this: whether its worktree is
/// there, what the making of the bare repository asks for, and in the bare
/// repository the pruning of worktrees that are gone and a new worktree at the
/// branch's path, on a local branch of the same name that tracks the branch of
/// the remote.
#[verifier::spinoff_prover]
#[verifier::rlimit(60)]
pub proof fn law_checkout_asks(
    cfg: &Config,
    org: Seq<char>,
    repo: Seq<char>,
    branch: Seq<char>,
    replies: Seq<ReplyView>,
)
    ensures
        ({
            let bare = cfg.bare_repo(org, repo);
            let wt = cfg.worktree(org, repo, branch);
            &&& ensure_worktree_flow(cfg, org, repo, branch, Seq::empty()) == FlowView::<
                Seq<u8>,
            >::Ask(ActionView::Exists(path_join(wt, utf8(".git"@))))
            &&& replies.len() > 0 ==> (ensure_worktree_flow(
                cfg,
                org,
                repo,
                branch,
                replies,
            ) matches FlowView::Ask(action) ==> {
                ||| ensure_bare_flow(cfg, org, repo, replies.drop_first()) == FlowView::<
                    Seq<u8>,
                >::Ask(action)
                ||| action == git(Some(bare), seq!["worktree"@, "prune"@])
                ||| action matches ActionView::CreateDirs(dir) && path_parent(wt) == Some(dir)
                ||| action == git(
                    Some(bare),
                    seq![
                        "worktree"@,
                        "add"@,
                        "--track"@,
                        "-B"@,
                        branch,
                        lossy(wt),
                        "origin/"@ + branch,
                    ],
                )
            })
        }),
{
    let wt = cfg.worktree(org, repo, branch);
    if replies.len() > 0 && replies[0] !is Success {
        if let FlowView::Ask(action) = ensure_worktree_flow(cfg, org, repo, branch, replies) {
            let script = checkout_script(cfg, org, repo, branch);
            let own = lemma_with_bare_asks(cfg, org, repo, script, replies, 1, wt, action);
            assert(replies.skip(1) =~= replies.drop_first());
            assert(parent_steps(wt).len() <= 1);
        }
    }
}

/// A worktree that is reported is the branch's own, and was there, or was
/// added: right before the end, git worked when it was asked for a worktree at
/// the branch's path, on a local branch of the same name that tracks the branch
/// of the remote.
#[verifier::spinoff_prover]
#[verifier::rlimit(60)]
pub proof fn law_checkout_is_of_the_branch(
    cfg: &Config,
    org: Seq<char>,
    repo: Seq<char>,
    branch: Seq<char>,
    replies: Seq<ReplyView>,
)
    requires
        ensure_worktree_flow(cfg, org, repo, branch, replies) matches FlowView::Done(result, _)
            && result is Ok,
    ensures
        ({
            let flow = |r: Seq<ReplyView>| ensure_worktree_flow(cfg, org, repo, branch, r);
            let bare = cfg.bare_repo(org, repo);
            let wt = cfg.worktree(org, repo, branch);
            let used = ensure_worktree_flow(cfg, org, repo, branch, replies)->Done_1;
            let add = git(
                Some(bare),
                seq![
                    "worktree"@,
                    "add"@,
                    "--track"@,
                    "-B"@,
                    branch,
                    lossy(wt),
                    "origin/"@ + branch,
                ],
            );
            &&& ensure_worktree_flow(cfg, org, repo, branch, replies)->Done_0 == Ok::<
                Seq<u8>,
                GitErrorView,
            >(wt)
            &&& replies.len() > 0
            &&& replies[0] is Success || {
                &&& answers(flow, replies, used - 1, add)
                &&& replies[used - 1] is Success
                &&& path_parent(wt) matches Some(dir) ==> answers(
                    flow,
                    replies,
                    used - 2,
                    ActionView::CreateDirs(dir),
                ) && replies[used - 2] is Success
            }
        }),
{
    let wt = cfg.worktree(org, repo, branch);
    if replies[0] !is Success {
        let flow = |r: Seq<ReplyView>| ensure_worktree_flow(cfg, org, repo, branch, r);
        let script = checkout_script(cfg, org, repo, branch);
        let start = lemma_with_bare(cfg, org, repo, script, replies, 1, wt);
        let n = script.len() as int;
        assert(parent_steps(wt).len() <= 1);
        assert(n == 2 + parent_steps(wt).len());
        assert(goes_on(script[n - 1], replies[start + (n - 1)]));
        assert(replies.take(start + (n - 1))[0] == replies[0]);
        if path_parent(wt) is Some {
            assert(goes_on(script[n - 2], replies[start + (n - 2)]));
            assert(replies.take(start + (n - 2))[0] == replies[0]);
        }
    }
}

/// Whether git's complaint means that there is no such branch.
pub open spec fn means_no_branch(complaint: Seq<char>) -> bool {
    occurs("invalid reference"@, complaint) || occurs("not a valid"@, complaint)
}

/// Where git refuses the worktree, the branch is reported as missing, by name,
/// exactly if git said so; any other complaint is reported as it is.
pub proof fn law_refused_checkouts(
    cfg: &Config,
    org: Seq<char>,
    repo: Seq<char>,
    branch: Seq<char>,
    replies: Seq<ReplyView>,
    stderr: Seq<u8>,
)
    requires
        replies.len() > 0,
        replies.last() == ReplyView::Refused(stderr),
        ensure_worktree_flow(cfg, org, repo, branch, replies.drop_last()) == FlowView::<
            Seq<u8>,
        >::Ask(
            git(
                Some(cfg.bare_repo(org, repo)),
                seq![
                    "worktree"@,
                    "add"@,
                    "--track"@,
                    "-B"@,
                    branch,
                    lossy(cfg.worktree(org, repo, branch)),
                    "origin/"@ + branch,
                ],
            ),
        ),
    ensures
        ensure_worktree_flow(cfg, org, repo, branch, replies) matches FlowView::Done(result, _)
            && result == Err::<Seq<u8>, GitErrorView>(
            if means_no_branch(lossy(stderr)) {
                GitErrorView::BranchNotFound(org + "/"@ + repo + "@"@ + branch)
            } else {
                GitErrorView::CommandFailed {
                    args: seq![
                        "worktree"@,
                        "add"@,
                        "--track"@,
                        "-B"@,
                        branch,
                        lossy(cfg.worktree(org, repo, branch)),
                        "origin/"@ + branch,
                    ],
                    stderr: lossy(stderr),
                }
            },
        ),
{
    let bare = cfg.bare_repo(org, repo);
    let wt = cfg.worktree(org, repo, branch);
    let before = replies.drop_last();
    let script = checkout_script(cfg, org, repo, branch);
    let add = script.last().action;
    let own = lemma_with_bare_asks(cfg, org, repo, script, before, 1, wt, add);
    reveal_strlit("worktree");
    reveal_strlit("clone");
    reveal_strlit("config");
    reveal_strlit("fetch");
    reveal_strlit("prune");
    let args = add->args;
    assert(args[0].len() == 8);
    assert(parent_steps(wt).len() <= 1);
    if ensure_bare_flow(cfg, org, repo, before.skip(1)) is Ask {
        law_clone_asks(cfg, org, repo, before.skip(1));
        if before.skip(1).len() == 0 {
            assert(before.skip(1) =~= Seq::empty());
        }
        let tmp = choose|tmp: Seq<u8>| makes_bare(cfg, org, repo, tmp, add);
        assert(makes_bare(cfg, org, repo, tmp, add));
        assert(args[0] == "clone"@ || args[0] == "config"@ || args[0] == "fetch"@);
        assert("clone"@.len() == 5 && "config"@.len() == 6 && "fetch"@.len() == 5);
        assert(false);
    }
    let n = script.len() - 1;
    assert forall|i: int| 0 <= i < script.len() && (#[trigger] script[i]).action == script[n].action implies i
        == n by {
        if i == 0 {
            assert(script[0].action->args.len() == 2);
        }
    }
    assert(replies[0] == before[0]);
    lemma_with_bare_stops(cfg, org, repo, script, replies, 1, wt, n);
}

/// Whether a run of git belongs to the making of a branch: the pruning of
/// worktrees that are gone, a new worktree at the branch's path on a new local
/// branch that starts where the base of the remote stands, or the settings by
/// which a push goes to the branch's own name on the remote.
pub open spec fn makes_branch(
    cfg: &Config,
    org: Seq<char>,
    repo: Seq<char>,
    branch: Seq<char>,
    base: Seq<char>,
    args: Seq<Seq<char>>,
) -> bool {
    ||| args == seq!["worktree"@, "prune"@]
    ||| args == seq![
        "worktree"@,
        "add"@,
        "--no-track"@,
        "-b"@,
        branch,
        lossy(cfg.worktree(org, repo, branch)),
        "origin/"@ + base,
    ]
    ||| args == seq!["config"@, "branch."@ + branch + ".remote"@, "origin"@]
    ||| args == seq!["config"@, "branch."@ + branch + ".merge"@, "refs/heads/"@ + branch]
}

proof fn lemma_fork_step(
    cfg: &Config,
    org: Seq<char>,
    repo: Seq<char>,
    branch: Seq<char>,
    base: Seq<char>,
    i: int,
)
    requires
        0 <= i < fork_script(cfg, org, repo, branch, base).len(),
    ensures
        ({
            let wt = cfg.worktree(org, repo, branch);
            let action = fork_script(cfg, org, repo, branch, base)[i].action;
            ||| action matches ActionView::CreateDirs(dir) && path_parent(wt) == Some(dir)
            ||| action matches ActionView::Run { cwd, args } && cwd == Some(
                cfg.bare_repo(org, repo),
            ) && makes_branch(cfg, org, repo, branch, base, args)
        }),
{
    let above = parent_steps(cfg.worktree(org, repo, branch));
    assert(above.len() <= 1);
    let n = above.len() as int;
    assert(i == 0 || i < 1 + n || i == 1 + n || i == 2 + n || i == 3 + n);
}

/// Making a branch asks for nothing but this: what the making of the bare
/// repository asks for, and in the bare repository what belongs to the making
/// of the branch off its base.
#[verifier::spinoff_prover]
#[verifier::rlimit(60)]
pub proof fn law_fork_asks(
    cfg: &Config,
    org: Seq<char>,
    repo: Seq<char>,
    branch: Seq<char>,
    base: Seq<char>,
    replies: Seq<ReplyView>,
)
    ensures
        create_branch_flow(cfg, org, repo, branch, base, replies) matches FlowView::Ask(action) ==> {
            ||| ensure_bare_flow(cfg, org, repo, replies) == FlowView::<Seq<u8>>::Ask(action)
            ||| action matches ActionView::CreateDirs(dir) && path_parent(
                cfg.worktree(org, repo, branch),
            ) == Some(dir)
            ||| action matches ActionView::Run { cwd, args } && cwd == Some(
                cfg.bare_repo(org, repo),
            ) && makes_branch(cfg, org, repo, branch, base, args)
        },
{
    let wt = cfg.worktree(org, repo, branch);
    if let FlowView::Ask(action) = create_branch_flow(cfg, org, repo, branch, base, replies) {
        let script = fork_script(cfg, org, repo, branch, base);
        let own = lemma_with_bare_asks(cfg, org, repo, script, replies, 0, wt, action);
        assert(replies.skip(0) =~= replies);
        if own >= 0 {
            lemma_fork_step(cfg, org, repo, branch, base, own);
        }
    }
}

/// The worktree that a branch creation asks for stands where the branch's
/// worktree belongs, is on the branch, and starts at the base on the remote:
/// two different bases never give the same start.
#[verifier::spinoff_prover]
#[verifier::rlimit(60)]
pub proof fn law_forks_start_at_their_base(
    cfg: &Config,
    org: Seq<char>,
    repo: Seq<char>,
    branch: Seq<char>,
    base: Seq<char>,
    other: Seq<char>,
    replies: Seq<ReplyView>,
    cwd: Option<Seq<u8>>,
    args: Seq<Seq<char>>,
)
    requires
        create_branch_flow(cfg, org, repo, branch, base, replies) == FlowView::<Seq<u8>>::Ask(
            git(cwd, args),
        ),
        args.len() > 1,
        args[0] == "worktree"@,
        args[1] == "add"@,
    ensures
        cwd == Some(cfg.bare_repo(org, repo)),
        args.last() == "origin/"@ + base,
        args == seq![
            "worktree"@,
            "add"@,
            "--no-track"@,
            "-b"@,
            branch,
            lossy(cfg.worktree(org, repo, branch)),
            "origin/"@ + base,
        ],
        create_branch_flow(cfg, org, repo, branch, other, replies) == FlowView::<Seq<u8>>::Ask(
            git(cwd, args),
        ) <==> other == base,
{
    lemma_fork_add(cfg, org, repo, branch, base, replies, cwd, args);
    if create_branch_flow(cfg, org, repo, branch, other, replies) == FlowView::<Seq<u8>>::Ask(
        git(cwd, args),
    ) {
        lemma_fork_add(cfg, org, repo, branch, other, replies, cwd, args);
        let start = "origin/"@;
        assert(base =~= (start + base).skip(start.len() as int));
        assert(other =~= (start + other).skip(start.len() as int));
    }
}

#[verifier::spinoff_prover]
#[verifier::rlimit(60)]
proof fn lemma_fork_add(
    cfg: &Config,
    org: Seq<char>,
    repo: Seq<char>,
    branch: Seq<char>,
    base: Seq<char>,
    replies: Seq<ReplyView>,
    cwd: Option<Seq<u8>>,
    args: Seq<Seq<char>>,
)
    requires
        create_branch_flow(cfg, org, repo, branch, base, replies) == FlowView::<Seq<u8>>::Ask(
            git(cwd, args),
        ),
        args.len() > 1,
        args[0] == "worktree"@,
        args[1] == "add"@,
    ensures
        cwd == Some(cfg.bare_repo(org, repo)),
        args == seq![
            "worktree"@,
            "add"@,
            "--no-track"@,
            "-b"@,
            branch,
            lossy(cfg.worktree(org, repo, branch)),
            "origin/"@ + base,
        ],
{
    law_fork_asks(cfg, org, repo, branch, base, replies);
    reveal_strlit("worktree");
    reveal_strlit("add");
    reveal_strlit("prune");
    reveal_strlit("clone");
    reveal_strlit("config");
    reveal_strlit("fetch");
    assert("worktree"@.len() == 8 && "clone"@.len() == 5 && "config"@.len() == 6 && "fetch"@.len()
        == 5);
    assert("add"@.len() == 3 && "prune"@.len() == 5);
    let action = git(cwd, args);
    if ensure_bare_flow(cfg, org, repo, replies) == FlowView::<Seq<u8>>::Ask(action) {
        law_clone_asks(cfg, org, repo, replies);
        if replies.len() == 0 {
            assert(replies =~= Seq::empty());
        }
        let tmp = choose|tmp: Seq<u8>| makes_bare(cfg, org, repo, tmp, action);
        assert(args[0] == "clone"@ || args[0] == "config"@ || args[0] == "fetch"@);
    }
}

/// A branch that is reported as made is at its own path, and the last three
/// things that git did, and that worked, were the worktree off the base and the
/// two settings by which a push goes to the branch's own name on the remote.
#[verifier::spinoff_prover]
#[verifier::rlimit(60)]
pub proof fn law_fork_is_made_whole(
    cfg: &Config,
    org: Seq<char>,
    repo: Seq<char>,
    branch: Seq<char>,
    base: Seq<char>,
    replies: Seq<ReplyView>,
)
    requires
        create_branch_flow(cfg, org, repo, branch, base, replies) matches FlowView::Done(result, _)
            && result is Ok,
    ensures
        ({
            let flow = |r: Seq<ReplyView>| create_branch_flow(cfg, org, repo, branch, base, r);
            let bare = cfg.bare_repo(org, repo);
            let wt = cfg.worktree(org, repo, branch);
            let used = create_branch_flow(cfg, org, repo, branch, base, replies)->Done_1;
            &&& create_branch_flow(cfg, org, repo, branch, base, replies)->Done_0 == Ok::<
                Seq<u8>,
                GitErrorView,
            >(wt)
            &&& answers(
                flow,
                replies,
                used - 3,
                git(
                    Some(bare),
                    seq![
                        "worktree"@,
                        "add"@,
                        "--no-track"@,
                        "-b"@,
                        branch,
                        lossy(wt),
                        "origin/"@ + base,
                    ],
                ),
            )
            &&& replies[used - 3] is Success
            &&& answers(
                flow,
                replies,
                used - 2,
                git(Some(bare), seq!["config"@, "branch."@ + branch + ".remote"@, "origin"@]),
            )
            &&& replies[used - 2] is Success
            &&& answers(
                flow,
                replies,
                used - 1,
                git(
                    Some(bare),
                    seq!["config"@, "branch."@ + branch + ".merge"@, "refs/heads/"@ + branch],
                ),
            )
            &&& replies[used - 1] is Success
        }),
{
    let wt = cfg.worktree(org, repo, branch);
    let script = fork_script(cfg, org, repo, branch, base);
    let start = lemma_with_bare(cfg, org, repo, script, replies, 0, wt);
    let n = script.len() as int;
    assert(n == 4 + parent_steps(wt).len());
    assert(goes_on(script[n - 1], replies[start + (n - 1)]));
    assert(goes_on(script[n - 2], replies[start + (n - 2)]));
    assert(goes_on(script[n - 3], replies[start + (n - 3)]));
}

/// A fetch that is reported as done has fetched in the bare repository last,
/// and that worked.
pub proof fn law_fetch_fetches(
    cfg: &Config,
    org: Seq<char>,
    repo: Seq<char>,
    replies: Seq<ReplyView>,
)
    requires
        fetch_flow(cfg, org, repo, replies) matches FlowView::Done(result, _) && result is Ok,
    ensures
        ({
            let flow = |r: Seq<ReplyView>| fetch_flow(cfg, org, repo, r);
            let used = fetch_flow(cfg, org, repo, replies)->Done_1;
            &&& answers(
                flow,
                replies,
                used - 1,
                git(Some(cfg.bare_repo(org, repo)), seq!["fetch"@, "--no-tags"@, "origin"@]),
            )
            &&& replies[used - 1] is Success
        }),
{
    let script = seq![must(fetch_action(cfg.bare_repo(org, repo)))];
    let start = lemma_with_bare(cfg, org, repo, script, replies, 0, ());
    assert(goes_on(script[0], replies[start + 0int]));
}

} // verus!
