//! What deletions and refreshes ask for, and in which order, whatever they are
//! told.

use crate::action::{goes_on, lemma_script_run, ActionView, FlowView, GitErrorView, ReplyView};
use crate::config::Config;
use crate::fspath::{components, path_join};
use crate::git::after_script;
use crate::git_laws::{answers, git, lemma_after_script};
use crate::porcelain::worktrees_in;
use crate::text::{lossy, trimmed, utf8};
use crate::text_laws::{is_blank, is_zero, law_trimmed_to_nothing, law_trimmed_to_zero};
use crate::upkeep::{
    clear_foreign, delete_flow, forget_script, refresh_flow, worktree_check, CheckView, ClearView,
};
use vstd::prelude::*;
use vstd::utf8::{decode_utf8, valid_utf8};

verus! {

/// Whether three replies show that a directory is a linked worktree of a bare
/// repository: the content of its `.git` file names a directory, and that
/// directory, made canonical, lies among the worktree records of the bare
/// repository, made canonical.
pub open spec fn show_a_worktree(content: ReplyView, gitdir: ReplyView, bare: ReplyView) -> bool {
    match (content, gitdir, bare) {
        (
            ReplyView::Success(text),
            ReplyView::Success(record),
            ReplyView::Success(repository),
        ) => {
            &&& valid_utf8(text)
            &&& "gitdir: "@.is_prefix_of(trimmed(decode_utf8(text)))
            &&& components(path_join(repository, utf8("worktrees"@))).is_prefix_of(
                components(record),
            )
        },
        _ => false,
    }
}

/// The directory that the content of a `.git` file names.
pub open spec fn named_gitdir(content: ReplyView) -> Seq<u8> {
    utf8(trimmed(decode_utf8(content->Success_0)).skip("gitdir: "@.len() as int))
}

proof fn lemma_check(path: Seq<u8>, bare: Seq<u8>, replies: Seq<ReplyView>)
    requires
        worktree_check(path, bare, replies) is Verdict,
    ensures
        ({
            let used = worktree_check(path, bare, replies)->Verdict_1;
            let ours = worktree_check(path, bare, replies)->Verdict_0;
            &&& 1 <= used <= replies.len()
            &&& forall|k: int|
                used <= k <= replies.len() ==> #[trigger] worktree_check(
                    path,
                    bare,
                    replies.take(k),
                ) == worktree_check(path, bare, replies)
            &&& worktree_check(path, bare, replies.take(0)) == CheckView::Ask(
                ActionView::ReadText(path_join(path, utf8(".git"@))),
            )
            &&& ours <==> replies.len() >= 3 && show_a_worktree(replies[0], replies[1], replies[2])
            &&& ours ==> {
                &&& used == 3
                &&& worktree_check(path, bare, replies.take(1)) == CheckView::Ask(
                    ActionView::Canonicalize(named_gitdir(replies[0])),
                )
                &&& worktree_check(path, bare, replies.take(2)) == CheckView::Ask(
                    ActionView::Canonicalize(bare),
                )
            }
        }),
{
    assert forall|k: int|
        worktree_check(path, bare, replies)->Verdict_1 <= k
            <= replies.len() implies #[trigger] worktree_check(path, bare, replies.take(k))
        == worktree_check(path, bare, replies) by {
        let part = replies.take(k);
        assert(part[0] == replies[0]);
        if k > 1 {
            assert(part[1] == replies[1]);
        }
        if k > 2 {
            assert(part[2] == replies[2]);
        }
    }
    if replies.len() >= 1 {
        assert(replies.take(1)[0] == replies[0]);
    }
    if replies.len() >= 2 {
        assert(replies.take(2)[0] == replies[0]);
        assert(replies.take(2)[1] == replies[1]);
    }
}

/// Whether the check of a directory started at a position, and the directory
/// was removed if the replies show a worktree.
pub open spec fn is_dealt_with(
    ask: spec_fn(Seq<ReplyView>) -> Option<ActionView>,
    replies: Seq<ReplyView>,
    at: int,
    path: Seq<u8>,
) -> bool {
    &&& 0 <= at < replies.len()
    &&& ask(replies.take(at)) == Some(ActionView::ReadText(path_join(path, utf8(".git"@))))
    &&& at + 2 < replies.len() && show_a_worktree(
        replies[at],
        replies[at + 1],
        replies[at + 2],
    ) ==> {
        &&& at + 3 < replies.len()
        &&& ask(replies.take(at + 3)) == Some(ActionView::RemoveTree(path))
    }
}

/// What the removal of foreign worktrees asks for.
spec fn clear_asks(c: ClearView) -> Option<ActionView> {
    match c {
        ClearView::Ask(action) => Some(action),
        ClearView::Done(_) => None,
    }
}

/// What the deletion of a branch asks for, given what it has heard.
pub open spec fn deletion_asks(
    cfg: &Config,
    org: Seq<char>,
    repo: Seq<char>,
    branch: Seq<char>,
) -> spec_fn(Seq<ReplyView>) -> Option<ActionView> {
    |replies: Seq<ReplyView>|
        match delete_flow(cfg, org, repo, branch, replies) {
            FlowView::Ask(action) => Some(action),
            FlowView::Done(_, _) => None,
        }
}

proof fn lemma_take_skip(replies: Seq<ReplyView>, m: int, k: int)
    requires
        0 <= m <= k <= replies.len(),
    ensures
        replies.take(k).skip(m) == replies.skip(m).take(k - m),
{
    assert(replies.take(k).skip(m) =~= replies.skip(m).take(k - m));
}

proof fn lemma_cleared(
    list: Seq<(Seq<char>, Seq<u8>)>,
    branch: Seq<char>,
    wt: Seq<u8>,
    bare: Seq<u8>,
    replies: Seq<ReplyView>,
)
    requires
        clear_foreign(list, branch, wt, bare, replies) is Done,
    ensures
        ({
            let n = clear_foreign(list, branch, wt, bare, replies)->Done_0;
            &&& n <= replies.len()
            &&& forall|k: int|
                n <= k <= replies.len() ==> #[trigger] clear_foreign(
                    list,
                    branch,
                    wt,
                    bare,
                    replies.take(k),
                ) == ClearView::Done(n)
        }),
    decreases list.len(),
{
    if list.len() > 0 {
        let (b, path) = list[0];
        let rest = list.drop_first();
        if b != branch || components(path) == components(wt) {
            lemma_cleared(rest, branch, wt, bare, replies);
            assert forall|k: int|
                clear_foreign(list, branch, wt, bare, replies)->Done_0 <= k
                    <= replies.len() implies #[trigger] clear_foreign(
                list,
                branch,
                wt,
                bare,
                replies.take(k),
            ) == clear_foreign(list, branch, wt, bare, replies) by {
                assert(clear_foreign(rest, branch, wt, bare, replies.take(k)) == clear_foreign(
                    rest,
                    branch,
                    wt,
                    bare,
                    replies,
                ));
            }
        } else {
            lemma_check(path, bare, replies);
            let used = worktree_check(path, bare, replies)->Verdict_1;
            let ours = worktree_check(path, bare, replies)->Verdict_0;
            let m: int = if ours {
                used + 1int
            } else {
                used as int
            };
            let later = replies.skip(m);
            lemma_cleared(rest, branch, wt, bare, later);
            assert forall|k: int|
                clear_foreign(list, branch, wt, bare, replies)->Done_0 <= k
                    <= replies.len() implies #[trigger] clear_foreign(
                list,
                branch,
                wt,
                bare,
                replies.take(k),
            ) == clear_foreign(list, branch, wt, bare, replies) by {
                assert(worktree_check(path, bare, replies.take(k)) == worktree_check(
                    path,
                    bare,
                    replies,
                ));
                lemma_take_skip(replies, m, k);
                assert(clear_foreign(rest, branch, wt, bare, later.take(k - m)) == clear_foreign(
                    rest,
                    branch,
                    wt,
                    bare,
                    later,
                ));
            }
        }
    }
}

proof fn lemma_each_is_dealt_with(
    list: Seq<(Seq<char>, Seq<u8>)>,
    branch: Seq<char>,
    wt: Seq<u8>,
    bare: Seq<u8>,
    replies: Seq<ReplyView>,
    i: int,
) -> (at: int)
    requires
        clear_foreign(list, branch, wt, bare, replies) is Done,
        0 <= i < list.len(),
        list[i].0 == branch,
        components(list[i].1) != components(wt),
    ensures
        is_dealt_with(
            |r: Seq<ReplyView>| clear_asks(clear_foreign(list, branch, wt, bare, r)),
            replies,
            at,
            list[i].1,
        ),
        at < clear_foreign(list, branch, wt, bare, replies)->Done_0,
    decreases list.len(),
{
    lemma_cleared(list, branch, wt, bare, replies);
    let (b, path) = list[0];
    let rest = list.drop_first();
    let skipped = b != branch || components(path) == components(wt);
    if skipped {
        let at = lemma_each_is_dealt_with(rest, branch, wt, bare, replies, i - 1);
        assert(rest[i - 1] == list[i]);
        at
    } else {
        lemma_check(path, bare, replies);
        let used = worktree_check(path, bare, replies)->Verdict_1;
        let ours = worktree_check(path, bare, replies)->Verdict_0;
        let m: int = if ours {
            used + 1int
        } else {
            used as int
        };
        let later = replies.skip(m);
        lemma_cleared(rest, branch, wt, bare, later);
        if i == 0 {
            assert(replies.take(0) =~= replies.take(0));
            if ours {
                assert(worktree_check(path, bare, replies.take(3)) == worktree_check(
                    path,
                    bare,
                    replies,
                ));
            }
            0int
        } else {
            let at = lemma_each_is_dealt_with(rest, branch, wt, bare, later, i - 1);
            assert(rest[i - 1] == list[i]);
            lemma_take_skip(replies, m, m + at);
            assert(worktree_check(path, bare, replies.take(m + at)) == worktree_check(
                path,
                bare,
                replies,
            ));
            assert(later[at] == replies[m + at]);
            if at + 2 < later.len() {
                assert(later[at + 1] == replies[m + at + 1]);
                assert(later[at + 2] == replies[m + at + 2]);
            }
            if at + 3 < later.len() {
                lemma_take_skip(replies, m, m + at + 3);
                assert(worktree_check(path, bare, replies.take(m + at + 3)) == worktree_check(
                    path,
                    bare,
                    replies,
                ));
            }
            m + at
        }
    }
}

proof fn lemma_removal_follows_its_check(
    list: Seq<(Seq<char>, Seq<u8>)>,
    branch: Seq<char>,
    wt: Seq<u8>,
    bare: Seq<u8>,
    replies: Seq<ReplyView>,
    path: Seq<u8>,
)
    requires
        clear_foreign(list, branch, wt, bare, replies) == ClearView::Ask(
            ActionView::RemoveTree(path),
        ),
    ensures
        ({
            let n = replies.len() as int;
            &&& n >= 3
            &&& list.contains((branch, path))
            &&& components(path) != components(wt)
            &&& show_a_worktree(replies[n - 3], replies[n - 2], replies[n - 1])
            &&& clear_foreign(list, branch, wt, bare, replies.take(n - 3)) == ClearView::Ask(
                ActionView::ReadText(path_join(path, utf8(".git"@))),
            )
            &&& clear_foreign(list, branch, wt, bare, replies.take(n - 2)) == ClearView::Ask(
                ActionView::Canonicalize(named_gitdir(replies[n - 3])),
            )
            &&& clear_foreign(list, branch, wt, bare, replies.take(n - 1)) == ClearView::Ask(
                ActionView::Canonicalize(bare),
            )
        }),
    decreases list.len(),
{
    let (b, first) = list[0];
    let rest = list.drop_first();
    assert forall|x: (Seq<char>, Seq<u8>)| rest.contains(x) implies list.contains(x) by {
        let i = choose|i: int| 0 <= i < rest.len() && rest[i] == x;
        assert(list[i + 1] == x);
    }
    let n = replies.len() as int;
    if b != branch || components(first) == components(wt) {
        lemma_removal_follows_its_check(rest, branch, wt, bare, replies, path);
    } else {
        lemma_check(first, bare, replies);
        let used = worktree_check(first, bare, replies)->Verdict_1;
        let ours = worktree_check(first, bare, replies)->Verdict_0;
        if ours && n == used {
            assert(list[0] == (branch, path));
            assert(list.contains((branch, path)));
        } else {
            let m: int = if ours {
                used + 1int
            } else {
                used as int
            };
            let later = replies.skip(m);
            lemma_removal_follows_its_check(rest, branch, wt, bare, later, path);
            let k = later.len() as int;
            assert(later[k - 3] == replies[n - 3]);
            assert(later[k - 2] == replies[n - 2]);
            assert(later[k - 1] == replies[n - 1]);
            lemma_take_skip(replies, m, n - 3);
            lemma_take_skip(replies, m, n - 2);
            lemma_take_skip(replies, m, n - 1);
            assert(worktree_check(first, bare, replies.take(n - 3)) == worktree_check(
                first,
                bare,
                replies,
            ));
            assert(worktree_check(first, bare, replies.take(n - 2)) == worktree_check(
                first,
                bare,
                replies,
            ));
            assert(worktree_check(first, bare, replies.take(n - 1)) == worktree_check(
                first,
                bare,
                replies,
            ));
        }
    }
}

/// The worktrees that a deletion was told of.
pub open spec fn told_worktrees(replies: Seq<ReplyView>) -> Seq<(Seq<char>, Seq<u8>)> {
    if replies.len() > 3 && replies[1] is Success && replies[2] is Success {
        match replies[3] {
            ReplyView::Success(out) => worktrees_in(lossy(out)),
            _ => Seq::empty(),
        }
    } else {
        Seq::empty()
    }
}

/// How many replies a deletion takes before it deals with worktrees.
spec fn told(replies: Seq<ReplyView>) -> nat {
    if replies[2] is Success {
        4
    } else {
        3
    }
}

proof fn lemma_delete_at(
    cfg: &Config,
    org: Seq<char>,
    repo: Seq<char>,
    branch: Seq<char>,
    replies: Seq<ReplyView>,
    k: int,
)
    requires
        replies.len() >= 3,
        replies[1] is Success,
        told(replies) <= k <= replies.len(),
    ensures
        ({
            let wt = cfg.worktree(org, repo, branch);
            let bare = cfg.bare_repo(org, repo);
            let list = told_worktrees(replies);
            let t = told(replies);
            delete_flow(cfg, org, repo, branch, replies.take(k)) == match clear_foreign(
                list,
                branch,
                wt,
                bare,
                replies.skip(t as int).take(k - t),
            ) {
                ClearView::Ask(action) => FlowView::<()>::Ask(action),
                ClearView::Done(n) => after_script(
                    forget_script(bare, branch),
                    replies.take(k),
                    t + n,
                    (),
                ),
            }
        }),
{
    let part = replies.take(k);
    assert(part[1] == replies[1]);
    let later = part.skip(2);
    assert(later[0] == replies[2]);
    let t = told(replies) as int;
    lemma_take_skip(replies, t, k);
    if replies[2] is Success {
        assert(later.skip(1)[0] == replies[3]);
        if replies[3] !is Success {
            assert(told_worktrees(replies) =~= Seq::empty());
        }
    } else {
        assert(told_worktrees(replies) =~= Seq::empty());
    }
}

/// A deletion first removes the branch's own worktree, whatever else there is,
/// and then sees whether the repository is cloned. Where it is not, that is
/// all.
pub proof fn law_deletion_starts_with_the_worktree(
    cfg: &Config,
    org: Seq<char>,
    repo: Seq<char>,
    branch: Seq<char>,
    first: ReplyView,
    second: ReplyView,
)
    ensures
        delete_flow(cfg, org, repo, branch, Seq::empty()) == FlowView::<()>::Ask(
            ActionView::RemoveTree(cfg.worktree(org, repo, branch)),
        ),
        delete_flow(cfg, org, repo, branch, seq![first]) == FlowView::<()>::Ask(
            ActionView::Exists(path_join(cfg.bare_repo(org, repo), utf8("HEAD"@))),
        ),
        second !is Success ==> (delete_flow(
            cfg,
            org,
            repo,
            branch,
            seq![first, second],
        ) matches FlowView::Done(result, used) && result is Ok && used == 2),
        second is Success ==> delete_flow(cfg, org, repo, branch, seq![first, second]) is Ask,
{
    assert(seq![first, second].skip(2) =~= Seq::empty());
}

/// Git is run for a deletion only in the bare repository, and only to list
/// worktrees, to prune those that are gone, to delete the branch, to delete the
/// branch of that very name on the remote, and to fetch.
#[verifier::rlimit(40)]
pub proof fn law_deletion_runs(
    cfg: &Config,
    org: Seq<char>,
    repo: Seq<char>,
    branch: Seq<char>,
    replies: Seq<ReplyView>,
    cwd: Option<Seq<u8>>,
    args: Seq<Seq<char>>,
)
    requires
        delete_flow(cfg, org, repo, branch, replies) == FlowView::<()>::Ask(git(cwd, args)),
    ensures
        cwd == Some(cfg.bare_repo(org, repo)),
        args == seq!["worktree"@, "list"@, "--porcelain"@] || args == seq!["worktree"@, "prune"@]
            || args == seq!["branch"@, "-D"@, branch] || args == seq![
            "push"@,
            "origin"@,
            "--delete"@,
            branch,
        ] || args == seq!["fetch"@, "--prune"@, "--no-tags"@, "origin"@],
        args[0] == "push"@ ==> args == seq!["push"@, "origin"@, "--delete"@, branch],
        args[0] == "branch"@ ==> args == seq!["branch"@, "-D"@, branch],
{
    reveal_strlit("worktree");
    reveal_strlit("branch");
    reveal_strlit("push");
    reveal_strlit("fetch");
    assert("worktree"@.len() == 8 && "branch"@.len() == 6 && "push"@.len() == 4 && "fetch"@.len()
        == 5);
    assert("fetch"@[0] == 'f' && "push"@[0] == 'p');
    let wt = cfg.worktree(org, repo, branch);
    let bare = cfg.bare_repo(org, repo);
    if replies.len() == 2 {
        assert(replies.skip(2) =~= Seq::empty());
    } else if replies.len() >= 3 && told(replies) <= replies.len() {
        let n = replies.len() as int;
        lemma_delete_at(cfg, org, repo, branch, replies, n);
        assert(replies.take(n) =~= replies);
        let t = told(replies) as int;
        let rest = replies.skip(t).take(n - t);
        lemma_clear_runs_nothing(told_worktrees(replies), branch, wt, bare, rest);
        if let ClearView::Done(m) = clear_foreign(told_worktrees(replies), branch, wt, bare, rest) {
            lemma_script_run(forget_script(bare, branch), replies.skip(t + m));
        }
    }
}

proof fn lemma_clear_runs_nothing(
    list: Seq<(Seq<char>, Seq<u8>)>,
    branch: Seq<char>,
    wt: Seq<u8>,
    bare: Seq<u8>,
    replies: Seq<ReplyView>,
)
    ensures
        clear_foreign(list, branch, wt, bare, replies) matches ClearView::Ask(action) ==> action !is Run,
    decreases list.len(),
{
    if list.len() > 0 {
        let (b, path) = list[0];
        let rest = list.drop_first();
        lemma_clear_runs_nothing(rest, branch, wt, bare, replies);
        if let CheckView::Verdict(ours, used) = worktree_check(path, bare, replies) {
            lemma_clear_runs_nothing(rest, branch, wt, bare, replies.skip(used as int));
            lemma_clear_runs_nothing(rest, branch, wt, bare, replies.skip((used + 1) as int));
        }
    }
}

/// A deletion that is over has reached every place: where the repository is
/// cloned, it ended by pruning the worktrees, deleting the local branch,
/// deleting the branch of that very name on the remote, and fetching, in this
/// order.
#[verifier::rlimit(40)]
pub proof fn law_deletion_reaches_the_remote(
    cfg: &Config,
    org: Seq<char>,
    repo: Seq<char>,
    branch: Seq<char>,
    replies: Seq<ReplyView>,
)
    requires
        delete_flow(cfg, org, repo, branch, replies) is Done,
    ensures
        ({
            let flow = |r: Seq<ReplyView>| delete_flow(cfg, org, repo, branch, r);
            let bare = cfg.bare_repo(org, repo);
            let used = delete_flow(cfg, org, repo, branch, replies)->Done_1;
            &&& replies.len() >= 2
            &&& replies[1] is Success ==> {
                &&& answers(
                    flow,
                    replies,
                    used - 4,
                    git(Some(bare), seq!["worktree"@, "prune"@]),
                )
                &&& answers(
                    flow,
                    replies,
                    used - 3,
                    git(Some(bare), seq!["branch"@, "-D"@, branch]),
                )
                &&& answers(
                    flow,
                    replies,
                    used - 2,
                    git(Some(bare), seq!["push"@, "origin"@, "--delete"@, branch]),
                )
                &&& answers(
                    flow,
                    replies,
                    used - 1,
                    git(Some(bare), seq!["fetch"@, "--prune"@, "--no-tags"@, "origin"@]),
                )
            }
        }),
{
    let wt = cfg.worktree(org, repo, branch);
    let bare = cfg.bare_repo(org, repo);
    let flow = |r: Seq<ReplyView>| delete_flow(cfg, org, repo, branch, r);
    if replies[1] is Success {
        let n = replies.len() as int;
        if n == 2 {
            assert(replies.skip(2) =~= Seq::empty());
        }
        if n == 3 && replies[2] is Success {
            assert(replies.skip(2).skip(1) =~= Seq::empty());
        }
        let t = told(replies) as int;
        lemma_delete_at(cfg, org, repo, branch, replies, n);
        assert(replies.take(n) =~= replies);
        let list = told_worktrees(replies);
        let rest = replies.skip(t);
        assert(rest.take(n - t) =~= rest);
        let script = forget_script(bare, branch);
        lemma_cleared(list, branch, wt, bare, rest);
        let m = clear_foreign(list, branch, wt, bare, rest)->Done_0;
        let start = (t + m) as nat;
        lemma_script_run(script, replies.skip(start as int));
        lemma_after_script(script, replies, start, ());
        assert forall|i: int| 0 <= i < 4 implies #[trigger] answers(
            flow,
            replies,
            start + i,
            script[i].action,
        ) by {
            lemma_delete_at(cfg, org, repo, branch, replies, start + i);
            assert(clear_foreign(list, branch, wt, bare, rest.take(start + i - t))
                == ClearView::Done(m));
            assert(goes_on(script[i], replies[start + i]));
        }
        assert(answers(flow, replies, start + 0int, script[0].action));
        assert(answers(flow, replies, start + 1int, script[1].action));
        assert(answers(flow, replies, start + 2int, script[2].action));
        assert(answers(flow, replies, start + 3int, script[3].action));
    }
}

/// A deletion that is over has dealt with every other worktree that git lists
/// for the branch: it has read the worktree's `.git` file, and where that and
/// the canonical paths show a worktree of the repository, it has removed the
/// directory.
#[verifier::rlimit(40)]
pub proof fn law_deletion_deals_with_every_worktree(
    cfg: &Config,
    org: Seq<char>,
    repo: Seq<char>,
    branch: Seq<char>,
    replies: Seq<ReplyView>,
    path: Seq<u8>,
)
    requires
        delete_flow(cfg, org, repo, branch, replies) is Done,
        told_worktrees(replies).contains((branch, path)),
        components(path) != components(cfg.worktree(org, repo, branch)),
    ensures
        exists|at: int| #[trigger]
            is_dealt_with(deletion_asks(cfg, org, repo, branch), replies, at, path),
{
    let wt = cfg.worktree(org, repo, branch);
    let bare = cfg.bare_repo(org, repo);
    let list = told_worktrees(replies);
    let i = choose|i: int| 0 <= i < list.len() && list[i] == (branch, path);
    let n = replies.len() as int;
    let t = told(replies) as int;
    lemma_delete_at(cfg, org, repo, branch, replies, n);
    assert(replies.take(n) =~= replies);
    let rest = replies.skip(t);
    assert(rest.take(n - t) =~= rest);
    let at = lemma_each_is_dealt_with(list, branch, wt, bare, rest, i);
    lemma_cleared(list, branch, wt, bare, rest);
    let m = clear_foreign(list, branch, wt, bare, rest)->Done_0;
    lemma_delete_at(cfg, org, repo, branch, replies, t + at);
    let small = |r: Seq<ReplyView>| clear_asks(clear_foreign(list, branch, wt, bare, r));
    let flow = deletion_asks(cfg, org, repo, branch);
    assert(is_dealt_with(small, rest, at, path));
    assert(rest[at] == replies[t + at]);
    if at + 2 < rest.len() {
        assert(rest[at + 1] == replies[t + at + 1]);
        assert(rest[at + 2] == replies[t + at + 2]);
    }
    if at + 3 < rest.len() {
        lemma_delete_at(cfg, org, repo, branch, replies, t + at + 3);
        assert(rest.take(t + at + 3 - t) =~= rest.take(at + 3));
    }
    assert(rest.take(t + at - t) =~= rest.take(at));
    assert(is_dealt_with(flow, replies, t + at, path));
}

/// Apart from the branch's own worktree, a deletion removes only directories
/// that git lists for the branch, and each only right after three answers: the
/// content of its `.git` file, the canonical form of the directory that this
/// names, and the canonical form of the bare repository; and these show a
/// worktree of the repository.
pub proof fn law_deletion_removes_only_worktrees_it_checked(
    cfg: &Config,
    org: Seq<char>,
    repo: Seq<char>,
    branch: Seq<char>,
    replies: Seq<ReplyView>,
    path: Seq<u8>,
)
    requires
        replies.len() > 0,
        delete_flow(cfg, org, repo, branch, replies) == FlowView::<()>::Ask(
            ActionView::RemoveTree(path),
        ),
    ensures
        ({
            let flow = |r: Seq<ReplyView>| delete_flow(cfg, org, repo, branch, r);
            let n = replies.len() as int;
            &&& n > 3
            &&& told_worktrees(replies).contains((branch, path))
            &&& components(path) != components(cfg.worktree(org, repo, branch))
            &&& show_a_worktree(replies[n - 3], replies[n - 2], replies[n - 1])
            &&& answers(
                flow,
                replies,
                n - 3,
                ActionView::ReadText(path_join(path, utf8(".git"@))),
            )
            &&& answers(
                flow,
                replies,
                n - 2,
                ActionView::Canonicalize(named_gitdir(replies[n - 3])),
            )
            &&& answers(
                flow,
                replies,
                n - 1,
                ActionView::Canonicalize(cfg.bare_repo(org, repo)),
            )
        }),
{
    let wt = cfg.worktree(org, repo, branch);
    let bare = cfg.bare_repo(org, repo);
    let n = replies.len() as int;
    if n == 2 {
        assert(replies.skip(2) =~= Seq::empty());
    }
    if n == 3 && replies[2] is Success {
        assert(replies.skip(2).skip(1) =~= Seq::empty());
    }
    let t = told(replies) as int;
    lemma_delete_at(cfg, org, repo, branch, replies, n);
    assert(replies.take(n) =~= replies);
    let list = told_worktrees(replies);
    let rest = replies.skip(t);
    let k = rest.len() as int;
    assert(rest.take(n - t) =~= rest);
    match clear_foreign(list, branch, wt, bare, rest) {
        ClearView::Done(m) => {
            lemma_script_run(forget_script(bare, branch), replies.skip(t + m));
        },
        ClearView::Ask(_) => {
            lemma_removal_follows_its_check(list, branch, wt, bare, rest, path);
            assert(rest[k - 3] == replies[n - 3]);
            assert(rest[k - 2] == replies[n - 2]);
            assert(rest[k - 1] == replies[n - 1]);
            lemma_delete_at(cfg, org, repo, branch, replies, n - 3);
            lemma_delete_at(cfg, org, repo, branch, replies, n - 2);
            lemma_delete_at(cfg, org, repo, branch, replies, n - 1);
            assert(rest.take(n - 3 - t) =~= rest.take(k - 3));
            assert(rest.take(n - 2 - t) =~= rest.take(k - 2));
            assert(rest.take(n - 1 - t) =~= rest.take(k - 1));
        },
    }
}

/// Whether the replies to a refresh, in order, say that the repository is
/// cloned, that the worktree is there, that the fetch worked, that the status
/// report is nothing but white space, that the count of commits of its own is
/// zero, and that the count of commits that it lacks is not.
pub open spec fn allow_a_merge(replies: Seq<ReplyView>) -> bool {
    &&& replies.len() >= 6
    &&& replies[0] is Success
    &&& replies[1] is Success
    &&& replies[2] is Success
    &&& match (replies[3], replies[4], replies[5]) {
        (
            ReplyView::Success(status),
            ReplyView::Success(ahead),
            ReplyView::Success(behind),
        ) => {
            &&& is_blank(lossy(status))
            &&& is_zero(lossy(ahead))
            &&& !is_zero(lossy(behind))
        },
        _ => false,
    }
}

/// A refresh asks for a merge exactly where its replies allow one, and then for
/// the fast-forward of the branch's own worktree to the branch of the remote.
/// What the replies answer is whether the repository and the worktree are
/// there, a fetch in the repository, the status of the worktree, and the counts
/// of commits between the worktree and the branch of the remote.
pub proof fn law_refresh_merges_only_clean_worktrees(
    cfg: &Config,
    org: Seq<char>,
    repo: Seq<char>,
    branch: Seq<char>,
    replies: Seq<ReplyView>,
)
    ensures
        ({
            let flow = |r: Seq<ReplyView>| refresh_flow(cfg, org, repo, branch, r);
            let bare = cfg.bare_repo(org, repo);
            let wt = cfg.worktree(org, repo, branch);
            let upstream = "origin/"@ + branch;
            let now = refresh_flow(cfg, org, repo, branch, replies);
            &&& now == FlowView::<bool>::Ask(git(Some(wt), seq!["merge"@, "--ff-only"@, upstream]))
                <==> replies.len() == 6 && allow_a_merge(replies)
            &&& now matches FlowView::Ask(ActionView::Run { cwd, args }) ==> (args[0] == "merge"@
                ==> replies.len() == 6 && allow_a_merge(replies))
            &&& replies.len() >= 6 && allow_a_merge(replies) ==> {
                &&& answers(flow, replies, 0, ActionView::Exists(path_join(bare, utf8("HEAD"@))))
                &&& answers(flow, replies, 1, ActionView::Exists(path_join(wt, utf8(".git"@))))
                &&& answers(
                    flow,
                    replies,
                    2,
                    git(Some(bare), seq!["fetch"@, "--prune"@, "--no-tags"@, "origin"@]),
                )
                &&& answers(flow, replies, 3, git(Some(wt), seq!["status"@, "--porcelain"@]))
                &&& answers(
                    flow,
                    replies,
                    4,
                    git(Some(wt), seq!["rev-list"@, "--count"@, upstream + "..HEAD"@]),
                )
                &&& answers(
                    flow,
                    replies,
                    5,
                    git(Some(wt), seq!["rev-list"@, "--count"@, "HEAD.."@ + upstream]),
                )
            }
        }),
{
    lemma_merge_words();
    if replies.len() >= 4 {
        if let ReplyView::Success(status) = replies[3] {
            law_trimmed_to_nothing(lossy(status));
        }
    }
    if replies.len() >= 6 {
        if let ReplyView::Success(ahead) = replies[4] {
            law_trimmed_to_zero(lossy(ahead));
        }
        if let ReplyView::Success(behind) = replies[5] {
            law_trimmed_to_zero(lossy(behind));
        }
        assert(replies.take(1)[0] == replies[0]);
        assert(replies.take(2)[0] == replies[0] && replies.take(2)[1] == replies[1]);
        assert(replies.take(3)[0] == replies[0] && replies.take(3)[1] == replies[1] && replies.take(
            3,
        )[2] == replies[2]);
        assert(replies.take(4)[0] == replies[0] && replies.take(4)[1] == replies[1] && replies.take(
            4,
        )[2] == replies[2] && replies.take(4)[3] == replies[3]);
        assert(replies.take(5)[0] == replies[0] && replies.take(5)[1] == replies[1] && replies.take(
            5,
        )[2] == replies[2] && replies.take(5)[3] == replies[3]);
    }
    let wt = cfg.worktree(org, repo, branch);
    let merge = seq!["merge"@, "--ff-only"@, "origin/"@ + branch];
    assert(merge[0] == "merge"@);
    match refresh_flow(cfg, org, repo, branch, replies) {
        FlowView::Ask(ActionView::Run { cwd, args }) => {
            assert(args[0] == "merge"@ || args[0] == "fetch"@ || args[0] == "status"@ || args[0]
                == "rev-list"@);
        },
        _ => {},
    }
}

proof fn lemma_merge_words()
    ensures
        "merge"@ != "fetch"@,
        "merge"@ != "status"@,
        "merge"@ != "rev-list"@,
{
    reveal_strlit("merge");
    reveal_strlit("fetch");
    reveal_strlit("status");
    reveal_strlit("rev-list");
    assert("merge"@[0] == 'm' && "fetch"@[0] == 'f' && "status"@[0] == 's' && "rev-list"@[0] == 'r');
}

/// A refresh reports an update exactly if the merge was allowed and worked. It
/// fails only where the fetch or the allowed merge did, and leaves everything
/// alone otherwise.
pub proof fn law_refresh_reports(
    cfg: &Config,
    org: Seq<char>,
    repo: Seq<char>,
    branch: Seq<char>,
    replies: Seq<ReplyView>,
)
    requires
        replies.len() >= 7,
    ensures
        refresh_flow(cfg, org, repo, branch, replies) matches FlowView::Done(result, _) && {
            &&& result == Ok::<bool, GitErrorView>(true) <==> allow_a_merge(replies) && replies[6]
                is Success
            &&& result is Err <==> {
                ||| replies[0] is Success && replies[1] is Success && replies[2] !is Success
                ||| allow_a_merge(replies) && replies[6] !is Success
            }
        },
{
    if let ReplyView::Success(status) = replies[3] {
        law_trimmed_to_nothing(lossy(status));
    }
    if let ReplyView::Success(ahead) = replies[4] {
        law_trimmed_to_zero(lossy(ahead));
    }
    if let ReplyView::Success(behind) = replies[5] {
        law_trimmed_to_zero(lossy(behind));
    }
}

/// A refresh that is over has used the replies up to its last one, and no more:
/// without that one it would still ask, and nothing that comes later counts.
pub proof fn law_refresh_uses_its_replies(
    cfg: &Config,
    org: Seq<char>,
    repo: Seq<char>,
    branch: Seq<char>,
    replies: Seq<ReplyView>,
    result: Result<bool, GitErrorView>,
    used: nat,
    fewer: nat,
)
    requires
        refresh_flow(cfg, org, repo, branch, replies) == FlowView::Done(result, used),
        fewer < used,
    ensures
        used <= replies.len(),
        refresh_flow(cfg, org, repo, branch, replies.take(used as int)) == FlowView::Done(
            result,
            used,
        ),
        refresh_flow(cfg, org, repo, branch, replies.take(fewer as int)) is Ask,
{
}

} // verus!
