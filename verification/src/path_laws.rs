//! Where things stand, in terms of the bytes of paths; what is mounted; and how
//! git is run.

use crate::cli::{decimal, mount_options};
use crate::config::{path_join_all, Config, DEFAULT_BRANCH_TTL, DEFAULT_NEGATIVE_TTL, SECOND};
use crate::fspath::{
    components, is_parent_cut, lemma_join_components, lemma_name_components, path_join, path_parent,
    SEPARATOR,
};
use crate::git::git_environment;
use crate::text::{lemma_split_concat, lemma_split_none, split, utf8};
use vstd::prelude::*;

verus! {

/// An absolute name stands for itself. Any other stands in the directory: the
/// path begins with that of the directory and ends with the name, and between
/// them is one slash, unless the directory's path is empty or ends in one.
pub proof fn law_joined_paths(p: Seq<u8>, name: Seq<u8>)
    ensures
        ({
            let joined = path_join(p, name);
            let slash = 47u8;
            let between: int = if p.len() == 0 || p[p.len() - 1] == slash {
                0
            } else {
                1
            };
            if name.len() > 0 && name[0] == slash {
                joined == name
            } else {
                &&& joined.len() == p.len() + between + name.len()
                &&& forall|i: int| 0 <= i < p.len() ==> #[trigger] joined[i] == p[i]
                &&& between == 1 ==> joined[p.len() as int] == slash
                &&& forall|i: int|
                    0 <= i < name.len() ==> joined[p.len() + between + i] == #[trigger] name[i]
            }
        }),
{
}

/// What is joined to a directory as one step lies right in it: it has the
/// components of the directory and then its own, and the directory that holds
/// it has those of the directory.
pub proof fn law_joined_steps_lie_in_the_directory(p: Seq<u8>, name: Seq<u8>)
    requires
        name.len() > 0,
        name != seq![46u8],
        forall|i: int| 0 <= i < name.len() ==> #[trigger] name[i] != 47,
    ensures
        components(path_join(p, name)) == components(p).push(name),
        path_parent(path_join(p, name)) matches Some(dir) && components(dir) == components(p),
{
    assert(!name.contains(SEPARATOR));
    lemma_name_components(name);
    lemma_join_components(p, name);
    let joined = path_join(p, name);
    assert(components(p) + seq![name] =~= components(p).push(name));
    assert(components(joined).drop_last() =~= components(p));
    assert(joined.take(p.len() as int) =~= p);
    assert(name != seq![SEPARATOR]) by {
        assert(name[0] != SEPARATOR);
    }
    assert(is_parent_cut(joined, p.len() as int));
    lemma_least_cut(joined, p.len() as int);
}

proof fn lemma_least_cut(p: Seq<u8>, n: int)
    requires
        is_parent_cut(p, n),
    ensures
        exists|least: int| #[trigger]
            is_parent_cut(p, least) && forall|m: int| #[trigger] is_parent_cut(p, m) ==> least <= m,
    decreases n,
{
    if exists|m: int| #[trigger] is_parent_cut(p, m) && m < n {
        let m = choose|m: int| #[trigger] is_parent_cut(p, m) && m < n;
        lemma_least_cut(p, m);
    }
}

/// The root directory and the empty path lie in no directory.
pub proof fn law_nothing_holds_the_root(p: Seq<u8>)
    ensures
        components(p).len() == 0 || components(p).last() == seq![47u8] ==> path_parent(p) is None,
        path_parent(p) matches Some(dir) ==> {
            &&& components(dir) == components(p).drop_last()
            &&& dir.len() <= p.len()
            &&& forall|i: int| 0 <= i < dir.len() ==> #[trigger] dir[i] == p[i]
        },
{
    if exists|n: int| is_parent_cut(p, n) {
        let n = choose|n: int| is_parent_cut(p, n);
        lemma_least_cut(p, n);
    }
}

/// How the cache is laid out: below its root a directory for the host, below
/// that one for the bare repositories and one for the worktrees, below those the
/// organisations. A bare repository is called like the repository, with `.git`
/// after it; a worktree lies below a directory called like the repository, and
/// every further step of its branch leads one directory further down.
pub proof fn law_cache_layout(
    cfg: &Config,
    org: Seq<char>,
    repo: Seq<char>,
    branch: Seq<char>,
    step: Seq<char>,
)
    ensures
        ({
            let host = path_join(cfg.cache_root@, utf8(cfg.host@));
            let repos = path_join(path_join(host, utf8("repos"@)), utf8(org));
            let worktrees = path_join(path_join(host, utf8("worktrees"@)), utf8(org));
            &&& cfg.bare_repo(org, repo) == path_join(repos, utf8(repo + ".git"@))
            &&& !branch.contains('/') ==> cfg.worktree(org, repo, branch) == path_join(
                path_join(worktrees, utf8(repo)),
                utf8(branch),
            )
            &&& !step.contains('/') ==> cfg.worktree(org, repo, branch + seq!['/'] + step)
                == path_join(cfg.worktree(org, repo, branch), utf8(step))
        }),
{
    reveal_with_fuel(path_join_all, 5);
    let four = seq![cfg.host@, "repos"@, org, repo + ".git"@];
    assert(four.drop_last() =~= seq![cfg.host@, "repos"@, org]);
    assert(four.drop_last().drop_last() =~= seq![cfg.host@, "repos"@]);
    assert(four.drop_last().drop_last().drop_last() =~= seq![cfg.host@]);
    let above = seq![cfg.host@, "worktrees"@, org, repo];
    assert(above.drop_last() =~= seq![cfg.host@, "worktrees"@, org]);
    assert(above.drop_last().drop_last() =~= seq![cfg.host@, "worktrees"@]);
    assert(above.drop_last().drop_last().drop_last() =~= seq![cfg.host@]);
    if !branch.contains('/') {
        lemma_split_none(branch, '/');
        assert(split(branch, '/').drop_last() =~= Seq::<Seq<char>>::empty());
    }
    if !step.contains('/') {
        lemma_split_none(step, '/');
        lemma_split_concat(branch, '/', step);
        let steps = split(branch + seq!['/'] + step, '/');
        assert(steps.drop_last() =~= split(branch, '/'));
        assert(steps.last() == step);
    }
}

/// The number that decimal digits spell.
pub open spec fn spelled(digits: Seq<char>) -> int
    decreases digits.len(),
{
    if digits.len() == 0 {
        0
    } else {
        10 * spelled(digits.drop_last()) + (digits.last() as int - '0' as int)
    }
}

/// A number in decimal is made of digits, spells the number, and has no zero in
/// front unless it is one.
pub proof fn law_decimal(n: nat)
    ensures
        decimal(n).len() > 0,
        spelled(decimal(n)) == n,
        forall|i: int|
            0 <= i < decimal(n).len() ==> '0' as int <= (#[trigger] decimal(n)[i]) as int <= '9' as int,
        n > 0 ==> decimal(n)[0] != '0',
        n == 0 ==> decimal(n) == seq!['0'],
    decreases n,
{
    let d = decimal(n);
    if n < 10 {
        assert(d.drop_last() =~= Seq::<char>::empty());
        assert(spelled(d.drop_last()) == 0);
    } else {
        law_decimal(n / 10);
        assert(d.drop_last() =~= decimal(n / 10));
    }
}

/// A mount names its port twice, once for each of the two protocols, and is
/// otherwise the same whatever the port is.
pub proof fn law_mount_options(port: nat, other: nat)
    ensures
        ({
            let head = "soft,nolocks,vers=3,tcp,rsize=131072,wsize=131072,actimeo=5,port="@;
            let middle = ",mountport="@;
            let text = mount_options(port);
            let digits = decimal(port);
            &&& text.len() == head.len() + digits.len() + middle.len() + digits.len()
            &&& text.take(head.len() as int) == head
            &&& spelled(text.skip(head.len() as int).take(digits.len() as int)) == port
            &&& text.skip((head.len() + digits.len()) as int).take(middle.len() as int) == middle
            &&& spelled(text.skip((head.len() + digits.len() + middle.len()) as int)) == port
        }),
        mount_options(port) == mount_options(other) ==> port == other,
{
    law_decimal(port);
    law_decimal(other);
    lemma_mount_options(port);
    lemma_mount_options(other);
    if mount_options(port) == mount_options(other) {
        assert(decimal(port).len() == decimal(other).len());
    }
}

proof fn lemma_mount_options(port: nat)
    ensures
        ({
            let head = "soft,nolocks,vers=3,tcp,rsize=131072,wsize=131072,actimeo=5,port="@;
            let middle = ",mountport="@;
            let text = mount_options(port);
            let digits = decimal(port);
            &&& text.len() == head.len() + 2 * digits.len() + middle.len()
            &&& text.take(head.len() as int) == head
            &&& text.skip(head.len() as int).take(digits.len() as int) == digits
            &&& text.skip((head.len() + digits.len()) as int).take(middle.len() as int) == middle
            &&& text.skip((head.len() + digits.len() + middle.len()) as int) == digits
        }),
{
    let head = "soft,nolocks,vers=3,tcp,rsize=131072,wsize=131072,actimeo=5,port="@;
    let middle = ",mountport="@;
    let text = mount_options(port);
    let digits = decimal(port);
    assert(text.take(head.len() as int) =~= head);
    assert(text.skip(head.len() as int).take(digits.len() as int) =~= digits);
    assert(text.skip((head.len() + digits.len()) as int).take(middle.len() as int) =~= middle);
    assert(text.skip((head.len() + digits.len() + middle.len()) as int) =~= digits);
}

/// Git runs with prompts switched off, its own and those of ssh, and with no
/// other variable set.
pub proof fn law_git_never_prompts(name: Seq<char>, value: Seq<char>)
    ensures
        git_environment().contains((name, value)) <==> {
            ||| name == "GIT_TERMINAL_PROMPT"@ && value == "0"@
            ||| name == "GIT_SSH_COMMAND"@ && value == "ssh -oBatchMode=yes"@
        },
{
    let all = git_environment();
    assert(all[0] == ("GIT_TERMINAL_PROMPT"@, "0"@));
    assert(all[1] == ("GIT_SSH_COMMAND"@, "ssh -oBatchMode=yes"@));
}

/// Times are counted in nanoseconds; listings live for half a minute, and the
/// absence of a repository twice as long.
pub proof fn law_times_to_live()
    ensures
        SECOND == 1_000 * 1_000 * 1_000,
        DEFAULT_BRANCH_TTL == 30 * SECOND,
        DEFAULT_NEGATIVE_TTL == 2 * DEFAULT_BRANCH_TTL,
{
}

} // verus!
