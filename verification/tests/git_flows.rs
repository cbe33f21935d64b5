use treeportfs::action::{Flow, GitAction, GitError, IoErrorKind, Reply};
use treeportfs::config::{Config, Protocol, SECOND};
use treeportfs::fspath::FsPath;
use treeportfs::git::{git_env, GitCache};
use treeportfs::porcelain::{
    already_there, branch_missing, parse_default_branch, parse_gitdir, parse_heads, parse_tracked_heads,
    parse_worktrees, repo_missing,
};

fn cache() -> GitCache {
    GitCache::new(Config {
        host: "h".to_string(),
        protocol: Protocol::Https,
        cache_root: FsPath::from_text("/c"),
        branch_ttl: 30 * SECOND,
        negative_ttl: 60 * SECOND,
    })
}

fn ok(text: &str) -> Reply {
    Reply::Success(text.as_bytes().to_vec())
}

fn refused(text: &str) -> Reply {
    Reply::Refused(text.as_bytes().to_vec())
}

fn show(action: &GitAction) -> String {
    fn p(path: &FsPath) -> String {
        String::from_utf8(path.as_bytes().to_vec()).unwrap()
    }
    match action {
        GitAction::Run { cwd, args } => match cwd {
            Some(dir) => format!("[{}] git {}", p(dir), args.join(" ")),
            None => format!("git {}", args.join(" ")),
        },
        GitAction::Exists(path) => format!("exists {}", p(path)),
        GitAction::CreateDirs(path) => format!("mkdir {}", p(path)),
        GitAction::RemoveTree(path) => format!("rm {}", p(path)),
        GitAction::Rename { from, to } => format!("mv {} {}", p(from), p(to)),
        GitAction::ReadText(path) => format!("read {}", p(path)),
        GitAction::Canonicalize(path) => format!("canon {}", p(path)),
    }
}

fn drive<T>(
    op: impl Fn(&[Reply]) -> Flow<T>,
    answer: impl Fn(&str) -> Reply,
) -> (Vec<String>, Result<T, GitError>) {
    let mut asked = Vec::new();
    let mut replies: Vec<Reply> = Vec::new();
    loop {
        match op(&replies) {
            Flow::Ask(action) => {
                let text = show(&action);
                replies.push(answer(&text));
                asked.push(text);
            }
            Flow::Done(result, _) => return (asked, result),
        }
    }
}

const CLONE: [&str; 7] = [
    "exists /c/h/repos/o/r.git/HEAD",
    "mkdir /c/h/repos/o",
    "rm /c/h/repos/o/r.git.partial",
    "git clone --bare --filter=blob:none --no-tags https://h/o/r.git /c/h/repos/o/r.git.partial",
    "[/c/h/repos/o/r.git.partial] git config remote.origin.fetch +refs/heads/*:refs/remotes/origin/*",
    "[/c/h/repos/o/r.git.partial] git fetch --no-tags origin",
    "mv /c/h/repos/o/r.git.partial /c/h/repos/o/r.git",
];

#[test]
fn remote_branches_are_listed() {
    let (asked, result) = drive(
        |r| cache().ls_remote_heads("o", "r", r),
        |_| ok("abc\trefs/heads/main\ndef\trefs/heads/feature/x\nbad\nxyz\trefs/tags/v1\n"),
    );
    assert_eq!(asked, vec!["git ls-remote --heads https://h/o/r.git"]);
    assert_eq!(result.unwrap(), vec!["main", "feature/x"]);
}

#[test]
fn a_refused_listing_carries_the_complaint() {
    let (_, result) = drive(|r| cache().ls_remote_heads("o", "r", r), |_| refused("no"));
    match result {
        Err(GitError::CommandFailed { args, stderr }) => {
            assert_eq!(args, vec!["ls-remote", "--heads", "https://h/o/r.git"]);
            assert_eq!(stderr, "no");
        }
        other => panic!("{other:?}"),
    }
    let (_, result) = drive(
        |r| cache().ls_remote_heads("o", "r", r),
        |_| Reply::Failed(IoErrorKind::NotFound),
    );
    assert!(matches!(result, Err(GitError::Io(IoErrorKind::NotFound))));
}

#[test]
fn a_rejected_repository_is_missing() {
    for text in ["remote: Repository not found.", "fatal: could not read Username for 'https://h'"] {
        let (_, result) = drive(|r| cache().ls_remote_heads("o", "r", r), |_| refused(text));
        assert!(matches!(result, Err(GitError::RepoNotFound(what)) if what == "o/r"));
    }
}

#[test]
fn output_that_is_no_text_is_read_all_the_same() {
    let (_, result) = drive(
        |r| cache().ls_remote_heads("o", "r", r),
        |_| Reply::Success(b"a\trefs/heads/x\xff\n".to_vec()),
    );
    assert_eq!(result.unwrap(), vec!["x\u{fffd}"]);
}

#[test]
fn a_repository_exists_if_it_can_be_listed() {
    assert!(drive(|r| cache().repo_exists("o", "r", r), |_| ok("")).1.unwrap());
    assert!(!drive(|r| cache().repo_exists("o", "r", r), |_| refused("x")).1.unwrap());
}

#[test]
fn the_default_branch_falls_back_to_main() {
    let (asked, result) = drive(
        |r| cache().default_branch("o", "r", r),
        |_| ok("ref: refs/heads/trunk\tHEAD\nabc\tHEAD\n"),
    );
    assert_eq!(asked, vec!["git ls-remote --symref https://h/o/r.git HEAD"]);
    assert_eq!(result.unwrap(), "trunk");
    assert_eq!(drive(|r| cache().default_branch("o", "r", r), |_| ok("abc\tHEAD\n")).1.unwrap(), "main");
}

#[test]
fn fetched_branches_serve_when_the_remote_is_away() {
    let (asked, result) = drive(|r| cache().local_heads("o", "r", r), |a| {
        if a.starts_with("exists") {
            ok("")
        } else {
            ok("refs/remotes/origin/main\nrefs/remotes/origin/a/b\n")
        }
    });
    assert_eq!(
        asked,
        vec![
            "exists /c/h/repos/o/r.git/HEAD",
            "[/c/h/repos/o/r.git] git for-each-ref --format=%(refname) refs/remotes/origin/"
        ]
    );
    assert_eq!(result.unwrap(), vec!["main", "a/b"]);
    let (_, result) =
        drive(|r| cache().local_heads("o", "r", r), |_| Reply::Failed(IoErrorKind::NotFound));
    assert!(matches!(result, Err(GitError::RepoNotFound(what)) if what == "o/r"));
}

#[test]
fn fetched_branches_are_looked_up_only_where_the_remote_is_away() {
    let (asked, result) =
        drive(|r| cache().known_heads("o", "r", r), |_| ok("a\trefs/heads/main\n"));
    assert_eq!(asked.len(), 1);
    let heads = result.unwrap();
    assert_eq!(heads.remote.unwrap(), vec!["main"]);
    assert!(heads.local.is_none());
    let (asked, result) = drive(|r| cache().known_heads("o", "r", r), |a| {
        if a.contains("ls-remote") {
            refused("timeout")
        } else {
            ok("refs/remotes/origin/main\n")
        }
    });
    assert_eq!(asked.len(), 3);
    let heads = result.unwrap();
    assert!(matches!(heads.remote, Err(GitError::CommandFailed { stderr, .. }) if stderr == "timeout"));
    assert_eq!(heads.local.unwrap(), vec!["main"]);
    let (asked, result) = drive(|r| cache().known_heads("o", "r", r), |_| refused("away"));
    assert_eq!(asked.len(), 2);
    assert!(result.unwrap().local.is_none());
}

#[test]
fn a_present_clone_is_left_alone() {
    let (asked, result) = drive(|r| cache().ensure_bare("o", "r", r), |_| ok(""));
    assert_eq!(asked, vec!["exists /c/h/repos/o/r.git/HEAD"]);
    assert_eq!(result.unwrap().as_bytes(), b"/c/h/repos/o/r.git");
}

#[test]
fn a_clone_is_made_aside_and_moved_into_place() {
    let (asked, result) = drive(|r| cache().ensure_bare("o", "r", r), |a| {
        if a.starts_with("exists") || a.starts_with("rm") {
            Reply::Failed(IoErrorKind::NotFound)
        } else {
            ok("")
        }
    });
    assert_eq!(asked, CLONE);
    assert_eq!(result.unwrap().as_bytes(), b"/c/h/repos/o/r.git");
}

#[test]
fn a_failed_fetch_leaves_no_clone() {
    let (asked, result) = drive(|r| cache().ensure_bare("o", "r", r), |a| {
        if a.starts_with("exists") {
            Reply::Failed(IoErrorKind::NotFound)
        } else if a.contains("git fetch") {
            refused("network")
        } else {
            ok("")
        }
    });
    assert_eq!(asked.last().unwrap(), CLONE[5]);
    assert!(matches!(result, Err(GitError::CommandFailed { .. })));
}

#[test]
fn a_missing_repository_is_recognised() {
    for text in ["ERROR: Repository not found.", "fatal: could not read Username for 'https'", "Authentication failed"] {
        let (_, result) = drive(|r| cache().ensure_bare("o", "r", r), |a| {
            if a.starts_with("exists") {
                Reply::Failed(IoErrorKind::NotFound)
            } else if a.contains("clone") {
                refused(text)
            } else {
                ok("")
            }
        });
        assert!(matches!(result, Err(GitError::RepoNotFound(what)) if what == "o/r"));
    }
    let e = cache().map_not_found(GitError::Io(IoErrorKind::Other), "x".to_string());
    assert!(matches!(e, GitError::Io(IoErrorKind::Other)));
}

#[test]
fn fetching_clones_first() {
    let (asked, result) = drive(|r| cache().fetch("o", "r", r), |_| ok(""));
    assert_eq!(
        asked,
        vec!["exists /c/h/repos/o/r.git/HEAD", "[/c/h/repos/o/r.git] git fetch --no-tags origin"]
    );
    assert!(result.is_ok());
}

#[test]
fn a_branch_is_checked_out_on_first_access() {
    let (asked, result) = drive(|r| cache().ensure_worktree("o", "r", "a/b", r), |a| {
        if a == "exists /c/h/worktrees/o/r/a/b/.git" || a.contains("prune") {
            refused("")
        } else {
            ok("")
        }
    });
    assert_eq!(
        asked,
        vec![
            "exists /c/h/worktrees/o/r/a/b/.git",
            "exists /c/h/repos/o/r.git/HEAD",
            "[/c/h/repos/o/r.git] git worktree prune",
            "mkdir /c/h/worktrees/o/r/a",
            "[/c/h/repos/o/r.git] git worktree add --track -B a/b /c/h/worktrees/o/r/a/b origin/a/b",
        ]
    );
    assert_eq!(result.unwrap().as_bytes(), b"/c/h/worktrees/o/r/a/b");
    let (asked, _) = drive(|r| cache().ensure_worktree("o", "r", "a/b", r), |_| ok(""));
    assert_eq!(asked.len(), 1);
}

#[test]
fn a_missing_branch_is_recognised() {
    for text in ["fatal: invalid reference: origin/x", "fatal: not a valid object name"] {
        let (_, result) = drive(|r| cache().ensure_worktree("o", "r", "x", r), |a| {
            if a.contains("worktrees/o/r/x/.git") {
                Reply::Failed(IoErrorKind::NotFound)
            } else if a.contains("worktree add") {
                refused(text)
            } else {
                ok("")
            }
        });
        assert!(matches!(result, Err(GitError::BranchNotFound(what)) if what == "o/r@x"));
    }
}

#[test]
fn a_new_branch_is_ready_to_be_pushed() {
    let (asked, result) =
        drive(|r| cache().create_branch_worktree("o", "r", "new", "main", r), |_| ok(""));
    assert_eq!(
        asked,
        vec![
            "exists /c/h/repos/o/r.git/HEAD",
            "[/c/h/repos/o/r.git] git worktree prune",
            "mkdir /c/h/worktrees/o/r",
            "[/c/h/repos/o/r.git] git worktree add --no-track -b new /c/h/worktrees/o/r/new origin/main",
            "[/c/h/repos/o/r.git] git config branch.new.remote origin",
            "[/c/h/repos/o/r.git] git config branch.new.merge refs/heads/new",
        ]
    );
    assert_eq!(result.unwrap().as_bytes(), b"/c/h/worktrees/o/r/new");
}

const LIST: &str = "worktree /c/h/repos/o/r.git\nbare\n\nworktree /c/h/worktrees/o/r/main\nHEAD abc\nbranch refs/heads/main\n\nworktree /tmp/agent\nHEAD def\nbranch refs/heads/x\n\nworktree /tmp/loose\nHEAD 123\ndetached\n";

#[test]
fn worktrees_are_listed_without_bare_and_detached_ones() {
    let (asked, result) = drive(|r| cache().list_worktrees("o", "r", r), |a| {
        if a.starts_with("exists") { ok("") } else { ok(LIST) }
    });
    assert_eq!(asked[1], "[/c/h/repos/o/r.git] git worktree list --porcelain");
    let list = result.unwrap();
    assert_eq!(list.len(), 2);
    assert_eq!((list[1].branch.as_str(), list[1].path.as_bytes()), ("x", b"/tmp/agent".as_slice()));
    let (asked, result) = drive(|r| cache().list_worktrees("o", "r", r), |_| refused(""));
    assert_eq!(asked.len(), 1);
    assert!(result.unwrap().is_empty());
}

#[test]
fn deleting_checks_foreign_directories_first() {
    let answer = |canonical: &'static str| {
        move |a: &str| {
            if a.contains("worktree list") {
                ok(LIST)
            } else if a.starts_with("read /tmp/agent/.git") {
                ok("gitdir: /c/h/repos/o/r.git/worktrees/agent\n")
            } else if a.starts_with("canon /c/h/repos/o/r.git/worktrees") {
                ok(canonical)
            } else if a.starts_with("canon") {
                ok("/real/r.git")
            } else {
                refused("gone")
            }
        }
    };
    let all = |a: &str| -> Reply {
        if a.starts_with("exists") { ok("") } else { refused("gone") }
    };
    let ours = answer("/real/r.git/worktrees/agent");
    let (asked, result) = drive(|r| cache().delete_branch("o", "r", "x", r), |a| {
        if a.starts_with("exists") { all(a) } else { ours(a) }
    });
    assert!(result.is_ok());
    assert_eq!(
        asked,
        vec![
            "rm /c/h/worktrees/o/r/x",
            "exists /c/h/repos/o/r.git/HEAD",
            "exists /c/h/repos/o/r.git/HEAD",
            "[/c/h/repos/o/r.git] git worktree list --porcelain",
            "read /tmp/agent/.git",
            "canon /c/h/repos/o/r.git/worktrees/agent",
            "canon /c/h/repos/o/r.git",
            "rm /tmp/agent",
            "[/c/h/repos/o/r.git] git worktree prune",
            "[/c/h/repos/o/r.git] git branch -D x",
            "[/c/h/repos/o/r.git] git push origin --delete x",
            "[/c/h/repos/o/r.git] git fetch --prune --no-tags origin",
        ]
    );
    let theirs = answer("/real/r.git/worktreesX/agent");
    let (asked, result) = drive(|r| cache().delete_branch("o", "r", "x", r), |a| {
        if a.starts_with("exists") { all(a) } else { theirs(a) }
    });
    assert!(result.is_ok());
    assert!(!asked.contains(&"rm /tmp/agent".to_string()));
    assert_eq!(asked.len(), 11);
}

#[test]
fn deleting_without_a_clone_only_removes_the_worktree() {
    let (asked, result) = drive(|r| cache().delete_branch("o", "r", "x", r), |_| refused(""));
    assert_eq!(asked, vec!["rm /c/h/worktrees/o/r/x", "exists /c/h/repos/o/r.git/HEAD"]);
    assert!(result.is_ok());
}

fn refresh(status: &'static str, ahead: &'static str, behind: &'static str) -> (Vec<String>, bool) {
    let (asked, result) = drive(|r| cache().refresh_worktree("o", "r", "x", r), |a| {
        if a.contains("status") {
            ok(status)
        } else if a.contains("origin/x..HEAD") {
            ok(ahead)
        } else if a.contains("HEAD..origin/x") {
            ok(behind)
        } else {
            ok("")
        }
    });
    (asked, result.unwrap())
}

#[test]
fn refreshing_fast_forwards_a_clean_worktree() {
    let (asked, updated) = refresh("\n", "0\n", "3\n");
    assert!(updated);
    assert_eq!(
        asked,
        vec![
            "exists /c/h/repos/o/r.git/HEAD",
            "exists /c/h/worktrees/o/r/x/.git",
            "[/c/h/repos/o/r.git] git fetch --prune --no-tags origin",
            "[/c/h/worktrees/o/r/x] git status --porcelain",
            "[/c/h/worktrees/o/r/x] git rev-list --count origin/x..HEAD",
            "[/c/h/worktrees/o/r/x] git rev-list --count HEAD..origin/x",
            "[/c/h/worktrees/o/r/x] git merge --ff-only origin/x",
        ]
    );
}

#[test]
fn refreshing_spares_user_work() {
    assert_eq!(refresh(" M file\n", "0\n", "3\n").0.len(), 4);
    assert!(!refresh("", "1\n", "3\n").1);
    assert_eq!(refresh("", "1\n", "3\n").0.len(), 6);
    assert!(!refresh("", "0\n", "0\n").1);
    let (asked, result) =
        drive(|r| cache().refresh_worktree("o", "r", "x", r), |_| Reply::Failed(IoErrorKind::Other));
    assert_eq!(asked.len(), 1);
    assert!(!result.unwrap());
}

#[test]
fn a_failed_fetch_fails_the_refresh() {
    let (_, result) = drive(|r| cache().refresh_worktree("o", "r", "x", r), |a| {
        if a.contains("fetch") { refused("net") } else { ok("") }
    });
    assert!(matches!(result, Err(GitError::CommandFailed { stderr, .. }) if stderr == "net"));
}

#[test]
fn git_never_prompts() {
    assert_eq!(
        git_env(),
        vec![("GIT_TERMINAL_PROMPT", "0"), ("GIT_SSH_COMMAND", "ssh -oBatchMode=yes")]
    );
}

#[test]
fn what_git_prints_is_read() {
    assert_eq!(parse_heads("a\trefs/heads/x\r\nb\trefs/heads/y"), vec!["x", "y"]);
    assert_eq!(parse_tracked_heads("refs/remotes/origin/HEAD\nrefs/remotes/origin/a\n"), vec!["a"]);
    assert_eq!(parse_default_branch(""), "main");
    assert_eq!(parse_gitdir("  gitdir: /a/b \n"), Some("/a/b"));
    assert_eq!(parse_gitdir("gitdir:/a"), None);
    assert_eq!(parse_worktrees("worktree /a\nbranch refs/heads/x").len(), 1);
    assert!(repo_missing("remote: Repository not found."));
    assert!(!repo_missing("timeout"));
    assert!(branch_missing("fatal: invalid reference: x"));
    assert!(already_there("fatal: 'x' is already checked out at"));
    assert!(!already_there("fatal"));
}
