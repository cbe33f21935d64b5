//! Reading what git prints: branch listings, the default branch, worktree
//! listings and the complaints that tell a missing repository from other
//! failures.

use crate::fspath::FsPath;
use crate::text::{
    contains, lemma_split_first, lemma_split_none, lines, lines_of, occurs, same, split, split_once,
    strings, strip_prefix, texts, trim, trimmed, utf8,
};
use vstd::prelude::*;
use vstd::string::*;

verus! {

/// What stands behind a prefix.
pub open spec fn after_prefix(s: Seq<char>, p: Seq<char>) -> Option<Seq<char>> {
    if p.is_prefix_of(s) {
        Some(s.skip(p.len() as int))
    } else {
        None
    }
}

/// What stands behind `p` in `s`, with the result tied to [`after_prefix`].
fn behind<'a>(s: &'a str, p: &str) -> (r: Option<&'a str>)
    ensures
        match r {
            Some(rest) => after_prefix(s@, p@) == Some(rest@),
            None => after_prefix(s@, p@) is None,
        },
{
    let r = strip_prefix(s, p);
    proof {
        if let Some(rest) = r {
            assert(p@ =~= s@.subrange(0, p@.len() as int));
            assert(s@.skip(p@.len() as int) =~= rest@);
        }
    }
    r
}

/// The branch that a line of `ls-remote --heads` names: its second field,
/// where that is a branch ref.
pub open spec fn head_in(line: Seq<char>) -> Option<Seq<char>> {
    let fields = split(line, '\t');
    if fields.len() < 2 {
        None
    } else {
        after_prefix(fields[1], "refs/heads/"@)
    }
}

/// The branches that the output of `ls-remote --heads` lists.
pub open spec fn heads_in(out: Seq<char>) -> Seq<Seq<char>> {
    lines(out).filter_map(|line: Seq<char>| head_in(line))
}

/// The second tab-separated field of a line.
fn second_field<'a>(line: &'a str) -> (r: Option<&'a str>)
    ensures
        match r {
            Some(field) => split(line@, '\t').len() >= 2 && field@ == split(line@, '\t')[1],
            None => split(line@, '\t').len() < 2,
        },
{
    match split_once(line, 9u8) {
        None => {
            proof {
                lemma_split_none(line@, '\t');
            }
            None
        },
        Some((before, rest)) => {
            proof {
                lemma_split_first(before@, '\t', rest@);
            }
            match split_once(rest, 9u8) {
                None => {
                    proof {
                        lemma_split_none(rest@, '\t');
                    }
                    Some(rest)
                },
                Some((field, more)) => {
                    proof {
                        lemma_split_first(field@, '\t', more@);
                    }
                    Some(field)
                },
            }
        },
    }
}

/// Reads the branch names out of the output of `ls-remote --heads`.
pub fn parse_heads(out: &str) -> (r: Vec<String>)
    ensures
        strings(r@) == heads_in(out@),
{
    let all = lines_of(out);
    let mut heads: Vec<String> = Vec::new();
    let ghost f = |line: Seq<char>| head_in(line);
    let ghost ls = lines(out@);
    let mut i: usize = 0;
    assert(ls.take(0).filter_map(f) =~= strings(heads@));
    while i < all.len()
        invariant
            i <= all@.len(),
            texts(all@) == ls,
            f == (|line: Seq<char>| head_in(line)),
            strings(heads@) == ls.take(i as int).filter_map(f),
        decreases all@.len() - i,
    {
        let line = all[i];
        proof {
            assert(line@ == texts(all@)[i as int]);
            ls.lemma_filter_map_take_succ(f, i as int);
        }
        let ghost before = strings(heads@);
        match second_field(line) {
            Some(field) => match behind(field, "refs/heads/") {
                Some(name) => {
                    heads.push(name.to_owned());
                    assert(strings(heads@) =~= before + seq![name@]);
                },
                None => {
                    assert(before + Seq::<Seq<char>>::empty() =~= before);
                },
            },
            None => {
                assert(before + Seq::<Seq<char>>::empty() =~= before);
            },
        }
        i = i + 1;
    }
    assert(ls.take(ls.len() as int) =~= ls);
    heads
}

/// The branch that a line of `for-each-ref` names among the remote-tracking
/// refs. The symbolic `HEAD` is no branch.
pub open spec fn tracked_in(line: Seq<char>) -> Option<Seq<char>> {
    match after_prefix(line, "refs/remotes/origin/"@) {
        Some(name) => if name == "HEAD"@ {
            None
        } else {
            Some(name)
        },
        None => None,
    }
}

/// The branches that a listing of the remote-tracking refs names.
pub open spec fn tracked_heads_in(out: Seq<char>) -> Seq<Seq<char>> {
    lines(out).filter_map(|line: Seq<char>| tracked_in(line))
}

/// Reads the branch names out of a listing of the remote-tracking refs.
pub fn parse_tracked_heads(out: &str) -> (r: Vec<String>)
    ensures
        strings(r@) == tracked_heads_in(out@),
{
    let all = lines_of(out);
    let mut heads: Vec<String> = Vec::new();
    let ghost f = |line: Seq<char>| tracked_in(line);
    let ghost ls = lines(out@);
    let mut i: usize = 0;
    assert(ls.take(0).filter_map(f) =~= strings(heads@));
    while i < all.len()
        invariant
            i <= all@.len(),
            texts(all@) == ls,
            f == (|line: Seq<char>| tracked_in(line)),
            strings(heads@) == ls.take(i as int).filter_map(f),
        decreases all@.len() - i,
    {
        let line = all[i];
        proof {
            assert(line@ == texts(all@)[i as int]);
            ls.lemma_filter_map_take_succ(f, i as int);
        }
        let ghost before = strings(heads@);
        assert(before + Seq::<Seq<char>>::empty() =~= before);
        if let Some(name) = behind(line, "refs/remotes/origin/") {
            if !same(name, "HEAD") {
                heads.push(name.to_owned());
                assert(strings(heads@) =~= before + seq![name@]);
            }
        }
        i = i + 1;
    }
    assert(ls.take(ls.len() as int) =~= ls);
    heads
}

/// The branch that the first line announcing a symbolic ref points to.
pub open spec fn symref_in(ls: Seq<Seq<char>>) -> Option<Seq<char>>
    decreases ls.len(),
{
    if ls.len() == 0 {
        None
    } else {
        match after_prefix(ls[0], "ref: refs/heads/"@) {
            Some(rest) => Some(split(rest, '\t')[0]),
            None => symref_in(ls.drop_first()),
        }
    }
}

/// The default branch that the output of `ls-remote --symref` announces, or
/// `main` where it announces none.
pub open spec fn default_branch_in(out: Seq<char>) -> Seq<char> {
    match symref_in(lines(out)) {
        Some(branch) => branch,
        None => "main"@,
    }
}

/// Reads the default branch out of the output of `ls-remote --symref`.
pub fn parse_default_branch(out: &str) -> (r: String)
    ensures
        r@ == default_branch_in(out@),
{
    let all = lines_of(out);
    let ghost ls = lines(out@);
    let mut i: usize = 0;
    assert(ls.skip(0) =~= ls);
    while i < all.len()
        invariant
            i <= all@.len(),
            texts(all@) == ls,
            ls == lines(out@),
            symref_in(ls) == symref_in(ls.skip(i as int)),
        decreases all@.len() - i,
    {
        let line = all[i];
        proof {
            assert(line@ == texts(all@)[i as int]);
            assert(ls.skip(i as int)[0] == line@);
            assert(ls.skip(i as int).drop_first() =~= ls.skip(i + 1));
        }
        if let Some(rest) = behind(line, "ref: refs/heads/") {
            match split_once(rest, 9u8) {
                Some((branch, more)) => {
                    proof {
                        lemma_split_first(branch@, '\t', more@);
                    }
                    return branch.to_owned();
                },
                None => {
                    proof {
                        lemma_split_none(rest@, '\t');
                    }
                    return rest.to_owned();
                },
            }
        }
        i = i + 1;
    }
    "main".to_owned()
}

/// What stands behind a prefix on the last of the lines that start with it.
pub open spec fn last_after(ls: Seq<Seq<char>>, p: Seq<char>) -> Option<Seq<char>>
    decreases ls.len(),
{
    if ls.len() == 0 {
        None
    } else {
        match after_prefix(ls.last(), p) {
            Some(rest) => Some(rest),
            None => last_after(ls.drop_last(), p),
        }
    }
}

/// The branch and the directory that one block of `worktree list --porcelain`
/// describes. The bare entry and detached checkouts describe none.
pub open spec fn worktree_in(block: Seq<Seq<char>>) -> Option<(Seq<char>, Seq<u8>)> {
    match (last_after(block, "worktree "@), last_after(block, "branch refs/heads/"@)) {
        (Some(path), Some(branch)) => if block.contains("bare"@) {
            None
        } else {
            Some((branch, utf8(path)))
        },
        _ => None,
    }
}

/// The branches checked out in worktrees, as `worktree list --porcelain`
/// prints them: one block of lines per worktree, with an empty line between
/// two blocks.
pub open spec fn worktrees_in(out: Seq<char>) -> Seq<(Seq<char>, Seq<u8>)> {
    split(lines(out), Seq::empty()).filter_map(|block: Seq<Seq<char>>| worktree_in(block))
}

/// A branch checked out in a directory.
#[derive(Debug)]
pub struct Checkout {
    pub branch: String,
    pub path: FsPath,
}

impl View for Checkout {
    type V = (Seq<char>, Seq<u8>);

    open spec fn view(&self) -> (Seq<char>, Seq<u8>) {
        (self.branch@, self.path@)
    }
}

/// What a list of checkouts says.
pub open spec fn checkouts(v: Seq<Checkout>) -> Seq<(Seq<char>, Seq<u8>)> {
    Seq::new(v.len(), |i: int| v[i]@)
}

/// The prefixes that tell the lines of a worktree block apart exclude each
/// other.
proof fn lemma_block_lines(line: Seq<char>)
    ensures
        after_prefix(line, "worktree "@) is Some ==> after_prefix(line, "branch refs/heads/"@) is None
            && line != "bare"@ && line.len() > 0,
        after_prefix(line, "branch refs/heads/"@) is Some ==> line != "bare"@ && line.len() > 0,
        "bare"@.len() > 0,
{
    reveal_strlit("worktree ");
    reveal_strlit("branch refs/heads/");
    reveal_strlit("bare");
    let w = "worktree "@;
    let b = "branch refs/heads/"@;
    if w.is_prefix_of(line) {
        assert(line.subrange(0, w.len() as int)[0] == 'w');
        assert(line[0] == 'w');
        if b.is_prefix_of(line) {
            assert(line.subrange(0, b.len() as int)[0] == 'b');
        }
    }
    if b.is_prefix_of(line) {
        assert(line.len() >= 18);
    }
}

proof fn lemma_contains_push(s: Seq<Seq<char>>, x: Seq<char>, y: Seq<char>)
    ensures
        s.push(x).contains(y) <==> s.contains(y) || x == y,
{
    if s.contains(y) {
        let k = choose|k: int| 0 <= k < s.len() && s[k] == y;
        assert(s.push(x)[k] == y);
    }
    if x == y {
        assert(s.push(x)[s.len() as int] == y);
    }
    if s.push(x).contains(y) {
        let k = choose|k: int| 0 <= k < s.push(x).len() && s.push(x)[k] == y;
        if k < s.len() {
            assert(s[k] == y);
        }
    }
}

/// Reads the worktrees out of the output of `worktree list --porcelain`.
pub fn parse_worktrees(out: &str) -> (r: Vec<Checkout>)
    ensures
        checkouts(r@) == worktrees_in(out@),
{
    let all = lines_of(out);
    let ghost ls = lines(out@);
    let ghost none = Seq::<char>::empty();
    let ghost f = |block: Seq<Seq<char>>| worktree_in(block);
    let mut result: Vec<Checkout> = Vec::new();
    let mut path: Option<&str> = None;
    let mut branch: Option<&str> = None;
    let mut is_bare = false;
    let ghost mut done: Seq<Seq<Seq<char>>> = Seq::empty();
    let ghost mut block: Seq<Seq<char>> = Seq::empty();
    let mut i: usize = 0;
    proof {
        assert(ls.skip(0) =~= ls);
        assert(block + ls.skip(0) =~= ls);
        assert(done + split(ls, none) =~= split(ls, none));
        assert(done.filter_map(f) =~= checkouts(result@));
    }
    loop
        invariant
            i <= all@.len(),
            texts(all@) == ls,
            ls == lines(out@),
            none == Seq::<char>::empty(),
            f == (|block: Seq<Seq<char>>| worktree_in(block)),
            split(ls, none) == done + split(block + ls.skip(i as int), none),
            !block.contains(none),
            checkouts(result@) == done.filter_map(f),
            path is Some <==> last_after(block, "worktree "@) is Some,
            path is Some ==> last_after(block, "worktree "@) == Some(path->0@),
            branch is Some <==> last_after(block, "branch refs/heads/"@) is Some,
            branch is Some ==> last_after(block, "branch refs/heads/"@) == Some(branch->0@),
            is_bare == block.contains("bare"@),
        decreases all@.len() - i,
    {
        let at_end = i == all.len();
        if at_end || all[i].is_empty() {
            let ghost before = checkouts(result@);
            match (path, branch) {
                (Some(p), Some(b)) => {
                    if !is_bare {
                        result.push(
                            Checkout { branch: b.to_owned(), path: FsPath::from_text(p) },
                        );
                        assert(checkouts(result@) =~= before + seq![(b@, utf8(p@))]);
                    }
                },
                _ => {},
            }
            proof {
                assert(done.push(block).drop_last() =~= done);
                assert(done.push(block).last() == block);
                assert(done.push(block).filter_map(f) =~= checkouts(result@)) by {
                    reveal_with_fuel(Seq::filter_map, 2);
                }
            }
            if at_end {
                proof {
                    assert(block + ls.skip(i as int) =~= block);
                    lemma_split_none(block, none);
                    assert(done + seq![block] =~= done.push(block));
                }
                return result;
            }
            proof {
                assert(texts(all@)[i as int] =~= none);
                let rest = ls.skip(i + 1);
                assert(block + ls.skip(i as int) =~= block + seq![none] + rest);
                lemma_split_first(block, none, rest);
                assert(done + (seq![block] + split(rest, none)) =~= done.push(block) + split(
                    rest,
                    none,
                ));
                done = done.push(block);
                block = Seq::empty();
                assert(block + rest =~= rest);
            }
            path = None;
            branch = None;
            is_bare = false;
        } else {
            let line = all[i];
            proof {
                assert(line@ == texts(all@)[i as int]);
                lemma_block_lines(line@);
                assert(block.push(line@).drop_last() =~= block);
                lemma_contains_push(block, line@, none);
                lemma_contains_push(block, line@, "bare"@);
                assert(block + ls.skip(i as int) =~= block.push(line@) + ls.skip(i + 1));
                block = block.push(line@);
            }
            if let Some(p) = behind(line, "worktree ") {
                path = Some(p);
            } else if let Some(b) = behind(line, "branch refs/heads/") {
                branch = Some(b);
            } else if same(line, "bare") {
                is_bare = true;
            }
        }
        i = i + 1;
    }
}

/// Whether git's complaint says that the remote has no such repository, or
/// does not show it to us.
pub open spec fn says_repo_missing(stderr: Seq<char>) -> bool {
    ||| occurs("not found"@, stderr)
    ||| occurs("Repository not found"@, stderr)
    ||| occurs("could not read Username"@, stderr)
    ||| occurs("Authentication failed"@, stderr)
}

/// Whether git's complaint says that there is no such branch.
pub open spec fn says_branch_missing(stderr: Seq<char>) -> bool {
    ||| occurs("invalid reference"@, stderr)
    ||| occurs("not a valid"@, stderr)
}

/// Whether git's complaint says that a branch or worktree is already there.
pub open spec fn says_exists(stderr: Seq<char>) -> bool {
    ||| occurs("already exists"@, stderr)
    ||| occurs("already checked out"@, stderr)
}

/// Whether `stderr` says that the repository is missing.
pub fn repo_missing(stderr: &str) -> (r: bool)
    ensures
        r == says_repo_missing(stderr@),
{
    contains(stderr, "not found") || contains(stderr, "Repository not found") || contains(
        stderr,
        "could not read Username",
    ) || contains(stderr, "Authentication failed")
}

/// Whether `stderr` says that the branch is missing.
pub fn branch_missing(stderr: &str) -> (r: bool)
    ensures
        r == says_branch_missing(stderr@),
{
    contains(stderr, "invalid reference") || contains(stderr, "not a valid")
}

/// Whether `stderr` says that something is already there.
pub fn already_there(stderr: &str) -> (r: bool)
    ensures
        r == says_exists(stderr@),
{
    contains(stderr, "already exists") || contains(stderr, "already checked out")
}

/// The directory that the `.git` file of a linked worktree points to.
pub open spec fn gitdir_in(content: Seq<char>) -> Option<Seq<char>> {
    after_prefix(trimmed(content), "gitdir: "@)
}

/// Reads the `.git` file of a linked worktree.
pub fn parse_gitdir<'a>(content: &'a str) -> (r: Option<&'a str>)
    ensures
        match r {
            Some(dir) => gitdir_in(content@) == Some(dir@),
            None => gitdir_in(content@) is None,
        },
{
    behind(trim(content), "gitdir: ")
}

} // verus!
