//! What is read out of what git prints, line by line.

use crate::action::{
    failure, reported, ActionView, GitErrorView, IoErrorKind, OnFailureView, ReplyView,
};
use crate::caches::{creation_status, materialize_status};
use crate::git_laws::{lemma_found_in_found, means_no_branch, means_no_repository};
use crate::porcelain::{
    after_prefix, default_branch_in, gitdir_in, head_in, heads_in, last_after, says_branch_missing,
    says_exists, says_repo_missing, tracked_heads_in, tracked_in, worktree_in, worktrees_in,
};
use crate::protocol::{io_status, Status};
use crate::text::{
    is_white_space, lemma_split_first, lemma_split_len, lemma_split_none, lines, lossy, occurs, split,
    trimmed, utf8,
};
use crate::text_laws::{is_blank, law_lines, law_trim_removes};
use vstd::prelude::*;

verus! {

/// Whether a text can be a line: it holds no line feed and does not end in a
/// carriage return.
pub open spec fn is_line(s: Seq<char>) -> bool {
    !s.contains('\n') && (s.len() > 0 ==> s.last() != '\r')
}

/// A line with its line feed, and what comes after it.
pub open spec fn line_then(line: Seq<char>, rest: Seq<char>) -> Seq<char> {
    line + seq!['\n'] + rest
}

proof fn lemma_filter_map_first<A, B>(first: A, rest: Seq<A>, f: spec_fn(A) -> Option<B>)
    ensures
        (seq![first] + rest).filter_map(f) == match f(first) {
            Some(b) => seq![b],
            None => Seq::empty(),
        } + rest.filter_map(f),
    decreases rest.len(),
{
    let all = seq![first] + rest;
    let head = match f(first) {
        Some(b) => seq![b],
        None => Seq::<B>::empty(),
    };
    if rest.len() == 0 {
        assert(all =~= seq![first]);
        Seq::lemma_filter_map_singleton(first, f);
        assert(rest =~= Seq::empty());
        assert(rest.filter_map(f) =~= Seq::empty());
        assert(head + rest.filter_map(f) =~= head);
    } else {
        lemma_filter_map_first(first, rest.drop_last(), f);
        assert(all.drop_last() =~= seq![first] + rest.drop_last());
        assert(all.last() == rest.last());
        match f(rest.last()) {
            Some(b) => {
                assert(all.filter_map(f) == all.drop_last().filter_map(f) + seq![b]);
                assert(rest.filter_map(f) == rest.drop_last().filter_map(f) + seq![b]);
                assert(all.filter_map(f) =~= head + rest.filter_map(f));
            },
            None => {},
        }
    }
}

proof fn lemma_behind(p: Seq<char>, x: Seq<char>)
    ensures
        after_prefix(p + x, p) == Some(x),
{
    assert(p =~= (p + x).subrange(0, p.len() as int));
    assert((p + x).skip(p.len() as int) =~= x);
}

proof fn lemma_no_char(a: Seq<char>, b: Seq<char>, c: char)
    requires
        !a.contains(c),
        !b.contains(c),
    ensures
        !(a + b).contains(c),
{
    if (a + b).contains(c) {
        let k = choose|k: int| 0 <= k < (a + b).len() && (a + b)[k] == c;
        if k < a.len() {
            assert(a[k] == c);
        } else {
            assert(b[k - a.len()] == c);
        }
    }
}

/// A branch listing is read line by line: a line of a hash, a tab and a branch
/// ref adds the branch, in its place and by its whole name; a line without a
/// tab, or whose second field is no branch ref, adds nothing.
pub proof fn law_heads_line(
    hash: Seq<char>,
    field: Seq<char>,
    name: Seq<char>,
    more: Seq<char>,
    rest: Seq<char>,
)
    requires
        !hash.contains('\t'),
        !field.contains('\t'),
        !name.contains('\t'),
    ensures
        heads_in(Seq::<char>::empty()) == Seq::<Seq<char>>::empty(),
        is_line(hash + seq!['\t'] + ("refs/heads/"@ + name)) ==> heads_in(
            line_then(hash + seq!['\t'] + ("refs/heads/"@ + name), rest),
        ) == seq![name] + heads_in(rest),
        is_line(hash + seq!['\t'] + ("refs/heads/"@ + name + seq!['\t'] + more)) ==> heads_in(
            line_then(hash + seq!['\t'] + ("refs/heads/"@ + name + seq!['\t'] + more), rest),
        ) == seq![name] + heads_in(rest),
        is_line(hash) ==> heads_in(line_then(hash, rest)) == heads_in(rest),
        is_line(hash + seq!['\t'] + field) && !"refs/heads/"@.is_prefix_of(field) ==> heads_in(
            line_then(hash + seq!['\t'] + field, rest),
        ) == heads_in(rest),
{
    reveal_strlit("refs/heads/");
    let f = |line: Seq<char>| head_in(line);
    let none = Seq::<char>::empty();
    law_lines(none, none);
    assert(Seq::<Seq<char>>::empty().filter_map(f) =~= Seq::empty());
    assert(!"refs/heads/"@.contains('\t'));
    let ref_name = "refs/heads/"@ + name;
    lemma_no_char("refs/heads/"@, name, '\t');
    lemma_behind("refs/heads/"@, name);
    lemma_split_first(hash, '\t', ref_name);
    lemma_split_none(ref_name, '\t');
    lemma_heads_line(hash + seq!['\t'] + ref_name, rest);
    let longer = ref_name + seq!['\t'] + more;
    lemma_split_first(hash, '\t', longer);
    lemma_split_first(ref_name, '\t', more);
    lemma_split_len(more, '\t');
    lemma_heads_line(hash + seq!['\t'] + longer, rest);
    lemma_split_none(hash, '\t');
    lemma_heads_line(hash, rest);
    lemma_split_first(hash, '\t', field);
    lemma_split_none(field, '\t');
    lemma_heads_line(hash + seq!['\t'] + field, rest);
    assert(Seq::<Seq<char>>::empty() + heads_in(rest) =~= heads_in(rest));
}

proof fn lemma_heads_line(line: Seq<char>, rest: Seq<char>)
    ensures
        is_line(line) ==> heads_in(line_then(line, rest)) == match head_in(line) {
            Some(name) => seq![name],
            None => Seq::empty(),
        } + heads_in(rest),
{
    if is_line(line) {
        law_lines(line, rest);
        lemma_filter_map_first(line, lines(rest), |l: Seq<char>| head_in(l));
    }
}

/// A listing of remote-tracking refs is read line by line: a line that names
/// such a ref of the remote adds the branch, in its place and by its whole
/// name; the symbolic `HEAD` and every other line add nothing.
pub proof fn law_tracked_line(name: Seq<char>, line: Seq<char>, rest: Seq<char>)
    ensures
        tracked_heads_in(Seq::<char>::empty()) == Seq::<Seq<char>>::empty(),
        is_line("refs/remotes/origin/"@ + name) ==> tracked_heads_in(
            line_then("refs/remotes/origin/"@ + name, rest),
        ) == if name == "HEAD"@ {
            tracked_heads_in(rest)
        } else {
            seq![name] + tracked_heads_in(rest)
        },
        is_line(line) && !"refs/remotes/origin/"@.is_prefix_of(line) ==> tracked_heads_in(
            line_then(line, rest),
        ) == tracked_heads_in(rest),
{
    let f = |l: Seq<char>| tracked_in(l);
    let none = Seq::<char>::empty();
    law_lines(none, none);
    assert(Seq::<Seq<char>>::empty().filter_map(f) =~= Seq::empty());
    let whole = "refs/remotes/origin/"@ + name;
    lemma_behind("refs/remotes/origin/"@, name);
    if is_line(whole) {
        law_lines(whole, rest);
        lemma_filter_map_first(whole, lines(rest), f);
    }
    if is_line(line) {
        law_lines(line, rest);
        lemma_filter_map_first(line, lines(rest), f);
    }
    assert(Seq::<Seq<char>>::empty() + tracked_heads_in(rest) =~= tracked_heads_in(rest));
}

/// The default branch is the one that the first line of a symbolic ref to a
/// branch names, up to the tab; other lines are passed over, and where there is
/// no such line, it is `main`.
pub proof fn law_default_branch_line(
    name: Seq<char>,
    more: Seq<char>,
    line: Seq<char>,
    rest: Seq<char>,
)
    requires
        !name.contains('\t'),
    ensures
        default_branch_in(Seq::<char>::empty()) == "main"@,
        is_line("ref: refs/heads/"@ + (name + seq!['\t'] + more)) ==> default_branch_in(
            line_then("ref: refs/heads/"@ + (name + seq!['\t'] + more), rest),
        ) == name,
        is_line("ref: refs/heads/"@ + name) ==> default_branch_in(
            line_then("ref: refs/heads/"@ + name, rest),
        ) == name,
        is_line(line) && !"ref: refs/heads/"@.is_prefix_of(line) ==> default_branch_in(
            line_then(line, rest),
        ) == default_branch_in(rest),
{
    let none = Seq::<char>::empty();
    let p = "ref: refs/heads/"@;
    law_lines(none, none);
    let full = p + (name + seq!['\t'] + more);
    lemma_behind(p, name + seq!['\t'] + more);
    lemma_split_first(name, '\t', more);
    if is_line(full) {
        law_lines(full, rest);
        assert(lines(line_then(full, rest))[0] == full);
    }
    lemma_behind(p, name);
    lemma_split_none(name, '\t');
    if is_line(p + name) {
        law_lines(p + name, rest);
        assert(lines(line_then(p + name, rest))[0] == p + name);
    }
    if is_line(line) {
        law_lines(line, rest);
        assert(lines(line_then(line, rest))[0] == line);
        assert(lines(line_then(line, rest)).drop_first() =~= lines(rest));
    }
}

/// Lines, each with its line feed.
pub open spec fn block_text(block: Seq<Seq<char>>) -> Seq<char>
    decreases block.len(),
{
    if block.len() == 0 {
        Seq::empty()
    } else {
        block[0] + seq!['\n'] + block_text(block.drop_first())
    }
}

/// Whether every text in a block can be a line that is not empty.
pub open spec fn is_block(block: Seq<Seq<char>>) -> bool {
    forall|i: int|
        0 <= i < block.len() ==> is_line(#[trigger] block[i]) && block[i].len() > 0
}

proof fn lemma_block_lines(block: Seq<Seq<char>>, rest: Seq<char>)
    requires
        is_block(block),
    ensures
        lines(block_text(block) + seq!['\n'] + rest) == block + seq![Seq::<char>::empty()] + lines(
            rest,
        ),
    decreases block.len(),
{
    let none = Seq::<char>::empty();
    if block.len() == 0 {
        law_lines(none, rest);
        assert(block_text(block) + seq!['\n'] + rest =~= none + seq!['\n'] + rest);
        assert(block + seq![none] + lines(rest) =~= seq![none] + lines(rest));
    } else {
        let more = block.drop_first();
        assert forall|i: int| 0 <= i < more.len() implies is_line(#[trigger] more[i])
            && more[i].len() > 0 by {
            assert(is_line(block[i + 1]));
        }
        lemma_block_lines(more, rest);
        assert(is_line(block[0]));
        let tail = block_text(more) + seq!['\n'] + rest;
        law_lines(block[0], tail);
        assert(block_text(block) + seq!['\n'] + rest =~= block[0] + seq!['\n'] + tail);
        assert(seq![block[0]] + (more + seq![none] + lines(rest)) =~= block + seq![none] + lines(
            rest,
        ));
    }
}

proof fn lemma_last_after_more(s: Seq<Seq<char>>, more: Seq<Seq<char>>, p: Seq<char>)
    requires
        forall|i: int| 0 <= i < more.len() ==> !p.is_prefix_of(#[trigger] more[i]),
    ensures
        last_after(s + more, p) == last_after(s, p),
    decreases more.len(),
{
    if more.len() == 0 {
        assert(s + more =~= s);
    } else {
        assert(!p.is_prefix_of(more[more.len() - 1]));
        assert((s + more).drop_last() =~= s + more.drop_last());
        lemma_last_after_more(s, more.drop_last(), p);
    }
}

/// Whether a line is one of those that say something of a worktree.
pub open spec fn speaks(line: Seq<char>) -> bool {
    ||| "worktree "@.is_prefix_of(line)
    ||| "branch refs/heads/"@.is_prefix_of(line)
    ||| line == "bare"@
}

/// A worktree listing is read block by block. A block that names a directory
/// and a branch, in any place among other lines, adds that branch at that
/// directory; a block with the line `bare`, or without a branch, adds nothing.
pub proof fn law_worktree_block(
    path: Seq<char>,
    name: Seq<char>,
    a: Seq<Seq<char>>,
    b: Seq<Seq<char>>,
    c: Seq<Seq<char>>,
    other: Seq<Seq<char>>,
    rest: Seq<char>,
)
    requires
        forall|i: int| 0 <= i < a.len() ==> !speaks(#[trigger] a[i]),
        forall|i: int| 0 <= i < b.len() ==> !speaks(#[trigger] b[i]),
        forall|i: int| 0 <= i < c.len() ==> !speaks(#[trigger] c[i]),
    ensures
        ({
            let block = a + seq!["worktree "@ + path] + b + seq!["branch refs/heads/"@ + name] + c;
            is_block(block) ==> worktrees_in(block_text(block) + seq!['\n'] + rest) == seq![
                (name, utf8(path)),
            ] + worktrees_in(rest)
        }),
        is_block(other) && (other.contains("bare"@) || forall|i: int|
            0 <= i < other.len() ==> !"branch refs/heads/"@.is_prefix_of(#[trigger] other[i]))
            ==> worktrees_in(block_text(other) + seq!['\n'] + rest) == worktrees_in(rest),
        worktrees_in(Seq::<char>::empty()) == Seq::<(Seq<char>, Seq<u8>)>::empty(),
{
    reveal_strlit("worktree ");
    reveal_strlit("branch refs/heads/");
    reveal_strlit("bare");
    let w = "worktree "@;
    let r = "branch refs/heads/"@;
    let wline = w + path;
    let rline = r + name;
    let block = a + seq![wline] + b + seq![rline] + c;
    let none = Seq::<char>::empty();
    assert(wline[0] == 'w' && rline[0] == 'b');
    assert(wline != "bare"@) by {
        assert("bare"@[0] == 'b');
    }
    assert(rline != "bare"@) by {
        assert(rline.len() >= 18 && "bare"@.len() == 4);
    }
    assert(!r.is_prefix_of(wline)) by {
        if r.is_prefix_of(wline) {
            assert(wline.subrange(0, r.len() as int)[0] == 'b');
        }
    }
    assert(!w.is_prefix_of(rline)) by {
        if w.is_prefix_of(rline) {
            assert(rline.subrange(0, w.len() as int)[0] == 'w');
        }
    }
    if is_block(block) {
        lemma_block(block, rest);
        lemma_behind(w, path);
        lemma_behind(r, name);
        let head = a + seq![wline];
        let mid = b + seq![rline] + c;
        assert(block =~= head + mid);
        assert(head.drop_last() =~= a && head.last() == wline);
        assert forall|i: int| 0 <= i < mid.len() implies !w.is_prefix_of(#[trigger] mid[i]) by {
            if i < b.len() {
                assert(!speaks(b[i]));
            } else if i > b.len() {
                assert(!speaks(c[i - b.len() - 1]));
            }
        }
        lemma_last_after_more(head, mid, w);
        let front = a + seq![wline] + b + seq![rline];
        assert(block =~= front + c);
        assert(front.drop_last() =~= a + seq![wline] + b && front.last() == rline);
        assert forall|i: int| 0 <= i < c.len() implies !r.is_prefix_of(#[trigger] c[i]) by {
            assert(!speaks(c[i]));
        }
        lemma_last_after_more(front, c, r);
        if block.contains("bare"@) {
            let k = choose|k: int| 0 <= k < block.len() && block[k] == "bare"@;
            if k < a.len() {
                assert(!speaks(a[k]));
            } else if k > a.len() && k < a.len() + 1 + b.len() {
                assert(!speaks(b[k - a.len() - 1]));
            } else if k > a.len() + 1 + b.len() {
                assert(!speaks(c[k - a.len() - b.len() - 2]));
            }
        }
    }
    if is_block(other) {
        lemma_block(other, rest);
        if !other.contains("bare"@) && forall|i: int|
            0 <= i < other.len() ==> !r.is_prefix_of(#[trigger] other[i]) {
            lemma_last_after_more(Seq::empty(), other, r);
            assert(Seq::<Seq<char>>::empty() + other =~= other);
        }
    }
    assert(Seq::<(Seq<char>, Seq<u8>)>::empty() + worktrees_in(rest) =~= worktrees_in(rest));
    law_lines(none, none);
    let f = |block: Seq<Seq<char>>| worktree_in(block);
    let e = Seq::<Seq<char>>::empty();
    assert(split(e, none) =~= seq![e]);
    Seq::lemma_filter_map_singleton(e, f);
    assert(worktrees_in(none) =~= Seq::empty());
}

proof fn lemma_block(block: Seq<Seq<char>>, rest: Seq<char>)
    requires
        is_block(block),
    ensures
        worktrees_in(block_text(block) + seq!['\n'] + rest) == match worktree_in(block) {
            Some(found) => seq![found],
            None => Seq::empty(),
        } + worktrees_in(rest),
{
    let none = Seq::<char>::empty();
    lemma_block_lines(block, rest);
    assert(!block.contains(none)) by {
        if block.contains(none) {
            let k = choose|k: int| 0 <= k < block.len() && block[k] == none;
            assert(is_line(block[k]));
        }
    }
    lemma_split_first(block, none, lines(rest));
    lemma_filter_map_first(
        block,
        split(lines(rest), none),
        |block: Seq<Seq<char>>| worktree_in(block),
    );
}

/// A `.git` file names the directory that stands behind its keyword, white
/// space around aside; a text that does not start with the keyword names none.
pub proof fn law_gitdir(front: Seq<char>, dir: Seq<char>, back: Seq<char>, content: Seq<char>)
    requires
        is_blank(front),
        is_blank(back),
        dir.len() > 0,
        !is_white_space(dir.last()),
    ensures
        gitdir_in(front + ("gitdir: "@ + dir) + back) == Some(dir),
        gitdir_in(content) matches Some(named) ==> trimmed(content) == "gitdir: "@ + named,
        gitdir_in(content) is None <==> !"gitdir: "@.is_prefix_of(trimmed(content)),
{
    reveal_strlit("gitdir: ");
    let p = "gitdir: "@;
    let t = p + dir;
    assert(t[0] == 'g');
    assert(t.last() == dir.last());
    law_trim_removes(front, t, back);
    lemma_behind(p, dir);
    if p.is_prefix_of(trimmed(content)) {
        let s = trimmed(content);
        assert(p =~= s.subrange(0, p.len() as int));
        assert(s =~= p + s.skip(p.len() as int));
    }
}

/// How failures of git are answered. A missing repository or branch is a
/// missing file, and so is one that the remote keeps from us; a branch that is
/// already there or checked out exists; anything else is an I/O error.
pub proof fn law_git_failures_are_answered(
    what: Seq<char>,
    args: Seq<Seq<char>>,
    stderr: Seq<char>,
    kind: IoErrorKind,
)
    ensures
        says_repo_missing(stderr) <==> means_no_repository(stderr),
        says_branch_missing(stderr) <==> means_no_branch(stderr),
        materialize_status(GitErrorView::RepoNotFound(what)) == Status::NoEnt,
        materialize_status(GitErrorView::BranchNotFound(what)) == Status::NoEnt,
        materialize_status(GitErrorView::CommandFailed { args, stderr }) == Status::Io,
        materialize_status(GitErrorView::Io(kind)) == Status::Io,
        creation_status(GitErrorView::RepoNotFound(what)) == Status::Io,
        creation_status(GitErrorView::BranchNotFound(what)) == Status::Io,
        creation_status(GitErrorView::Io(kind)) == Status::Io,
        creation_status(GitErrorView::CommandFailed { args, stderr }) == if occurs(
            "already exists"@,
            stderr,
        ) || occurs("already checked out"@, stderr) {
            Status::Exist
        } else {
            Status::Io
        },
        says_exists(stderr) <==> occurs("already exists"@, stderr) || occurs(
            "already checked out"@,
            stderr,
        ),
{
    lemma_found_in_found(stderr);
}

/// How refusals of the operating system are answered: two different ones never
/// alike, and each by its own name.
pub proof fn law_refusals_are_answered(a: IoErrorKind, b: IoErrorKind)
    ensures
        io_status(a) == io_status(b) <==> a == b,
        io_status(IoErrorKind::NotFound) == Status::NoEnt,
        io_status(IoErrorKind::PermissionDenied) == Status::Acces,
        io_status(IoErrorKind::AlreadyExists) == Status::Exist,
        io_status(IoErrorKind::DirectoryNotEmpty) == Status::NotEmpty,
        io_status(IoErrorKind::Other) == Status::Io,
{
}

/// What went wrong is reported as it happened: a run of git that failed with
/// what was run and what git printed, and everything else with what the
/// operating system said. Only a complaint of git that means so turns into a
/// missing repository or branch, of the name given.
pub proof fn law_failures_are_reported(
    action: ActionView,
    cwd: Option<Seq<u8>>,
    args: Seq<Seq<char>>,
    stderr: Seq<u8>,
    kind: IoErrorKind,
    what: Seq<char>,
)
    ensures
        failure(action, ReplyView::Failed(kind)) == GitErrorView::Io(kind),
        ({
            let ran = GitErrorView::CommandFailed { args, stderr: lossy(stderr) };
            &&& failure(ActionView::Run { cwd, args }, ReplyView::Refused(stderr)) == ran
            &&& reported(OnFailureView::Abort, ran) == ran
            &&& reported(OnFailureView::RepoMissing(what), ran) == if means_no_repository(
                lossy(stderr),
            ) {
                GitErrorView::RepoNotFound(what)
            } else {
                ran
            }
            &&& reported(OnFailureView::BranchMissing(what), ran) == if means_no_branch(
                lossy(stderr),
            ) {
                GitErrorView::BranchNotFound(what)
            } else {
                ran
            }
        }),
        action !is Run ==> failure(action, ReplyView::Refused(stderr)) == GitErrorView::Io(
            IoErrorKind::Other,
        ),
        reported(OnFailureView::Abort, GitErrorView::Io(kind)) == GitErrorView::Io(kind),
        reported(OnFailureView::RepoMissing(what), GitErrorView::Io(kind)) == GitErrorView::Io(kind),
        reported(OnFailureView::BranchMissing(what), GitErrorView::Io(kind)) == GitErrorView::Io(
            kind,
        ),
{
    lemma_found_in_found(lossy(stderr));
}

} // verus!
