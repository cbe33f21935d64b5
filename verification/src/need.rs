//! What a request needs from outside, and what it is told in reply.

use crate::action::{GitError, GitErrorView, IoErrorKind};
use crate::caches::{listed_worktrees, names_in, RefreshTask, RefreshView};
use crate::fspath::FsPath;
use crate::porcelain::Checkout;
use crate::protocol::FileAttr;
use vstd::prelude::*;
use vstd::string::*;

verus! {

/// Something that a request needs before it can go on.
#[derive(Debug)]
pub enum Need {
    /// The worktrees of a repository; [`Event::Worktrees`].
    Worktrees { org: String, repo: String },
    /// The branches of a repository as the remote lists them, and where it
    /// does not, as they were last fetched; [`Event::Heads`].
    Heads { org: String, repo: String },
    /// A worktree of a branch; [`Event::CheckedOut`].
    CheckOut { org: String, repo: String, branch: String },
    /// The default branch of a repository; [`Event::DefaultBranch`].
    DefaultBranch { org: String, repo: String },
    /// A new branch forked off another; [`Event::CheckedOut`].
    Fork { org: String, repo: String, branch: String, base: String },
    /// A branch to be deleted everywhere; [`Event::Deleted`].
    Delete { org: String, repo: String, branch: String },
    /// A worktree to be brought up to date; [`Event::Refreshed`].
    Refresh(RefreshTask),
    /// Whether something stands at a path, be it a symlink that leads nowhere;
    /// [`Event::Exists`].
    Exists(FsPath),
    /// Whether something can be reached at a path; [`Event::Exists`].
    Reachable(FsPath),
    /// A directory to be made; [`Event::Made`].
    MakeDir(FsPath),
    /// A file or an empty directory to be removed; [`Event::Removed`].
    Remove(FsPath),
    /// The names in a directory; [`Event::Listed`].
    List(FsPath),
    /// The attributes of what stands at paths, for the nodes with the numbers
    /// given; [`Event::Attributes`].
    Attributes(Vec<Option<(u64, FsPath)>>),
}

/// What a [`Need`] says.
pub enum NeedView {
    Worktrees { org: Seq<char>, repo: Seq<char> },
    Heads { org: Seq<char>, repo: Seq<char> },
    CheckOut { org: Seq<char>, repo: Seq<char>, branch: Seq<char> },
    DefaultBranch { org: Seq<char>, repo: Seq<char> },
    Fork { org: Seq<char>, repo: Seq<char>, branch: Seq<char>, base: Seq<char> },
    Delete { org: Seq<char>, repo: Seq<char>, branch: Seq<char> },
    Refresh(RefreshView),
    Exists(Seq<u8>),
    Reachable(Seq<u8>),
    MakeDir(Seq<u8>),
    Remove(Seq<u8>),
    List(Seq<u8>),
    Attributes(Seq<Option<(u64, Seq<u8>)>>),
}

/// The paths in a list, by number.
pub open spec fn paths_in(wanted: Seq<Option<(u64, FsPath)>>) -> Seq<Option<(u64, Seq<u8>)>> {
    Seq::new(
        wanted.len(),
        |i: int|
            match wanted[i] {
                Some((id, path)) => Some((id, path@)),
                None => None,
            },
    )
}

impl View for Need {
    type V = NeedView;

    open spec fn view(&self) -> NeedView {
        match *self {
            Need::Worktrees { org, repo } => NeedView::Worktrees { org: org@, repo: repo@ },
            Need::Heads { org, repo } => NeedView::Heads { org: org@, repo: repo@ },
            Need::CheckOut { org, repo, branch } => NeedView::CheckOut {
                org: org@,
                repo: repo@,
                branch: branch@,
            },
            Need::DefaultBranch { org, repo } => NeedView::DefaultBranch { org: org@, repo: repo@ },
            Need::Fork { org, repo, branch, base } => NeedView::Fork {
                org: org@,
                repo: repo@,
                branch: branch@,
                base: base@,
            },
            Need::Delete { org, repo, branch } => NeedView::Delete {
                org: org@,
                repo: repo@,
                branch: branch@,
            },
            Need::Refresh(task) => NeedView::Refresh(task@),
            Need::Exists(path) => NeedView::Exists(path@),
            Need::Reachable(path) => NeedView::Reachable(path@),
            Need::MakeDir(path) => NeedView::MakeDir(path@),
            Need::Remove(path) => NeedView::Remove(path@),
            Need::List(path) => NeedView::List(path@),
            Need::Attributes(wanted) => NeedView::Attributes(paths_in(wanted@)),
        }
    }
}

/// The answer to a [`Need`].
#[derive(Debug)]
pub enum Event {
    Worktrees(Option<Vec<Checkout>>),
    Heads { remote: Option<Vec<String>>, local: Option<Vec<String>> },
    CheckedOut(Result<FsPath, GitError>),
    DefaultBranch(Option<String>),
    /// Whether the branch could be deleted.
    Deleted(bool),
    Refreshed,
    Exists(bool),
    Made(Result<(), IoErrorKind>),
    Removed(Result<(), IoErrorKind>),
    Listed(Result<Vec<Vec<u8>>, IoErrorKind>),
    Attributes(Vec<Option<FileAttr>>),
    /// Nothing could be found out.
    Failed,
}

/// What an [`Event`] says.
pub enum EventView {
    Worktrees(Seq<(Seq<char>, Seq<u8>)>),
    Heads { remote: Option<Seq<Seq<char>>>, local: Option<Seq<Seq<char>>> },
    CheckedOut(Result<Seq<u8>, GitErrorView>),
    DefaultBranch(Option<Seq<char>>),
    Deleted(bool),
    Refreshed,
    Exists(bool),
    Made(Result<(), IoErrorKind>),
    Removed(Result<(), IoErrorKind>),
    Listed(Result<Seq<Vec<u8>>, IoErrorKind>),
    Attributes(Seq<Option<FileAttr>>),
    Failed,
}

impl View for Event {
    type V = EventView;

    open spec fn view(&self) -> EventView {
        match *self {
            Event::Worktrees(listed) => EventView::Worktrees(listed_worktrees(listed)),
            Event::Heads { remote, local } => EventView::Heads {
                remote: names_in(remote),
                local: names_in(local),
            },
            Event::CheckedOut(Ok(root)) => EventView::CheckedOut(Ok(root@)),
            Event::CheckedOut(Err(e)) => EventView::CheckedOut(Err(e@)),
            Event::DefaultBranch(Some(name)) => EventView::DefaultBranch(Some(name@)),
            Event::DefaultBranch(None) => EventView::DefaultBranch(None),
            Event::Deleted(done) => EventView::Deleted(done),
            Event::Refreshed => EventView::Refreshed,
            Event::Exists(there) => EventView::Exists(there),
            Event::Made(result) => EventView::Made(result),
            Event::Removed(result) => EventView::Removed(result),
            Event::Listed(Ok(files)) => EventView::Listed(Ok(files@)),
            Event::Listed(Err(kind)) => EventView::Listed(Err(kind)),
            Event::Attributes(found) => EventView::Attributes(found@),
            Event::Failed => EventView::Failed,
        }
    }
}

} // verus!
