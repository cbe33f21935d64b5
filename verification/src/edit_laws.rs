//! What changes come to, in terms of the tree, the branches and the answers
//! they get.

use crate::action::{GitErrorView, IoErrorKind};
use crate::cache_laws::{
    is_anything_told, knows_absence, knows_branches, knows_worktrees, law_told_branches_are_known,
    told,
};
use crate::caches::{cached_answer, creation_status, foreign_in, known_foreign};
use crate::changes::{attributes, creates, link_target, links, renames, AttrStepView, LinkStepView};
use crate::component::{is_valid_component, is_valid_disk_name};
use crate::config::Config;
use crate::fs::path_of;
use crate::fspath::path_join;
use crate::lookup_laws::{are_known, hangs, law_names_are_spelled, same_nodes_but};
use crate::need::{EventView, NeedView};
use crate::node::{ForeignView, StateView};
use crate::protocol::{io_status, name_in, read_reply, FileType, Status};
use crate::serve_edit::{
    mkdir_continued, mkdir_started, remove_continued, remove_started, MkdirNextView,
    MkdirStageView, RemoveNextView, RemoveStageView,
};
use crate::task::{DiskTaskView, RefsTaskView};
use crate::text::{join, utf8};
use crate::text_laws::law_disk_names;
use crate::tree::{ContextView, KindView, NfsTime, TreeView};
use crate::tree_laws::law_added_file_path;
use vstd::prelude::*;
use vstd::utf8::valid_utf8;

verus! {

/// Whether a file can have a name: it is not empty, neither `.` nor `..`, and
/// has neither a slash nor a NUL in it.
pub open spec fn can_name_a_file(name: Seq<char>) -> bool {
    &&& name.len() > 0
    &&& name != "."@
    &&& name != ".."@
    &&& forall|i: int| 0 <= i < name.len() ==> #[trigger] name[i] != '/' && name[i] != '\0'
}

proof fn lemma_can_name_a_file(name: Seq<char>)
    ensures
        is_valid_disk_name(name) <==> can_name_a_file(name),
{
    law_disk_names(name);
    reveal_strlit(".");
    reveal_strlit("..");
    if can_name_a_file(name) {
        if name.len() == 1 && name[0] == '.' {
            assert(name =~= "."@);
        }
        if name.len() == 2 && name[0] == '.' && name[1] == '.' {
            assert(name =~= ".."@);
        }
    }
}

/// Where something called `name` is or is to be in a directory: right in it, if
/// the directory is one on disk. A name that no file can have is refused, a
/// directory that is not there is stale, and the virtual ones cannot be written
/// to.
pub open spec fn is_placed(
    tree: TreeView,
    dirid: u64,
    name: Seq<char>,
    place: Result<DiskTaskView, Status>,
) -> bool {
    if !can_name_a_file(name) {
        place == Err::<DiskTaskView, Status>(Status::Acces)
    } else if !tree.nodes.contains_key(dirid) {
        place == Err::<DiskTaskView, Status>(Status::Stale)
    } else if tree.disk_path(dirid) is None {
        place == Err::<DiskTaskView, Status>(Status::RoFs)
    } else {
        place matches Ok(task) && {
            &&& task.dirid == dirid
            &&& task.name == name
            &&& task.path == path_join(tree.disk_path(dirid).unwrap(), utf8(name))
        }
    }
}

/// Files and symlinks are created right in their directory, under every name
/// that a file can have. A name that is no text is not there; a symlink to what
/// is no text is invalid.
pub proof fn law_creations_are_placed(
    tree: TreeView,
    dirid: u64,
    name: Seq<char>,
    bytes: Seq<u8>,
    target: Seq<u8>,
)
    ensures
        is_placed(tree, dirid, name, creates(tree, dirid, utf8(name))),
        !valid_utf8(bytes) ==> creates(tree, dirid, bytes) == Err::<DiskTaskView, Status>(
            Status::NoEnt,
        ),
        valid_utf8(target) ==> is_placed(tree, dirid, name, links(tree, dirid, utf8(name), target)),
        !valid_utf8(target) ==> links(tree, dirid, utf8(name), target) == if can_name_a_file(name) {
            Err::<DiskTaskView, Status>(Status::Inval)
        } else {
            Err(Status::Acces)
        },
        !valid_utf8(bytes) ==> links(tree, dirid, bytes, target) == Err::<DiskTaskView, Status>(
            Status::NoEnt,
        ),
{
    law_names_are_spelled(name, bytes);
    law_names_are_spelled(name, target);
    lemma_can_name_a_file(name);
}

/// A rename goes from the one place to the other. It is refused where either
/// name is none that a file can have, and otherwise where either directory is
/// not one on disk, the first of the two deciding.
pub proof fn law_renames_are_placed(
    tree: TreeView,
    from: u64,
    from_name: Seq<char>,
    to: u64,
    to_name: Seq<char>,
    bytes: Seq<u8>,
)
    ensures
        ({
            let place = renames(tree, from, utf8(from_name), to, utf8(to_name));
            if can_name_a_file(from_name) && can_name_a_file(to_name) {
                match place {
                    Ok((source, target)) => {
                        &&& is_placed(tree, from, from_name, Ok(source))
                        &&& is_placed(tree, to, to_name, Ok(target))
                    },
                    Err(status) => {
                        ||| is_placed(tree, from, from_name, Err(status))
                        ||| tree.disk_path(from) is Some && is_placed(
                            tree,
                            to,
                            to_name,
                            Err(status),
                        )
                    },
                }
            } else {
                place == Err::<(DiskTaskView, DiskTaskView), Status>(Status::Acces)
            }
        }),
        !valid_utf8(bytes) ==> renames(tree, from, bytes, to, utf8(to_name)) == Err::<
            (DiskTaskView, DiskTaskView),
            Status,
        >(Status::NoEnt),
        !valid_utf8(bytes) ==> renames(tree, from, utf8(from_name), to, bytes) == Err::<
            (DiskTaskView, DiskTaskView),
            Status,
        >(Status::NoEnt),
{
    law_names_are_spelled(from_name, bytes);
    law_names_are_spelled(to_name, bytes);
    lemma_can_name_a_file(from_name);
    lemma_can_name_a_file(to_name);
}

/// Outside the `refs` subtree a directory is made on disk, right in its
/// directory, and hangs there from then on; where that fails, nothing changes.
pub proof fn law_directories_are_made_on_disk(
    cfg: &Config,
    state: StateView,
    dirid: u64,
    name: Seq<char>,
    now: u128,
    kind: IoErrorKind,
    later: u128,
    wall: NfsTime,
)
    requires
        state.tree.wf(),
        state.tree.next_id < u64::MAX,
        state.tree.kind(dirid) matches Some(at) && !(at is RefsRoot) && !(at is RefPath),
    ensures
        ({
            let next = mkdir_started(cfg, state, dirid, utf8(name), now);
            match next {
                MkdirNextView::Done(Ok(_)) => false,
                MkdirNextView::Done(Err(status)) => is_placed(
                    state.tree,
                    dirid,
                    name,
                    Err(status),
                ),
                MkdirNextView::Wait(need, stage) => {
                    let (done, end) = mkdir_continued(
                        cfg,
                        state,
                        stage,
                        EventView::Made(Ok(())),
                        later,
                        wall,
                    );
                    &&& need matches NeedView::MakeDir(path) && {
                        &&& is_placed(
                            state.tree,
                            dirid,
                            name,
                            Ok(DiskTaskView { dirid, name, path }),
                        )
                        &&& end matches MkdirNextView::Done(Ok((id, at))) && {
                            &&& at == path
                            &&& done.tree.child(dirid, name) == Some(id)
                            &&& same_nodes_but(state.tree, done.tree, dirid, id)
                            &&& state.tree.child(dirid, name) is None ==> {
                                &&& done.tree.kind(id) == Some(KindView::Disk)
                                &&& done.tree.disk_path(id) == Some(path)
                            }
                            &&& state.tree.child(dirid, name) is Some ==> done == state
                        }
                    }
                    &&& done == (StateView { tree: done.tree, ..state })
                    &&& mkdir_continued(
                        cfg,
                        state,
                        stage,
                        EventView::Made(Err(kind)),
                        later,
                        wall,
                    ) == (state, MkdirNextView::Done(Err(io_status(kind))))
                },
            }
        }),
{
    law_names_are_spelled(name, utf8(name));
    lemma_can_name_a_file(name);
    assert(dirid < state.tree.next_id);
    if state.tree.child(dirid, name) is None {
        law_added_file_path(state.tree, dirid, name, wall);
    }
}

/// Whether a new branch can be asked for at a place in the `refs` subtree.
pub open spec fn is_branch_place(
    state: StateView,
    dirid: u64,
    context: ContextView,
    name: Seq<char>,
) -> bool {
    &&& state.tree.wf()
    &&& state.tree.next_id < u64::MAX
    &&& state.tree.kind(dirid) matches Some(kind) && (kind is RefsRoot || kind is RefPath)
    &&& state.tree.refs_context(dirid) == Some(context)
    &&& state.tree.child(dirid, name) is None
    &&& is_valid_component(name)
}

/// Whether a name leads on to nothing yet: no branch of the remote and none that
/// is checked out elsewhere is, or lies below, what the steps make.
pub open spec fn is_free(
    segs: Seq<Seq<char>>,
    foreign: Map<Seq<char>, Seq<u8>>,
    branches: Set<Seq<Seq<char>>>,
) -> bool {
    &&& forall|b: Seq<Seq<char>>| #[trigger] branches.contains(b) ==> !segs.is_prefix_of(b)
    &&& !foreign.contains_key(join(segs, '/'))
    &&& forall|f: Seq<char>| #[trigger]
        foreign.contains_key(f) ==> !(join(segs, '/') + seq!['/']).is_prefix_of(f)
}

/// A name in the `refs` subtree that is no text is not there, a place that is
/// lost is stale, a child that is there exists, and a name that can be no step
/// of a branch name is refused; nobody is asked.
pub proof fn law_refused_branches(
    cfg: &Config,
    state: StateView,
    dirid: u64,
    name: Seq<char>,
    bytes: Seq<u8>,
    now: u128,
)
    ensures
        !valid_utf8(bytes) ==> mkdir_started(cfg, state, dirid, bytes, now)
            == MkdirNextView::Done(Err(Status::NoEnt)),
        !state.tree.nodes.contains_key(dirid) ==> mkdir_started(
            cfg,
            state,
            dirid,
            utf8(name),
            now,
        ) == MkdirNextView::Done(Err(Status::Stale)),
        state.tree.kind(dirid) matches Some(kind) ==> (kind is RefsRoot || kind is RefPath ==> {
            let next = mkdir_started(cfg, state, dirid, utf8(name), now);
            if state.tree.child(dirid, name) is Some {
                next == MkdirNextView::Done(Err(Status::Exist))
            } else if !is_valid_component(name) {
                next == MkdirNextView::Done(Err(Status::Acces))
            } else {
                state.tree.refs_context(dirid) is None ==> next == MkdirNextView::Done(
                    Err(Status::Stale),
                )
            }
        }),
{
    law_names_are_spelled(name, bytes);
}

/// Where a branch is made: under the name that its steps make, off the default
/// branch of the repository, which is asked for unless it is remembered. A name
/// that leads to a branch already exists.
#[verifier::rlimit(40)]
pub proof fn law_branches_are_forked(
    cfg: &Config,
    state: StateView,
    dirid: u64,
    context: ContextView,
    name: Seq<char>,
    foreign: Map<Seq<char>, Seq<u8>>,
    branches: Set<Seq<Seq<char>>>,
    now: u128,
    base: Seq<char>,
    later: u128,
    wall: NfsTime,
)
    requires
        is_branch_place(state, dirid, context, name),
        are_known(cfg, state, (context.org, context.repo), foreign, branches, now),
    ensures
        ({
            let key = (context.org, context.repo);
            let segs = context.segs.push(name);
            let next = mkdir_started(cfg, state, dirid, utf8(name), now);
            if !is_free(segs, foreign, branches) {
                next == MkdirNextView::Done(Err(Status::Exist))
            } else if state.default_branches.contains_key(key) {
                next matches MkdirNextView::Wait(need, stage) && need == (NeedView::Fork {
                    org: context.org,
                    repo: context.repo,
                    branch: join(segs, '/'),
                    base: state.default_branches[key],
                })
            } else {
                next matches MkdirNextView::Wait(need, stage) && {
                    let remembered = StateView {
                        default_branches: state.default_branches.insert(key, base),
                        ..state
                    };
                    &&& need == (NeedView::DefaultBranch { org: context.org, repo: context.repo })
                    &&& mkdir_continued(
                        cfg,
                        state,
                        stage,
                        EventView::DefaultBranch(Some(base)),
                        now,
                        wall,
                    ) == (remembered, mkdir_started(cfg, remembered, dirid, utf8(name), now))
                    &&& mkdir_continued(
                        cfg,
                        state,
                        stage,
                        EventView::DefaultBranch(None),
                        later,
                        wall,
                    ) == (state, MkdirNextView::Done(Err(Status::Io)))
                }
            }
        }),
{
    law_names_are_spelled(name, utf8(name));
}

/// Once a branch is forked, it hangs in its directory as a worktree where it
/// was checked out, and its first refresh is left out; where that fails, nothing
/// changes.
pub proof fn law_forked_branches_are_entered(
    cfg: &Config,
    state: StateView,
    dirid: u64,
    context: ContextView,
    name: Seq<char>,
    now: u128,
    org: Seq<char>,
    repo: Seq<char>,
    branch: Seq<char>,
    base: Seq<char>,
    stage: MkdirStageView,
    root: Seq<u8>,
    error: GitErrorView,
    later: u128,
    wall: NfsTime,
)
    requires
        is_branch_place(state, dirid, context, name),
        mkdir_started(cfg, state, dirid, utf8(name), now) == MkdirNextView::Wait(
            NeedView::Fork { org, repo, branch, base },
            stage,
        ),
    ensures
        ({
            let (after, end) = mkdir_continued(
                cfg,
                state,
                stage,
                EventView::CheckedOut(Ok(root)),
                later,
                wall,
            );
            end matches MkdirNextView::Done(Ok((id, at))) && {
                &&& at == root
                &&& hangs(after.tree, dirid, name, id, KindView::Worktree { root })
                &&& !state.tree.nodes.contains_key(id)
                &&& same_nodes_but(state.tree, after.tree, dirid, id)
                &&& after == (StateView {
                    tree: after.tree,
                    wt_refresh: state.wt_refresh.insert(id, later),
                    ..state
                })
            }
        }),
        mkdir_continued(cfg, state, stage, EventView::CheckedOut(Err(error)), later, wall) == (
            state,
            MkdirNextView::Done(Err(creation_status(error))),
        ),
{
    law_names_are_spelled(name, utf8(name));
    assert(dirid < state.tree.next_id);
}

/// What is not known, the making of a branch asks for: the branches first, and
/// the foreign worktrees only where no branch of the remote is in the way. A
/// repository that was found missing a moment ago is not asked about again.
pub proof fn law_mkdir_asks(
    cfg: &Config,
    state: StateView,
    dirid: u64,
    context: ContextView,
    name: Seq<char>,
    now: u128,
)
    requires
        is_branch_place(state, dirid, context, name),
    ensures
        ({
            let (org, repo) = (context.org, context.repo);
            let branches = state.tries[(org, repo)].branches;
            let is_taken = exists|b: Seq<Seq<char>>| #[trigger]
                branches.contains(b) && context.segs.push(name).is_prefix_of(b);
            let next = mkdir_started(cfg, state, dirid, utf8(name), now);
            if !knows_branches(cfg, state, (org, repo), now) {
                if knows_absence(cfg, state, (org, repo), now) {
                    next == MkdirNextView::Done(Err(Status::NoEnt))
                } else {
                    next matches MkdirNextView::Wait(need, _) && need == (NeedView::Heads {
                        org,
                        repo,
                    })
                }
            } else if is_taken {
                next == MkdirNextView::Done(Err(Status::Exist))
            } else {
                !knows_worktrees(cfg, state, (org, repo), now) ==> (
                next matches MkdirNextView::Wait(need, _) && need == (NeedView::Worktrees {
                    org,
                    repo,
                }))
            }
        }),
{
    law_names_are_spelled(name, utf8(name));
}

/// The making of a branch that had to ask for the foreign worktrees goes on as
/// if they had been known when it started.
pub proof fn law_mkdir_goes_on_with_worktrees(
    cfg: &Config,
    state: StateView,
    dirid: u64,
    dirname: Seq<u8>,
    now: u128,
    wall: NfsTime,
    org: Seq<char>,
    repo: Seq<char>,
    stage: MkdirStageView,
    list: Seq<(Seq<char>, Seq<u8>)>,
)
    requires
        mkdir_started(cfg, state, dirid, dirname, now) == MkdirNextView::Wait(
            NeedView::Worktrees { org, repo },
            stage,
        ),
        cfg.branch_ttl > 0,
    ensures
        ({
            let known = StateView {
                foreign: state.foreign.insert(
                    (org, repo),
                    ForeignView { worktrees: foreign_in(cfg, org, repo, list), listed: now },
                ),
                ..state
            };
            mkdir_continued(cfg, state, stage, EventView::Worktrees(list), now, wall) == (
                known,
                mkdir_started(cfg, known, dirid, dirname, now),
            )
        }),
{
    let key = (org, repo);
    let foreign = foreign_in(cfg, org, repo, list);
    let known = StateView {
        foreign: state.foreign.insert(key, ForeignView { worktrees: foreign, listed: now }),
        ..state
    };
    assert(known_foreign(cfg, known, key, now) == Some(foreign));
    assert(cached_answer(cfg, known, key, now) == cached_answer(cfg, state, key, now));
}

/// The making of a branch that had to ask for the branches goes on as if they
/// had been known when it started, from whomever they came; where nobody knows
/// them, the repository is missing from then on.
pub proof fn law_mkdir_goes_on_with_branches(
    cfg: &Config,
    state: StateView,
    dirid: u64,
    filename: Seq<u8>,
    now: u128,
    wall: NfsTime,
    org: Seq<char>,
    repo: Seq<char>,
    stage: MkdirStageView,
    remote: Option<Seq<Seq<char>>>,
    local: Option<Seq<Seq<char>>>,
)
    requires
        state.tree.wf(),
        mkdir_started(cfg, state, dirid, filename, now) == MkdirNextView::Wait(
            NeedView::Heads { org, repo },
            stage,
        ),
        cfg.branch_ttl > 0,
    ensures
        ({
            let key = (org, repo);
            let event = EventView::Heads { remote, local };
            let (done, next) = mkdir_continued(cfg, state, stage, event, now, wall);
            let known = told(state, key, remote, local, now, wall);
            if is_anything_told(state, key, remote, local) {
                &&& next == mkdir_started(cfg, known, dirid, filename, now)
                &&& done == (StateView { tries: done.tries, ..known })
                &&& remote is Some ==> done == known
            } else {
                &&& next == MkdirNextView::Done(Err(Status::NoEnt))
                &&& done == (StateView {
                    missing_repos: state.missing_repos.insert(key, now),
                    ..state
                })
            }
        }),
{
    let key = (org, repo);
    law_told_branches_are_known(cfg, state, key, remote, local, now, wall, dirid);
    let known = told(state, key, remote, local, now, wall);
    let name = name_in(filename).unwrap();
    assert(known.tree.kind(dirid) == state.tree.kind(dirid));
    assert(known.tree.child(dirid, name) == state.tree.child(dirid, name));
    if let Some(id) = state.tree.child(dirid, name) {
        assert(known.tree.kind(id) == state.tree.kind(id));
    }
}

/// Outside the `refs` subtree something is removed on disk, right in its
/// directory, and nothing hangs there from then on; where that fails, nothing
/// changes.
pub proof fn law_files_are_removed_on_disk(
    cfg: &Config,
    state: StateView,
    dirid: u64,
    name: Seq<char>,
    now: u128,
    kind: IoErrorKind,
    later: u128,
    wall: NfsTime,
)
    requires
        state.tree.wf(),
        state.tree.kind(dirid) matches Some(at) && !(at is RefsRoot) && !(at is RefPath),
        state.tree.child(dirid, name) != Some(dirid),
    ensures
        ({
            let next = remove_started(cfg, state, dirid, utf8(name), now);
            match next {
                RemoveNextView::Done(Ok(_)) => false,
                RemoveNextView::Done(Err(status)) => is_placed(
                    state.tree,
                    dirid,
                    name,
                    Err(status),
                ),
                RemoveNextView::Wait(need, stage) => {
                    let (done, end) = remove_continued(
                        cfg,
                        state,
                        stage,
                        EventView::Removed(Ok(())),
                        later,
                        wall,
                    );
                    &&& need matches NeedView::Remove(path) && is_placed(
                        state.tree,
                        dirid,
                        name,
                        Ok(DiskTaskView { dirid, name, path }),
                    )
                    &&& end == RemoveNextView::Done(Ok(()))
                    &&& done == (StateView { tree: done.tree, ..state })
                    &&& is_taken_out(state.tree, done.tree, dirid, name)
                    &&& remove_continued(
                        cfg,
                        state,
                        stage,
                        EventView::Removed(Err(kind)),
                        later,
                        wall,
                    ) == (state, RemoveNextView::Done(Err(io_status(kind))))
                },
            }
        }),
{
    law_names_are_spelled(name, utf8(name));
    lemma_can_name_a_file(name);
}

/// Whether a child has been taken out of a directory: its name leads nowhere,
/// its node is gone, and all other children and nodes are as they were.
pub open spec fn is_taken_out(
    before: TreeView,
    after: TreeView,
    dirid: u64,
    name: Seq<char>,
) -> bool {
    &&& after.child(dirid, name) is None
    &&& after.next_id == before.next_id
    &&& after.kind(dirid) == before.kind(dirid)
    &&& before.child(dirid, name) is None ==> after == before
    &&& before.child(dirid, name) matches Some(id) ==> {
        &&& !after.nodes.contains_key(id)
        &&& same_nodes_but(before, after, dirid, id)
        &&& forall|other: Seq<char>|
            other != name ==> #[trigger] after.child(dirid, other) == before.child(dirid, other)
    }
}

/// In the `refs` subtree a removal deletes a branch, under the name that its
/// steps make: what is checked out, here or elsewhere, without asking; anything
/// else only if it is a branch. What only leads to branches is refused, and what
/// leads to none is not there.
pub proof fn law_branches_are_deleted(
    cfg: &Config,
    state: StateView,
    dirid: u64,
    context: ContextView,
    name: Seq<char>,
    foreign: Map<Seq<char>, Seq<u8>>,
    branches: Set<Seq<Seq<char>>>,
    now: u128,
)
    requires
        state.tree.kind(dirid) matches Some(kind) && (kind is RefsRoot || kind is RefPath),
        state.tree.refs_context(dirid) == Some(context),
    ensures
        ({
            let segs = context.segs.push(name);
            let branch = join(segs, '/');
            let next = remove_started(cfg, state, dirid, utf8(name), now);
            let deletes = next matches RemoveNextView::Wait(need, RemoveStageView::Delete(task))
                && {
                &&& need == (NeedView::Delete { org: context.org, repo: context.repo, branch })
                &&& task == (RefsTaskView {
                    dirid,
                    parent: context,
                    name,
                    existing: state.tree.child(dirid, name),
                })
            };
            let checked_out = state.tree.child(dirid, name) matches Some(id) && (state.tree.kind(
                id,
            ) matches Some(kind) && (kind is Worktree || kind is ForeignWorktree));
            let known = are_known(
                cfg,
                state,
                (context.org, context.repo),
                foreign,
                branches,
                now,
            );
            &&& checked_out ==> deletes
            &&& !checked_out && known ==> if foreign.contains_key(branch) || branches.contains(
                segs,
            ) {
                deletes
            } else if exists|b: Seq<Seq<char>>| #[trigger]
                branches.contains(b) && segs.is_prefix_of(b) {
                next == RemoveNextView::Done(Err(Status::Acces))
            } else {
                next == RemoveNextView::Done(Err(Status::NoEnt))
            }
        }),
{
    law_names_are_spelled(name, utf8(name));
}

/// Once a branch is deleted, nothing hangs in its place, and neither the
/// branches nor the foreign worktrees of its repository are remembered; nothing
/// else is forgotten. A deletion that did not come about changes nothing.
pub proof fn law_deleted_branches_are_forgotten(
    cfg: &Config,
    state: StateView,
    task: RefsTaskView,
    now: u128,
    wall: NfsTime,
)
    requires
        state.tree.wf(),
        state.tree.child(task.dirid, task.name) != Some(task.dirid),
    ensures
        ({
            let key = (task.parent.org, task.parent.repo);
            let (after, end) = remove_continued(
                cfg,
                state,
                RemoveStageView::Delete(task),
                EventView::Deleted(true),
                now,
                wall,
            );
            &&& end == RemoveNextView::Done(Ok(()))
            &&& is_taken_out(state.tree, after.tree, task.dirid, task.name)
            &&& after.tries == state.tries.remove(key)
            &&& after.foreign == state.foreign.remove(key)
            &&& after.missing_repos == state.missing_repos
            &&& after.default_branches == state.default_branches
            &&& after.wt_refresh == match state.tree.child(task.dirid, task.name) {
                Some(id) => state.wt_refresh.remove(id),
                None => state.wt_refresh,
            }
        }),
        remove_continued(
            cfg,
            state,
            RemoveStageView::Delete(task),
            EventView::Deleted(false),
            now,
            wall,
        ) == (state, RemoveNextView::Done(Err(Status::Io))),
{
}

/// A removal whose name is no text, or whose directory is not there or has lost
/// its place, is refused, and nobody is asked.
pub proof fn law_refused_removals(
    cfg: &Config,
    state: StateView,
    dirid: u64,
    name: Seq<char>,
    bytes: Seq<u8>,
    now: u128,
)
    ensures
        !valid_utf8(bytes) ==> remove_started(cfg, state, dirid, bytes, now)
            == RemoveNextView::Done(Err(Status::NoEnt)),
        !state.tree.nodes.contains_key(dirid) ==> remove_started(
            cfg,
            state,
            dirid,
            utf8(name),
            now,
        ) == RemoveNextView::Done(Err(Status::Stale)),
        state.tree.kind(dirid) matches Some(kind) ==> (kind is RefsRoot || kind is RefPath ==> (
        state.tree.refs_context(dirid) is None ==> remove_started(
            cfg,
            state,
            dirid,
            utf8(name),
            now,
        ) == RemoveNextView::Done(Err(Status::Stale)))),
{
    law_names_are_spelled(name, bytes);
}

/// What is not known, a removal of what is not checked out asks for: the foreign
/// worktrees first, and the branches only where none of those is the branch. A
/// repository that was found missing a moment ago is not asked about again.
pub proof fn law_removal_asks(
    cfg: &Config,
    state: StateView,
    dirid: u64,
    context: ContextView,
    name: Seq<char>,
    now: u128,
)
    requires
        state.tree.kind(dirid) matches Some(kind) && (kind is RefsRoot || kind is RefPath),
        state.tree.refs_context(dirid) == Some(context),
        state.tree.child(dirid, name) matches Some(id) ==> !(state.tree.kind(id) matches Some(
            KindView::Worktree { .. },
        )) && !(state.tree.kind(id) matches Some(KindView::ForeignWorktree { .. })),
    ensures
        ({
            let (org, repo) = (context.org, context.repo);
            let branch = join(context.segs.push(name), '/');
            let foreign = state.foreign[(org, repo)].worktrees;
            let next = remove_started(cfg, state, dirid, utf8(name), now);
            if !knows_worktrees(cfg, state, (org, repo), now) {
                next matches RemoveNextView::Wait(need, _) && need == (NeedView::Worktrees {
                    org,
                    repo,
                })
            } else if foreign.contains_key(branch) {
                next matches RemoveNextView::Wait(need, _) && need == (NeedView::Delete {
                    org,
                    repo,
                    branch,
                })
            } else if !knows_branches(cfg, state, (org, repo), now) {
                if knows_absence(cfg, state, (org, repo), now) {
                    next == RemoveNextView::Done(Err(Status::NoEnt))
                } else {
                    next matches RemoveNextView::Wait(need, _) && need == (NeedView::Heads {
                        org,
                        repo,
                    })
                }
            } else {
                true
            }
        }),
{
    law_names_are_spelled(name, utf8(name));
}

/// A removal that had to ask for the foreign worktrees goes on as if they had
/// been known when it started.
pub proof fn law_removal_goes_on_with_worktrees(
    cfg: &Config,
    state: StateView,
    dirid: u64,
    filename: Seq<u8>,
    now: u128,
    wall: NfsTime,
    org: Seq<char>,
    repo: Seq<char>,
    stage: RemoveStageView,
    list: Seq<(Seq<char>, Seq<u8>)>,
)
    requires
        remove_started(cfg, state, dirid, filename, now) == RemoveNextView::Wait(
            NeedView::Worktrees { org, repo },
            stage,
        ),
        cfg.branch_ttl > 0,
    ensures
        ({
            let known = StateView {
                foreign: state.foreign.insert(
                    (org, repo),
                    ForeignView { worktrees: foreign_in(cfg, org, repo, list), listed: now },
                ),
                ..state
            };
            remove_continued(cfg, state, stage, EventView::Worktrees(list), now, wall) == (
                known,
                remove_started(cfg, known, dirid, filename, now),
            )
        }),
{
    let key = (org, repo);
    let foreign = foreign_in(cfg, org, repo, list);
    let known = StateView {
        foreign: state.foreign.insert(key, ForeignView { worktrees: foreign, listed: now }),
        ..state
    };
    assert(known_foreign(cfg, known, key, now) == Some(foreign));
    assert(cached_answer(cfg, known, key, now) == cached_answer(cfg, state, key, now));
}

/// A removal that had to ask for the branches goes on as if they
/// had been known when it started, from whomever they came; where nobody knows
/// them, the repository is missing from then on.
pub proof fn law_removal_goes_on_with_branches(
    cfg: &Config,
    state: StateView,
    dirid: u64,
    filename: Seq<u8>,
    now: u128,
    wall: NfsTime,
    org: Seq<char>,
    repo: Seq<char>,
    stage: RemoveStageView,
    remote: Option<Seq<Seq<char>>>,
    local: Option<Seq<Seq<char>>>,
)
    requires
        state.tree.wf(),
        remove_started(cfg, state, dirid, filename, now) == RemoveNextView::Wait(
            NeedView::Heads { org, repo },
            stage,
        ),
        cfg.branch_ttl > 0,
    ensures
        ({
            let key = (org, repo);
            let event = EventView::Heads { remote, local };
            let (done, next) = remove_continued(cfg, state, stage, event, now, wall);
            let known = told(state, key, remote, local, now, wall);
            if is_anything_told(state, key, remote, local) {
                &&& next == remove_started(cfg, known, dirid, filename, now)
                &&& done == (StateView { tries: done.tries, ..known })
                &&& remote is Some ==> done == known
            } else {
                &&& next == RemoveNextView::Done(Err(Status::NoEnt))
                &&& done == (StateView {
                    missing_repos: state.missing_repos.insert(key, now),
                    ..state
                })
            }
        }),
{
    let key = (org, repo);
    law_told_branches_are_known(cfg, state, key, remote, local, now, wall, dirid);
    let known = told(state, key, remote, local, now, wall);
    let name = name_in(filename).unwrap();
    assert(known.tree.kind(dirid) == state.tree.kind(dirid));
    assert(known.tree.child(dirid, name) == state.tree.child(dirid, name));
    if let Some(id) = state.tree.child(dirid, name) {
        assert(known.tree.kind(id) == state.tree.kind(id));
    }
}

/// An answer that does not come is an I/O error and changes nothing.
pub proof fn law_changes_without_an_answer(
    cfg: &Config,
    state: StateView,
    mkdir: MkdirStageView,
    remove: RemoveStageView,
    now: u128,
    wall: NfsTime,
)
    ensures
        mkdir_continued(cfg, state, mkdir, EventView::Failed, now, wall) == (
            state,
            MkdirNextView::Done(Err(Status::Io)),
        ),
        remove_continued(cfg, state, remove, EventView::Failed, now, wall) == (
            state,
            RemoveNextView::Done(Err(Status::Io)),
        ),
{
}

/// What stands on disk has its attributes from there. A symlink to a foreign
/// worktree is as long as the path that it leads to. Everything else is a
/// directory of the owner that all may read, dated by its last change. What is
/// not there is stale.
pub proof fn law_attributes(tree: TreeView, owner: (u32, u32), started: NfsTime, id: u64)
    ensures
        ({
            let step = attributes(tree, owner, started, id);
            match tree.kind(id) {
                None => step == AttrStepView::Done(Err(Status::Stale)),
                Some(KindView::Worktree { .. }) | Some(KindView::Disk) => match tree.disk_path(id) {
                    Some(path) => step == AttrStepView::OnDisk(path),
                    None => step == AttrStepView::Done(Err(Status::Stale)),
                },
                Some(KindView::ForeignWorktree { target }) => step matches AttrStepView::Done(
                    Ok(attr),
                ) && {
                    &&& attr.ftype == FileType::Link
                    &&& attr.mode == 7 * 64 + 7 * 8 + 7
                    &&& attr.nlink == 1
                    &&& attr.size == target.len() as u64 == attr.used
                    &&& attr.atime == started
                    &&& attr.mtime == started
                    &&& attr.ctime == started
                    &&& attr.uid == owner.0 && attr.gid == owner.1
                    &&& attr.fsid == 0 && attr.rdev_major == 0 && attr.rdev_minor == 0
                    &&& attr.fileid == id
                },
                Some(_) => step matches AttrStepView::Done(Ok(attr)) && {
                    &&& attr.ftype == FileType::Directory
                    &&& attr.mode == 7 * 64 + 5 * 8 + 5
                    &&& attr.nlink == 2
                    &&& attr.size == 4096 == attr.used
                    &&& attr.atime == tree.nodes[id].mtime
                    &&& attr.mtime == tree.nodes[id].mtime
                    &&& attr.ctime == tree.nodes[id].mtime
                    &&& attr.uid == owner.0 && attr.gid == owner.1
                    &&& attr.fsid == 0 && attr.rdev_major == 0 && attr.rdev_minor == 0
                    &&& attr.fileid == id
                },
            }
        }),
{
}

/// A symlink to a foreign worktree leads to where that is. What stands on disk
/// is read there; anything else that is there is no symlink, and what is not is
/// stale.
pub proof fn law_link_targets(tree: TreeView, id: u64, err: Status)
    ensures
        ({
            let step = link_target(tree, id);
            match tree.kind(id) {
                None => step == LinkStepView::Fail(Status::Stale),
                Some(KindView::ForeignWorktree { target }) => step == LinkStepView::Target(target),
                Some(_) => match tree.disk_path(id) {
                    Some(path) => step == LinkStepView::OnDisk(path),
                    None => step == LinkStepView::Fail(Status::Inval),
                },
            }
        }),
        path_of(tree, id, err) == if tree.kind(id) is None {
            Err::<Seq<u8>, Status>(Status::Stale)
        } else if tree.disk_path(id) is None {
            Err(err)
        } else {
            Ok(tree.disk_path(id).unwrap())
        },
{
}

/// A read gives what was read, and nothing where it starts at the end of the
/// file or past it; it reaches the end exactly if nothing of the file is left
/// after it. Two reads, the second where the first stopped, give what one read
/// over both gives.
pub proof fn law_reads(offset: u64, len: u64, data: Seq<u8>, more: Seq<u8>)
    requires
        offset + data.len() + more.len() <= len,
    ensures
        ({
            let (first, end) = read_reply(offset, len, data);
            let (second, last) = read_reply((offset + data.len()) as u64, len, more);
            let (whole, done) = read_reply(offset, len, data + more);
            &&& offset < len ==> first == data
            &&& offset >= len ==> first.len() == 0
            &&& end <==> offset + first.len() >= len
            &&& !end ==> first + second == whole && last == done
        }),
{
}

} // verus!
