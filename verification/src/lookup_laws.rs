//! What a lookup comes to, in terms of the tree, the branches and the answers
//! it gets.

use crate::action::GitErrorView;
use crate::cache_laws::{
    age, is_anything_told, knows_absence, knows_branches, knows_worktrees,
    law_told_branches_are_known, told,
};
use crate::caches::{foreign_in, known_foreign, learned, materialize_status, RefreshView};
use crate::component::{is_valid_component, is_valid_disk_name};
use crate::config::Config;
use crate::fspath::path_join;
use crate::lookup::{probed, ProbeView};
use crate::need::{EventView, NeedView};
use crate::node::{ForeignView, StateView};
use crate::protocol::{name_in, Status};
use crate::serve_lookup::{lookup_continued, lookup_started, LookupNextView, LookupStageView};
use crate::text::{join, utf8};
use crate::text_laws::{law_components, law_disk_names};
use crate::tree::{ContextView, KindView, NfsTime, ROOT_ID, TreeView};
use crate::tree_laws::law_added_file_path;
use vstd::prelude::*;
use vstd::utf8::{encode_utf8_decode_utf8, encode_utf8_valid_utf8, valid_utf8};

verus! {

/// The bytes of a name spell the name.
pub proof fn law_names_are_spelled(name: Seq<char>, bytes: Seq<u8>)
    ensures
        name_in(utf8(name)) == Some(name),
        name_in(bytes) is None <==> !valid_utf8(bytes),
        name_in(bytes) matches Some(text) ==> utf8(text) == bytes,
{
    encode_utf8_decode_utf8(name);
    encode_utf8_valid_utf8(name);
    if valid_utf8(bytes) {
        vstd::utf8::decode_utf8_encode_utf8(bytes);
    }
}

/// Whether a child of a kind hangs in a directory under a name.
pub open spec fn hangs(tree: TreeView, dirid: u64, name: Seq<char>, id: u64, kind: KindView) -> bool {
    tree.child(dirid, name) == Some(id) && tree.kind(id) == Some(kind)
}

/// Whether nothing that is remembered differs but the tree.
pub open spec fn same_memory(a: StateView, b: StateView) -> bool {
    &&& a.tries == b.tries
    &&& a.missing_repos == b.missing_repos
    &&& a.wt_refresh == b.wt_refresh
    &&& a.default_branches == b.default_branches
    &&& a.foreign == b.foreign
}

/// Whether every node but two is as it was.
pub open spec fn same_nodes_but(a: TreeView, b: TreeView, dirid: u64, id: u64) -> bool {
    forall|x: u64| #[trigger]
        a.nodes.contains_key(x) && x != dirid && x != id ==> b.nodes.contains_key(x) && b.nodes[x]
            == a.nodes[x]
}

/// Whether something that is neither `.` nor `..` is asked for.
pub open spec fn is_ordinary(name: Seq<char>) -> bool {
    name != "."@ && name != ".."@
}

/// A name that is no text is not there. In a directory that is not there
/// everything is stale. `.` is the directory itself, and `..` the one above it,
/// whatever the directory is.
pub proof fn law_lookup_of_special_names(
    cfg: &Config,
    state: StateView,
    dirid: u64,
    bytes: Seq<u8>,
    now: u128,
    wall: NfsTime,
)
    ensures
        !valid_utf8(bytes) ==> lookup_started(cfg, state, dirid, bytes, now, wall) == (
            state,
            LookupNextView::Done(Err(Status::NoEnt)),
        ),
        valid_utf8(bytes) && !state.tree.nodes.contains_key(dirid) ==> lookup_started(
            cfg,
            state,
            dirid,
            bytes,
            now,
            wall,
        ) == (state, LookupNextView::Done(Err(Status::Stale))),
        state.tree.nodes.contains_key(dirid) ==> lookup_started(
            cfg,
            state,
            dirid,
            utf8("."@),
            now,
            wall,
        ) == (state, LookupNextView::Done(Ok(dirid))),
        state.tree.nodes.contains_key(dirid) ==> lookup_started(
            cfg,
            state,
            dirid,
            utf8(".."@),
            now,
            wall,
        ) == (state, LookupNextView::Done(Ok(state.tree.nodes[dirid].parent))),
{
    law_names_are_spelled("."@, bytes);
    law_names_are_spelled(".."@, bytes);
    reveal_strlit(".");
    reveal_strlit("..");
    assert("."@.len() == 1 && ".."@.len() == 2);
}

/// In every directory above the `refs` subtree and inside worktrees, a child
/// that is there is what a lookup of its name finds, and nothing changes.
pub proof fn law_lookup_finds_children(
    cfg: &Config,
    state: StateView,
    dirid: u64,
    name: Seq<char>,
    id: u64,
    now: u128,
    wall: NfsTime,
)
    requires
        is_ordinary(name),
        state.tree.child(dirid, name) == Some(id),
        state.tree.kind(dirid) matches Some(kind) && (kind is Root || kind is Org || kind is Repo
            || kind is Worktree || kind is Disk),
    ensures
        lookup_started(cfg, state, dirid, utf8(name), now, wall) == (
            state,
            LookupNextView::Done(Ok(id)),
        ),
{
    law_names_are_spelled(name, utf8(name));
}

/// An organisation is there once it is asked for, if its name can be one:
/// nobody is asked. Any other name is not there.
pub proof fn law_lookup_of_organisations(
    cfg: &Config,
    state: StateView,
    dirid: u64,
    name: Seq<char>,
    now: u128,
    wall: NfsTime,
)
    requires
        state.tree.wf(),
        state.tree.next_id < u64::MAX,
        is_ordinary(name),
        state.tree.kind(dirid) == Some(KindView::Root),
        state.tree.child(dirid, name) is None,
    ensures
        ({
            let (after, next) = lookup_started(cfg, state, dirid, utf8(name), now, wall);
            if is_valid_component(name) {
                &&& next matches LookupNextView::Done(Ok(id)) && {
                    &&& hangs(after.tree, dirid, name, id, KindView::Org)
                    &&& !state.tree.nodes.contains_key(id)
                    &&& same_nodes_but(state.tree, after.tree, dirid, id)
                }
                &&& same_memory(state, after)
            } else {
                after == state && next == LookupNextView::Done(Err(Status::NoEnt))
            }
        }),
{
    law_names_are_spelled(name, utf8(name));
    assert(state.tree.nodes.contains_key(dirid) ==> dirid < state.tree.next_id);
}

/// A repository that is not known yet is looked for on the remote, under the
/// organisation's name and its own, if its name can be one; where its branches
/// are known already, nobody is asked. Once they are, it hangs in the
/// organisation, with its `refs` directory in it. Any other name is not there.
#[verifier::rlimit(40)]
pub proof fn law_lookup_of_repositories(
    cfg: &Config,
    state: StateView,
    dirid: u64,
    name: Seq<char>,
    now: u128,
    wall: NfsTime,
    remote: Option<Seq<Seq<char>>>,
    local: Option<Seq<Seq<char>>>,
    later: u128,
    wall2: NfsTime,
)
    requires
        state.tree.wf(),
        state.tree.next_id < u64::MAX - 2,
        is_ordinary(name),
        state.tree.kind(dirid) == Some(KindView::Org),
        state.tree.child(dirid, name) is None,
    ensures
        ({
            let org = state.tree.nodes[dirid].name;
            let key = (org, name);
            let (after, next) = lookup_started(cfg, state, dirid, utf8(name), now, wall);
            if !is_valid_component(name) {
                after == state && next == LookupNextView::Done(Err(Status::NoEnt))
            } else if state.tries.contains_key(key) && age(state.tries[key].fetched, now)
                < cfg.branch_ttl {
                next matches LookupNextView::Done(Ok(id)) && is_entered_repository(
                    state,
                    after,
                    dirid,
                    name,
                    id,
                    wall,
                )
            } else if state.missing_repos.contains_key(key) && age(state.missing_repos[key], now)
                < cfg.negative_ttl {
                after == state && next == LookupNextView::Done(Err(Status::NoEnt))
            } else {
                &&& after == state
                &&& next matches LookupNextView::Wait(need, stage) && {
                    let (done, end) = lookup_continued(
                        cfg,
                        state,
                        stage,
                        EventView::Heads { remote, local },
                        later,
                        wall2,
                    );
                    &&& need == (NeedView::Heads { org, repo: name })
                    &&& if remote is Some || local is Some || state.tries.contains_key(key) {
                        end matches LookupNextView::Done(Ok(id)) && is_entered_repository(
                            learned(state, key, remote, local, later, wall2).0,
                            done,
                            dirid,
                            name,
                            id,
                            wall2,
                        )
                    } else {
                        &&& end == LookupNextView::Done(Err(Status::NoEnt))
                        &&& done == (StateView {
                            missing_repos: state.missing_repos.insert(key, later),
                            ..state
                        })
                    }
                }
            }
        }),
{
    law_names_are_spelled(name, utf8(name));
    let tree = state.tree;
    assert(dirid < tree.next_id);
    lemma_repository(state, dirid, name, wall);
    let org = tree.nodes[dirid].name;
    let key = (org, name);
    let heard = learned(state, key, remote, local, later, wall2).0;
    lemma_repository(heard, dirid, name, wall2);
}

/// Whether a repository has been entered in an organisation, with its `refs`
/// directory in it and nothing else, and the root has been dated, since it now
/// shows the organisation.
pub open spec fn is_entered_repository(
    before: StateView,
    after: StateView,
    dirid: u64,
    name: Seq<char>,
    id: u64,
    wall: NfsTime,
) -> bool {
    &&& after.tree.nodes[ROOT_ID].mtime == wall
    &&& after.tree.nodes[dirid].mtime == wall

    &&& hangs(after.tree, dirid, name, id, KindView::Repo)
    &&& after.tree.child(id, "refs"@) matches Some(refs) && {
        &&& after.tree.kind(refs) == Some(KindView::RefsRoot)
        &&& !before.tree.nodes.contains_key(refs)
        &&& after.tree.nodes[id].children == Map::<Seq<char>, u64>::empty().insert("refs"@, refs)
    }
    &&& !before.tree.nodes.contains_key(id)
    &&& forall|x: u64| #[trigger]
        before.tree.nodes.contains_key(x) && x != dirid && x != ROOT_ID
            ==> after.tree.nodes.contains_key(x) && after.tree.nodes[x] == before.tree.nodes[x]
    &&& same_memory(before, after)
}

proof fn lemma_repository(state: StateView, dirid: u64, name: Seq<char>, wall: NfsTime)
    requires
        forall|x: u64| #[trigger] state.tree.nodes.contains_key(x) ==> x < state.tree.next_id,
        state.tree.next_id < u64::MAX - 2,
        state.tree.nodes.contains_key(dirid),
        state.tree.child(dirid, name) is None,
        state.tree.nodes.contains_key(ROOT_ID),
    ensures
        ({
            let (after, id) = probed(
                state,
                ProbeView { dirid, org: state.tree.nodes[dirid].name, name },
                wall,
            );
            is_entered_repository(state, after, dirid, name, id, wall)
        }),
{
    let id = state.tree.next_id;
    let one = state.tree.with_child(dirid, name, KindView::Repo, wall);
    assert(one.child(id, "refs"@) is None);
    let two = one.with_child(id, "refs"@, KindView::RefsRoot, wall);
    let done = two.touched(ROOT_ID, wall);
    assert(done.nodes[id].children =~= Map::<Seq<char>, u64>::empty().insert("refs"@, (id + 1) as u64));
}

/// In a repository only what is there is found, and a symlink to a foreign
/// worktree is no directory to look into.
pub proof fn law_lookup_where_nothing_can_be_added(
    cfg: &Config,
    state: StateView,
    dirid: u64,
    name: Seq<char>,
    now: u128,
    wall: NfsTime,
)
    requires
        is_ordinary(name),
    ensures
        state.tree.kind(dirid) == Some(KindView::Repo) && state.tree.child(dirid, name) is None
            ==> lookup_started(cfg, state, dirid, utf8(name), now, wall) == (
            state,
            LookupNextView::Done(Err(Status::NoEnt)),
        ),
        state.tree.kind(dirid) matches Some(KindView::ForeignWorktree { .. }) ==> lookup_started(
            cfg,
            state,
            dirid,
            utf8(name),
            now,
            wall,
        ) == (state, LookupNextView::Done(Err(Status::NotDir))),
{
    law_names_are_spelled(name, utf8(name));
}

/// In a directory inside a worktree every name that a file can have is looked
/// for on disk, right in that directory: one with a leading dot too. It is
/// found exactly if something stands there, and hangs in the directory as a
/// file from then on.
pub proof fn law_lookup_of_files(
    cfg: &Config,
    state: StateView,
    dirid: u64,
    dir: Seq<u8>,
    name: Seq<char>,
    now: u128,
    wall: NfsTime,
    there: bool,
    later: u128,
    wall2: NfsTime,
)
    requires
        state.tree.wf(),
        state.tree.next_id < u64::MAX,
        state.tree.kind(dirid) matches Some(kind) && (kind is Worktree || kind is Disk),
        state.tree.disk_path(dirid) == Some(dir),
        state.tree.child(dirid, name) is None,
        name.len() > 0,
        is_ordinary(name),
        forall|i: int| 0 <= i < name.len() ==> #[trigger] name[i] != '/' && name[i] != '\0',
    ensures
        ({
            let path = path_join(dir, utf8(name));
            let (after, next) = lookup_started(cfg, state, dirid, utf8(name), now, wall);
            &&& after == state
            &&& next matches LookupNextView::Wait(need, stage) && {
                let (done, end) = lookup_continued(
                    cfg,
                    state,
                    stage,
                    EventView::Exists(there),
                    later,
                    wall2,
                );
                &&& need == NeedView::Exists(path)
                &&& if there {
                    &&& end matches LookupNextView::Done(Ok(id)) && {
                        &&& hangs(done.tree, dirid, name, id, KindView::Disk)
                        &&& !state.tree.nodes.contains_key(id)
                        &&& done.tree.disk_path(id) == Some(path)
                        &&& same_nodes_but(state.tree, done.tree, dirid, id)
                    }
                    &&& same_memory(state, done)
                } else {
                    done == state && end == LookupNextView::Done(Err(Status::NoEnt))
                }
            }
        }),
{
    law_names_are_spelled(name, utf8(name));
    lemma_file_name(name);
    assert(dirid < state.tree.next_id);
    law_added_file_path(state.tree, dirid, name, wall2);
}

proof fn lemma_file_name(name: Seq<char>)
    requires
        name.len() > 0,
        is_ordinary(name),
        forall|i: int| 0 <= i < name.len() ==> #[trigger] name[i] != '/' && name[i] != '\0',
    ensures
        is_valid_disk_name(name),
{
    law_disk_names(name);
    reveal_strlit(".");
    reveal_strlit("..");
    if name.len() == 1 && name[0] == '.' {
        assert(name =~= "."@);
    }
    if name.len() == 2 && name[0] == '.' && name[1] == '.' {
        assert(name =~= ".."@);
    }
}

/// A name that no file can have is not there, and a directory that has no path
/// any more is stale.
pub proof fn law_lookup_of_impossible_files(
    cfg: &Config,
    state: StateView,
    dirid: u64,
    name: Seq<char>,
    now: u128,
    wall: NfsTime,
)
    requires
        state.tree.kind(dirid) matches Some(kind) && (kind is Worktree || kind is Disk),
        state.tree.child(dirid, name) is None,
        is_ordinary(name),
    ensures
        name.len() == 0 || name.contains('/') || name.contains('\0') ==> lookup_started(
            cfg,
            state,
            dirid,
            utf8(name),
            now,
            wall,
        ) == (state, LookupNextView::Done(Err(Status::NoEnt))),
        is_valid_disk_name(name) && state.tree.disk_path(dirid) is None ==> lookup_started(
            cfg,
            state,
            dirid,
            utf8(name),
            now,
            wall,
        ) == (state, LookupNextView::Done(Err(Status::Stale))),
{
    law_names_are_spelled(name, utf8(name));
}

/// A branch that is checked out is found at once, whether or not it is due for
/// a refresh and whatever comes of that; the tree stays as it is.
pub proof fn law_lookup_of_worktrees(
    cfg: &Config,
    state: StateView,
    dirid: u64,
    name: Seq<char>,
    id: u64,
    now: u128,
    wall: NfsTime,
    event: EventView,
    later: u128,
    wall2: NfsTime,
)
    requires
        is_ordinary(name),
        state.tree.kind(dirid) matches Some(kind) && (kind is RefsRoot || kind is RefPath),
        state.tree.child(dirid, name) == Some(id),
        state.tree.kind(id) matches Some(kind) && kind is Worktree,
    ensures
        ({
            let (after, next) = lookup_started(cfg, state, dirid, utf8(name), now, wall);
            let fresh = state.wt_refresh.contains_key(id) && age(state.wt_refresh[id], now)
                < cfg.branch_ttl;
            &&& after.tree == state.tree
            &&& fresh ==> after == state && next == LookupNextView::Done(Ok(id))
            &&& !fresh ==> after == (StateView {
                wt_refresh: state.wt_refresh.insert(id, now),
                ..state
            }) && match state.tree.refs_context(id) {
                Some(c) => {
                    &&& next matches LookupNextView::Wait(need, stage) && {
                        &&& need == NeedView::Refresh(
                            RefreshView { org: c.org, repo: c.repo, branch: join(c.segs, '/') },
                        )
                        &&& lookup_continued(cfg, after, stage, event, later, wall2) == (
                            after,
                            LookupNextView::Done(Ok(id)),
                        )
                    }
                },
                None => next == LookupNextView::Done(Ok(id)),
            }
        }),
{
    law_names_are_spelled(name, utf8(name));
    assert(state.tree.worktree_root(id) == Some(id));
}

/// A name in the `refs` subtree that can be no step of a branch name is not
/// there, and nobody is asked.
pub proof fn law_lookup_of_impossible_branches(
    cfg: &Config,
    state: StateView,
    dirid: u64,
    name: Seq<char>,
    now: u128,
    wall: NfsTime,
)
    requires
        is_ordinary(name),
        !is_valid_component(name),
        state.tree.kind(dirid) matches Some(kind) && (kind is RefsRoot || kind is RefPath),
        state.tree.child(dirid, name) matches Some(id) ==> !(state.tree.kind(id) matches Some(
            KindView::Worktree { .. },
        )),
    ensures
        lookup_started(cfg, state, dirid, utf8(name), now, wall) == (
            state,
            LookupNextView::Done(Err(Status::NoEnt)),
        ),
{
    law_names_are_spelled(name, utf8(name));
}

/// Whether the branches and the foreign worktrees of a repository are known and
/// young enough to be used.
pub open spec fn are_known(
    cfg: &Config,
    state: StateView,
    key: (Seq<char>, Seq<char>),
    foreign: Map<Seq<char>, Seq<u8>>,
    branches: Set<Seq<Seq<char>>>,
    now: u128,
) -> bool {
    &&& state.foreign.contains_key(key)
    &&& state.foreign[key].worktrees == foreign
    &&& age(state.foreign[key].listed, now) < cfg.branch_ttl
    &&& state.tries.contains_key(key)
    &&& state.tries[key].branches == branches
    &&& age(state.tries[key].fetched, now) < cfg.branch_ttl
}

/// Whether a name can be resolved in a directory of the `refs` subtree: it can
/// be a step of a branch name, the place of the directory is known, and no
/// worktree hangs there under the name, nor the directory itself.
pub open spec fn can_resolve(
    state: StateView,
    dirid: u64,
    context: ContextView,
    name: Seq<char>,
) -> bool {
    &&& state.tree.wf()
    &&& state.tree.next_id < u64::MAX
    &&& state.tree.kind(dirid) matches Some(kind) && (kind is RefsRoot || kind is RefPath)
    &&& state.tree.refs_context(dirid) == Some(context)
    &&& is_ordinary(name)
    &&& is_valid_component(name)
    &&& state.tree.child(dirid, name) != Some(dirid)
    &&& state.tree.child(dirid, name) matches Some(id) ==> !(state.tree.kind(id) matches Some(
        KindView::Worktree { .. },
    ))
}

/// A branch that is checked out elsewhere is a symlink to that place, and a
/// leading part of such a branch a directory; nobody is asked where they are
/// known.
pub proof fn law_lookup_of_foreign_branches(
    cfg: &Config,
    state: StateView,
    dirid: u64,
    context: ContextView,
    name: Seq<char>,
    foreign: Map<Seq<char>, Seq<u8>>,
    now: u128,
    wall: NfsTime,
)
    requires
        can_resolve(state, dirid, context, name),
        state.foreign.contains_key((context.org, context.repo)),
        state.foreign[(context.org, context.repo)].worktrees == foreign,
        age(state.foreign[(context.org, context.repo)].listed, now) < cfg.branch_ttl,
    ensures
        ({
            let branch = join(context.segs.push(name), '/');
            let (after, next) = lookup_started(cfg, state, dirid, utf8(name), now, wall);
            let below = exists|k: Seq<char>| #[trigger]
                foreign.contains_key(k) && (branch + seq!['/']).is_prefix_of(k);
            &&& foreign.contains_key(branch) ==> {
                &&& next matches LookupNextView::Done(Ok(id)) && {
                    &&& hangs(
                        after.tree,
                        dirid,
                        name,
                        id,
                        KindView::ForeignWorktree { target: foreign[branch] },
                    )
                    &&& same_nodes_but(state.tree, after.tree, dirid, id)
                }
                &&& same_memory(state, after)
            }
            &&& !foreign.contains_key(branch) && below ==> {
                &&& next matches LookupNextView::Done(Ok(id)) && {
                    &&& after.tree.child(dirid, name) == Some(id)
                    &&& state.tree.child(dirid, name) is None ==> after.tree.kind(id) == Some(
                        KindView::RefPath,
                    )
                    &&& state.tree.child(dirid, name) is Some ==> after == state
                }
                &&& same_memory(state, after)
            }
        }),
{
    law_names_are_spelled(name, utf8(name));
    assert(dirid < state.tree.next_id);
    if state.tree.child(dirid, name) is Some {
        assert(state.tree.links(dirid, name));
    }
}

/// A name that is not checked out elsewhere is resolved against the branches of
/// the remote. A branch is checked out under the name that the steps make, and
/// hangs there as a worktree where that is. What leads on to a branch is a
/// directory. Anything else is there only if a worktree of that name is in the
/// cache, and then hangs there as that. But where the directory is itself a
/// branch, it is checked out first. A symlink to a worktree that is gone is
/// gone too; what else hangs there keeps its number.
#[verifier::rlimit(40)]
pub proof fn law_lookup_of_branches(
    cfg: &Config,
    state: StateView,
    dirid: u64,
    context: ContextView,
    name: Seq<char>,
    foreign: Map<Seq<char>, Seq<u8>>,
    branches: Set<Seq<Seq<char>>>,
    now: u128,
    wall: NfsTime,
    root: Seq<u8>,
    error: GitErrorView,
    there: bool,
    later: u128,
    wall2: NfsTime,
)
    requires
        can_resolve(state, dirid, context, name),
        are_known(cfg, state, (context.org, context.repo), foreign, branches, now),
        !foreign.contains_key(join(context.segs.push(name), '/')),
        forall|k: Seq<char>| #[trigger]
            foreign.contains_key(k) ==> !(join(context.segs.push(name), '/') + seq!['/']).is_prefix_of(
                k,
            ),
    ensures
        ({
            let segs = context.segs.push(name);
            let branch = join(segs, '/');
            let own = cfg.worktree(context.org, context.repo, branch);
            let (after, next) = lookup_started(cfg, state, dirid, utf8(name), now, wall);
            let is_inside = context.segs.len() > 0 && branches.contains(context.segs);
            let leads_on = exists|b: Seq<Seq<char>>| #[trigger]
                branches.contains(b) && segs.is_prefix_of(b);
            let is_link = state.tree.child(dirid, name) matches Some(id) && state.tree.kind(
                id,
            ) matches Some(KindView::ForeignWorktree { .. });
            &&& same_memory(state, after)
            &&& is_link && next is Wait ==> after.tree.child(dirid, name) is None
            &&& !is_link && state.tree.child(dirid, name) is Some ==> after == state
            &&& is_inside ==> (next matches LookupNextView::Wait(need, stage) && {
                &&& need == (NeedView::CheckOut {
                    org: context.org,
                    repo: context.repo,
                    branch: join(context.segs, '/'),
                })
                &&& ({
                    let (done, end) = lookup_continued(
                        cfg,
                        after,
                        stage,
                        EventView::CheckedOut(Ok(root)),
                        later,
                        wall2,
                    );
                    &&& done.tree.kind(dirid) == Some(KindView::Worktree { root })
                    &&& done.wt_refresh == state.wt_refresh.insert(dirid, later)
                    &&& end matches LookupNextView::Wait(what, _) && what == NeedView::Exists(
                        path_join(root, utf8(name)),
                    )
                })
                &&& lookup_continued(
                    cfg,
                    after,
                    stage,
                    EventView::CheckedOut(Err(error)),
                    later,
                    wall2,
                ) == (after, LookupNextView::Done(Err(materialize_status(error))))
            })
            &&& !is_inside && branches.contains(segs) ==> (next matches LookupNextView::Wait(
                need,
                stage,
            ) && {
                &&& need == (NeedView::CheckOut { org: context.org, repo: context.repo, branch })
                &&& ({
                    let (done, end) = lookup_continued(
                        cfg,
                        after,
                        stage,
                        EventView::CheckedOut(Ok(root)),
                        later,
                        wall2,
                    );
                    end matches LookupNextView::Done(Ok(id)) && {
                        &&& hangs(done.tree, dirid, name, id, KindView::Worktree { root })
                        &&& !is_link && state.tree.child(dirid, name) is Some
                            ==> state.tree.child(dirid, name) == Some(id)
                        &&& done.wt_refresh == state.wt_refresh.insert(id, later)
                        &&& done.tries == state.tries
                        &&& done.foreign == state.foreign
                    }
                })
                &&& lookup_continued(
                    cfg,
                    after,
                    stage,
                    EventView::CheckedOut(Err(error)),
                    later,
                    wall2,
                ) == (after, LookupNextView::Done(Err(materialize_status(error))))
            })
            &&& !is_inside && !branches.contains(segs) && leads_on ==> (
            next matches LookupNextView::Done(Ok(id)) && {
                &&& after.tree.child(dirid, name) == Some(id)
                &&& is_link || state.tree.child(dirid, name) is None ==> after.tree.kind(id)
                    == Some(KindView::RefPath)
                &&& !is_link && state.tree.child(dirid, name) is Some
                    ==> state.tree.child(dirid, name) == Some(id)
            })
            &&& !is_inside && !leads_on ==> (next matches LookupNextView::Wait(need, stage) && {
                let (done, end) = lookup_continued(
                    cfg,
                    after,
                    stage,
                    EventView::Exists(there),
                    later,
                    wall2,
                );
                &&& need == NeedView::Reachable(path_join(own, utf8(".git"@)))
                &&& if there {
                    end matches LookupNextView::Done(Ok(id)) && {
                        &&& done.tree.child(dirid, name) == Some(id)
                        &&& after.tree.child(dirid, name) is None ==> done.tree.kind(id) == Some(
                            KindView::Worktree { root: own },
                        )
                    }
                } else {
                    done == after && end == LookupNextView::Done(Err(Status::NoEnt))
                }
            })
        }),
{
    law_names_are_spelled(name, utf8(name));
    assert(dirid < state.tree.next_id);
    if state.tree.child(dirid, name) is Some {
        assert(state.tree.links(dirid, name));
    }
    let segs = context.segs.push(name);
    if branches.contains(segs) {
        assert(segs =~= segs.subrange(0, segs.len() as int));
        assert(segs.is_prefix_of(segs));
    }
    law_components(name);
    lemma_file_name(name);
}

/// What is not known, a lookup asks for: the foreign worktrees first, and the
/// branches only where no foreign one settles it. A repository that was found
/// missing a moment ago is not asked about again.
pub proof fn law_lookup_asks(
    cfg: &Config,
    state: StateView,
    dirid: u64,
    context: ContextView,
    name: Seq<char>,
    now: u128,
    wall: NfsTime,
)
    requires
        can_resolve(state, dirid, context, name),
    ensures
        ({
            let (org, repo) = (context.org, context.repo);
            let branch = join(context.segs.push(name), '/');
            let foreign = state.foreign[(org, repo)].worktrees;
            let is_settled = foreign.contains_key(branch) || exists|f: Seq<char>| #[trigger]
                foreign.contains_key(f) && (branch + seq!['/']).is_prefix_of(f);
            let (after, next) = lookup_started(cfg, state, dirid, utf8(name), now, wall);
            if !knows_worktrees(cfg, state, (org, repo), now) {
                &&& after == state
                &&& next matches LookupNextView::Wait(need, _) && need == (NeedView::Worktrees {
                    org,
                    repo,
                })
            } else {
                !is_settled && !knows_branches(cfg, state, (org, repo), now) ==> {
                    &&& same_memory(state, after)
                    &&& if knows_absence(cfg, state, (org, repo), now) {
                        next == LookupNextView::Done(Err(Status::NoEnt))
                    } else {
                        next matches LookupNextView::Wait(need, _) && need == (NeedView::Heads {
                            org,
                            repo,
                        })
                    }
                }
            }
        }),
{
    law_names_are_spelled(name, utf8(name));
}

/// A lookup that had to ask for the foreign worktrees goes on as if they had
/// been known when it started.
pub proof fn law_lookup_goes_on_with_worktrees(
    cfg: &Config,
    state: StateView,
    dirid: u64,
    filename: Seq<u8>,
    now: u128,
    wall: NfsTime,
    org: Seq<char>,
    repo: Seq<char>,
    stage: LookupStageView,
    list: Seq<(Seq<char>, Seq<u8>)>,
)
    requires
        lookup_started(cfg, state, dirid, filename, now, wall) == (
            state,
            LookupNextView::Wait(NeedView::Worktrees { org, repo }, stage),
        ),
        cfg.branch_ttl > 0,
    ensures
        lookup_continued(cfg, state, stage, EventView::Worktrees(list), now, wall)
            == lookup_started(
            cfg,
            StateView {
                foreign: state.foreign.insert(
                    (org, repo),
                    ForeignView { worktrees: foreign_in(cfg, org, repo, list), listed: now },
                ),
                ..state
            },
            dirid,
            filename,
            now,
            wall,
        ),
{
    let key = (org, repo);
    let foreign = foreign_in(cfg, org, repo, list);
    let known = StateView {
        foreign: state.foreign.insert(key, ForeignView { worktrees: foreign, listed: now }),
        ..state
    };
    assert(known_foreign(cfg, known, key, now) == Some(foreign));
}

/// A lookup that had to ask for the branches goes on as if they had been known
/// when it started, from whomever they came; where nobody knows them, the
/// repository is missing from then on.
#[verifier::rlimit(40)]
pub proof fn law_lookup_goes_on_with_branches(
    cfg: &Config,
    state: StateView,
    dirid: u64,
    filename: Seq<u8>,
    now: u128,
    wall: NfsTime,
    org: Seq<char>,
    repo: Seq<char>,
    after: StateView,
    stage: LookupStageView,
    remote: Option<Seq<Seq<char>>>,
    local: Option<Seq<Seq<char>>>,
)
    requires
        lookup_started(cfg, state, dirid, filename, now, wall) == (
            after,
            LookupNextView::Wait(NeedView::Heads { org, repo }, stage),
        ),
        cfg.branch_ttl > 0,
        state.tree.wf(),
        after.tree.refs_context(dirid) == state.tree.refs_context(dirid),
    ensures
        ({
            let key = (org, repo);
            let event = EventView::Heads { remote, local };
            let (done, next) = lookup_continued(cfg, after, stage, event, now, wall);
            let known = told(after, key, remote, local, now, wall);
            let (want, next_known) = lookup_started(cfg, known, dirid, filename, now, wall);
            if is_anything_told(after, key, remote, local) {
                &&& next == next_known
                &&& done == (StateView { tries: done.tries, ..want })
                &&& remote is Some ==> done == want
            } else {
                &&& next == LookupNextView::Done(Err(Status::NoEnt))
                &&& done == (StateView {
                    missing_repos: after.missing_repos.insert(key, now),
                    ..after
                })
            }
        }),
{
    let key = (org, repo);
    let name = name_in(filename).unwrap();
    let tree = after.tree;
    assert(state.tree.nodes.contains_key(dirid));
    if tree != state.tree {
        assert(state.tree.links(dirid, name));
        assert(tree == state.tree.without_child(dirid, name, wall));
        state.tree.lemma_without_child(dirid, name, wall);
    }
    assert(tree.wf());
    law_told_branches_are_known(cfg, after, key, remote, local, now, wall, dirid);
    let known = told(after, key, remote, local, now, wall);
    assert(known.tree.child(dirid, name) == tree.child(dirid, name));
    if let Some(id) = tree.child(dirid, name) {
        assert(known.tree.kind(id) == tree.kind(id));
    }
    assert(known.tree.kind(dirid) == tree.kind(dirid));
}

/// An answer that does not come, or that answers something else, ends a lookup
/// in an I/O error and changes nothing, except where a worktree was found.
pub proof fn law_lookup_without_an_answer(
    cfg: &Config,
    state: StateView,
    stage: LookupStageView,
    now: u128,
    wall: NfsTime,
)
    ensures
        lookup_continued(cfg, state, stage, EventView::Failed, now, wall) == match stage {
            LookupStageView::Refresh(id) => (state, LookupNextView::Done(Ok::<u64, Status>(id))),
            _ => (state, LookupNextView::Done(Err::<u64, Status>(Status::Io))),
        },
{
}

} // verus!
