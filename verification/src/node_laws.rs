//! What single changes do to the tree, and where its nodes stand.

use crate::caches::learned;
use crate::changes::rename_recorded;
use crate::fs::{scanned, with_repo, CachedRepo};
use crate::fspath::path_join;
use crate::node::StateView;
use crate::task::DiskTaskView;
use crate::text::{lossy, utf8};
use crate::tree::{ContextView, KindView, NfsTime, NodeView, ROOT_ID, TreeView, Way};
use crate::trie::branch_set;
use vstd::prelude::*;

verus! {

/// Where paths and branch names start: a worktree lies where it was checked
/// out; at the `refs` directory of a repository no step of a branch name has
/// been taken yet, and the repository and its organisation are those above it.
/// Virtual directories have no path, and above the `refs` subtree and inside
/// worktrees nothing leads to a branch.
pub proof fn law_places(tree: TreeView, id: u64)
    ensures
        match tree.kind(id) {
            Some(KindView::Worktree { root }) => {
                &&& tree.disk_path(id) == Some(root)
                &&& tree.worktree_root(id) == Some(id)
            },
            Some(KindView::Disk) => tree.refs_context(id) is None,
            _ => tree.disk_path(id) is None && tree.worktree_root(id) is None,
        },
        match tree.kind(id) {
            Some(KindView::RefsRoot) => {
                let repo = tree.nodes[id].parent;
                let org = tree.nodes[repo].parent;
                tree.refs_context(id) == if tree.nodes.contains_key(repo)
                    && tree.nodes.contains_key(org) {
                    Some(
                        ContextView {
                            org: tree.nodes[org].name,
                            repo: tree.nodes[repo].name,
                            segs: Seq::empty(),
                        },
                    )
                } else {
                    None
                }
            },
            Some(KindView::RefPath) | Some(KindView::Worktree { .. }) => true,
            _ => tree.refs_context(id) is None,
        },
{
    if let Some(KindView::Worktree { root }) = tree.kind(id) {
        assert(tree.trail(id, Way::Files) =~= Seq::empty());
    }
}

/// Where paths and branch names lead: a file lies in its directory under its
/// own name, in the same worktree; a directory or worktree in the `refs`
/// subtree adds its own name to the steps that lead to its directory.
pub proof fn law_places_below(tree: TreeView, id: u64)
    requires
        tree.wf(),
    ensures
        tree.kind(id) == Some(KindView::Disk) ==> {
            let up = tree.nodes[id].parent;
            &&& tree.worktree_root(id) == tree.worktree_root(up)
            &&& tree.disk_path(id) == match tree.disk_path(up) {
                Some(dir) => Some(path_join(dir, utf8(tree.nodes[id].name))),
                None => None,
            }
        },
        (tree.kind(id) matches Some(kind) && (kind is RefPath || kind is Worktree)) ==> {
            let up = tree.nodes[id].parent;
            tree.refs_context(id) == match tree.refs_context(up) {
                Some(c) => Some(
                    ContextView {
                        org: c.org,
                        repo: c.repo,
                        segs: c.segs.push(tree.nodes[id].name),
                    },
                ),
                None => None,
            }
        },
{
    if tree.kind(id) == Some(KindView::Disk) {
        tree.lemma_file_path(id);
    }
    if tree.climbs(id, Way::Segments) {
        tree.lemma_segment_context(id);
    }
}

/// Setting the kind of a node changes nothing but that, and setting its time
/// nothing but that.
pub proof fn law_single_changes(tree: TreeView, id: u64, kind: KindView, now: NfsTime, x: u64)
    ensures
        ({
            let turned = tree.with_kind(id, kind);
            let touched = tree.touched(id, now);
            &&& turned.next_id == tree.next_id && touched.next_id == tree.next_id
            &&& turned.nodes.contains_key(x) <==> tree.nodes.contains_key(x)
            &&& touched.nodes.contains_key(x) <==> tree.nodes.contains_key(x)
            &&& tree.nodes.contains_key(x) && x != id ==> turned.nodes[x] == tree.nodes[x]
                && touched.nodes[x] == tree.nodes[x]
            &&& tree.nodes.contains_key(x) && x == id ==> {
                let (before, a, b) = (tree.nodes[x], turned.nodes[x], touched.nodes[x]);
                &&& a.kind == kind && b.mtime == now
                &&& a.parent == before.parent && b.parent == before.parent
                &&& a.name == before.name && b.name == before.name
                &&& a.children == before.children && b.children == before.children
                &&& a.mtime == before.mtime && b.kind == before.kind
            }
        }),
{
}

/// When the branches of a repository change, exactly the virtual directories
/// that lead to its branches are dated anew, and nothing else about them.
pub proof fn law_changed_branches_date_their_directories(
    state: StateView,
    key: (Seq<char>, Seq<char>),
    names: Seq<Seq<char>>,
    now: u128,
    wall: NfsTime,
    id: u64,
)
    requires
        state.tree.nodes.contains_key(id),
    ensures
        ({
            let before = state.tree.nodes[id];
            let tree = learned(state, key, Some(names), None, now, wall).0.tree;
            let after = tree.nodes[id];
            let is_new = !(state.tries.contains_key(key) && state.tries[key].branches
                == branch_set(names));
            let leads_there = state.tree.refs_context(id) matches Some(c) && (c.org, c.repo) == key;
            &&& tree.nodes.contains_key(id)
            &&& after.parent == before.parent
            &&& after.name == before.name
            &&& after.kind == before.kind
            &&& after.children == before.children
            &&& after.mtime == if is_new && leads_there && (before.kind is RefsRoot
                || before.kind is RefPath) {
                wall
            } else {
                before.mtime
            }
        }),
{
}

/// A rename leaves everything alone but the two directories, what is moved and
/// what that takes the place of; in the two directories, every other name leads
/// where it did, and what was moved keeps its kind, what hangs below it and its
/// time. Nothing that is remembered changes.
#[verifier::rlimit(40)]
pub proof fn law_rename_spares_the_rest(
    state: StateView,
    from: DiskTaskView,
    to: DiskTaskView,
    wall: NfsTime,
    id: u64,
    x: u64,
    other: Seq<char>,
)
    requires
        state.tree.wf(),
        state.tree.child(from.dirid, from.name) == Some(id),
        state.tree.nodes.contains_key(to.dirid),
        (from.dirid, from.name) != (to.dirid, to.name),
        id != from.dirid && id != to.dirid,
        state.tree.child(to.dirid, to.name) matches Some(gone) ==> gone != from.dirid && gone
            != to.dirid,
    ensures
        ({
            let tree = state.tree;
            let after = rename_recorded(state, from, to, wall);
            &&& after == (StateView { tree: after.tree, ..state })
            &&& after.tree.next_id == tree.next_id
            &&& tree.nodes.contains_key(x) && x != from.dirid && x != to.dirid && x != id
                && tree.child(to.dirid, to.name) != Some(x) ==> after.tree.nodes.contains_key(x)
                && after.tree.nodes[x] == tree.nodes[x]
            &&& other != from.name && from.dirid != to.dirid ==> after.tree.child(
                from.dirid,
                other,
            ) == tree.child(from.dirid, other)
            &&& other != to.name && from.dirid != to.dirid ==> after.tree.child(to.dirid, other)
                == tree.child(to.dirid, other)
            &&& other != from.name && other != to.name ==> after.tree.child(to.dirid, other)
                == tree.child(to.dirid, other)
            &&& after.tree.nodes.contains_key(id)
            &&& after.tree.nodes[id] == (NodeView {
                parent: to.dirid,
                name: to.name,
                ..tree.nodes[id]
            })
            &&& after.tree.child(to.dirid, to.name) == Some(id)
            &&& after.tree.child(from.dirid, from.name) is None
            &&& tree.child(to.dirid, to.name) matches Some(gone) ==> !after.tree.nodes.contains_key(
                gone,
            )
        }),
{
    let tree = state.tree;
    assert(tree.links(from.dirid, from.name));
    if tree.child(to.dirid, to.name) is Some {
        assert(tree.links(to.dirid, to.name));
    }
}

/// What is renamed to its own name is forgotten, and found again on disk.
pub proof fn law_rename_in_place_forgets(
    state: StateView,
    task: DiskTaskView,
    wall: NfsTime,
    id: u64,
)
    requires
        state.tree.wf(),
        state.tree.child(task.dirid, task.name) == Some(id),
        id != task.dirid,
    ensures
        ({
            let after = rename_recorded(state, task, task, wall);
            &&& after == (StateView { tree: after.tree, ..state })
            &&& after.tree.child(task.dirid, task.name) is None
            &&& !after.tree.nodes.contains_key(id)
        }),
{
}

/// Whether a repository hangs in a tree, below its organisation.
pub open spec fn holds_repository(tree: TreeView, org: Seq<char>, repo: Seq<char>) -> bool {
    tree.child(ROOT_ID, org) matches Some(id) && tree.child(id, repo) is Some
}

/// Whether one of the files found stands for a repository.
pub open spec fn is_found(found: Seq<CachedRepo>, org: Seq<char>, repo: Seq<char>) -> bool {
    exists|i: int|
        0 <= i < found.len() && lossy((#[trigger] found[i]).org@) == org && lossy(found[i].file@)
            == repo + ".git"@
}

#[verifier::rlimit(40)]
proof fn lemma_repository_added(
    tree: TreeView,
    org: Seq<char>,
    repo: Seq<char>,
    now: NfsTime,
    a: Seq<char>,
    b: Seq<char>,
)
    requires
        tree.wf(),
        tree.next_id + 3 < u64::MAX,
        forall|x: Seq<char>| tree.child(ROOT_ID, x) != Some(ROOT_ID),
        forall|x: u64, n: Seq<char>|
            #![trigger tree.child(x, n)]
            tree.kind(x) == Some(KindView::Org) ==> (tree.child(x, n) matches Some(c) ==> tree.kind(
                c,
            ) == Some(KindView::Repo)),
        forall|n: Seq<char>|
            (#[trigger] tree.child(ROOT_ID, n)) matches Some(c) ==> tree.kind(c) == Some(
                KindView::Org,
            ),
    ensures
        ({
            let after = with_repo(tree, org, repo, now);
            &&& after.wf()
            &&& after.next_id <= tree.next_id + 3
            &&& forall|n: Seq<char>|
                (#[trigger] after.child(ROOT_ID, n)) matches Some(c) ==> after.kind(c) == Some(
                    KindView::Org,
                )
            &&& forall|x: u64, n: Seq<char>|
                #![trigger after.child(x, n)]
                after.kind(x) == Some(KindView::Org) ==> (after.child(x, n) matches Some(c)
                    ==> after.kind(c) == Some(KindView::Repo))
            &&& holds_repository(after, a, b) <==> holds_repository(tree, a, b) || (a == org && b
                == repo)
        }),
{
    assert(tree.nodes.contains_key(ROOT_ID));
    let o = tree.child_id(ROOT_ID, org);
    tree.lemma_with_child(ROOT_ID, org, KindView::Org, now);
    let t1 = tree.with_child(ROOT_ID, org, KindView::Org, now);
    assert(!tree.nodes.contains_key(tree.next_id)) by {
        if tree.nodes.contains_key(tree.next_id) {
            assert(tree.next_id < tree.next_id);
        }
    }
    assert(t1.child(ROOT_ID, org) == Some(o));
    assert(t1.links(ROOT_ID, org));
    assert(t1.kind(o) == Some(KindView::Org));
    let r = t1.child_id(o, repo);
    t1.lemma_with_child(o, repo, KindView::Repo, now);
    let t2 = t1.with_child(o, repo, KindView::Repo, now);
    assert(!t1.nodes.contains_key(t1.next_id)) by {
        if t1.nodes.contains_key(t1.next_id) {
            assert(t1.next_id < t1.next_id);
        }
    }
    assert(t2.child(o, repo) == Some(r));
    assert(t2.links(o, repo));
    assert(t1.child(o, repo) == tree.child(o, repo));
    assert(t2.kind(r) == Some(KindView::Repo));
    t2.lemma_with_child(r, "refs"@, KindView::RefsRoot, now);
    let t3 = t2.with_child(r, "refs"@, KindView::RefsRoot, now);
    assert(!t2.nodes.contains_key(t2.next_id)) by {
        if t2.nodes.contains_key(t2.next_id) {
            assert(t2.next_id < t2.next_id);
        }
    }
    assert forall|n: Seq<char>| (#[trigger] t3.child(ROOT_ID, n)) matches Some(c) implies t3.kind(
        t3.child(ROOT_ID, n).unwrap(),
    ) == Some(KindView::Org) && (n != org ==> t3.child(ROOT_ID, n) == tree.child(ROOT_ID, n)) by {
        let c = tree.child(ROOT_ID, n);
        if n != org {
            assert(t1.child(ROOT_ID, n) == c);
            assert(t2.child(ROOT_ID, n) == c);
            assert(tree.links(ROOT_ID, n));
        }
    }
    assert forall|x: u64, n: Seq<char>|
        #![trigger t3.child(x, n)]
        t3.kind(x) == Some(KindView::Org) implies (t3.child(x, n) matches Some(c) ==> t3.kind(c)
        == Some(KindView::Repo)) by {
        if let Some(c) = t3.child(x, n) {
            assert(x != r);
            assert(t2.child(x, n) == Some(c));
            assert(t2.links(x, n));
            if x == o && n == repo {
            } else {
                assert(t1.child(x, n) == Some(c));
                assert(t1.links(x, n));
                assert(tree.child(x, n) == Some(c));
                assert(tree.links(x, n));
                assert(tree.kind(x) == Some(KindView::Org));
            }
        }
    }
    if holds_repository(t3, a, b) {
        let c = t3.child(ROOT_ID, a).unwrap();
        assert(t3.kind(c) == Some(KindView::Org));
        assert(c != r);
        assert(t2.child(c, b) == t3.child(c, b));
        if a == org {
            assert(c == o);
            if b != repo {
                assert(t1.child(o, b) is Some);
                assert(tree.child(o, b) is Some);
            }
        } else {
            assert(tree.child(ROOT_ID, a) == Some(c));
            assert(tree.links(ROOT_ID, a));
            assert(c != o) by {
                if c == o {
                    assert(t3.links(ROOT_ID, a));
                    assert(t3.child(ROOT_ID, org) == Some(o));
                    assert(t3.links(ROOT_ID, org));
                }
            }
            assert(tree.child(c, b) is Some);
        }
    }
    if holds_repository(tree, a, b) {
        let c = tree.child(ROOT_ID, a).unwrap();
        assert(tree.links(ROOT_ID, a));
        assert(t1.child(ROOT_ID, a) == Some(c));
        assert(t1.child(c, b) == tree.child(c, b));
        assert(t2.child(ROOT_ID, a) == Some(c));
        assert(t2.child(c, b) is Some);
        assert(c != r);
        assert(t3.child(ROOT_ID, a) == Some(c));
        assert(t3.child(c, b) is Some);
    }
    assert(t3.child(ROOT_ID, org) == Some(o));
    assert(t3.child(o, repo) == Some(r));
}

/// After a restart the tree holds exactly the repositories that stand in the
/// cache: a file found there stands for a repository exactly if its name ends
/// in `.git`, for the one of the name before that.
pub proof fn law_only_cached_repositories_are_entered(
    found: Seq<CachedRepo>,
    start: NfsTime,
    now: NfsTime,
    org: Seq<char>,
    repo: Seq<char>,
)
    requires
        3 * found.len() + 2 < u64::MAX,
    ensures
        holds_repository(scanned(TreeView::bare_root(start), found, now), org, repo) <==> is_found(
            found,
            org,
            repo,
        ),
{
    lemma_scan(found, start, now, org, repo);
}

proof fn lemma_scan(
    found: Seq<CachedRepo>,
    start: NfsTime,
    now: NfsTime,
    org: Seq<char>,
    repo: Seq<char>,
)
    requires
        3 * found.len() + 2 < u64::MAX,
    ensures
        ({
            let after = scanned(TreeView::bare_root(start), found, now);
            &&& after.wf()
            &&& after.next_id <= 2 + 3 * found.len()
            &&& forall|n: Seq<char>|
                (#[trigger] after.child(ROOT_ID, n)) matches Some(c) ==> after.kind(c) == Some(
                    KindView::Org,
                )
            &&& forall|x: u64, n: Seq<char>|
                #![trigger after.child(x, n)]
                after.kind(x) == Some(KindView::Org) ==> (after.child(x, n) matches Some(c)
                    ==> after.kind(c) == Some(KindView::Repo))
            &&& holds_repository(after, org, repo) <==> is_found(found, org, repo)
        }),
    decreases found.len(),
{
    let tree = TreeView::bare_root(start);
    let after = scanned(tree, found, now);
    if found.len() > 0 {
        let shorter = found.drop_last();
        lemma_scan(shorter, start, now, org, repo);
        let before = scanned(tree, shorter, now);
        let n = found.len() - 1;
        let file = lossy(found[n].file@);
        if ".git"@.is_suffix_of(file) {
            let stem = file.take(file.len() - ".git"@.len());
            assert(file =~= stem + ".git"@) by {
                assert(".git"@ =~= file.subrange(file.len() - ".git"@.len(), file.len() as int));
            }
            assert forall|x: Seq<char>| before.child(ROOT_ID, x) != Some(ROOT_ID) by {
                let c = before.child(ROOT_ID, x);
            }
            lemma_repository_added(before, lossy(found[n].org@), stem, now, org, repo);
            if lossy(found[n].org@) == org && stem == repo {
                assert(is_found(found, org, repo));
            }
            if lossy(found[n].org@) == org && file == repo + ".git"@ {
                assert(stem =~= repo);
            }
        } else {
            if file == repo + ".git"@ {
                assert(".git"@ =~= file.subrange(file.len() - ".git"@.len(), file.len() as int));
            }
        }
        if is_found(shorter, org, repo) {
            let i = choose|i: int|
                0 <= i < shorter.len() && lossy((#[trigger] shorter[i]).org@) == org && lossy(
                    shorter[i].file@,
                ) == repo + ".git"@;
            assert(found[i] == shorter[i]);
        }
        if is_found(found, org, repo) {
            let i = choose|i: int|
                0 <= i < found.len() && lossy((#[trigger] found[i]).org@) == org && lossy(
                    found[i].file@,
                ) == repo + ".git"@;
            if i < n {
                assert(shorter[i] == found[i]);
            }
        }
    } else {
        crate::tree::lemma_bare_root(start);
    }
}

} // verus!
