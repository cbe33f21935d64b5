//! What holds of the virtual tree across operations.

use crate::component::is_valid_disk_name;
use crate::config::{lemma_join_all_components, path_join_all, utf8_all};
use crate::fspath::{components, path_join, DOT};
use crate::text::{lemma_utf8_ascii, lemma_utf8_concat, lemma_utf8_injective, utf8};
use crate::tree::{ContextView, KindView, NfsTime, NodeView, TreeView, Way};
use vstd::prelude::*;

verus! {

/// Adding a child twice is adding it once: the second time changes nothing and
/// gives the same number.
pub proof fn law_add_child_is_idempotent(
    tree: TreeView,
    parent: u64,
    name: Seq<char>,
    kind: KindView,
    now: NfsTime,
    other: KindView,
    later: NfsTime,
)
    requires
        tree.wf(),
        tree.nodes.contains_key(parent) || parent == tree.next_id,
        tree.next_id < u64::MAX,
    ensures
        tree.with_child(parent, name, kind, now).with_child(parent, name, other, later)
            == tree.with_child(parent, name, kind, now),
        tree.with_child(parent, name, kind, now).child_id(parent, name) == tree.child_id(
            parent,
            name,
        ),
{
}

/// One of the operations that change the tree.
pub enum TreeChange {
    Add { parent: u64, name: Seq<char>, kind: KindView, now: NfsTime },
    Remove { parent: u64, name: Seq<char>, now: NfsTime },
    Rename { from: u64, from_name: Seq<char>, to: u64, to_name: Seq<char>, now: NfsTime },
    Kind { id: u64, kind: KindView },
    Touch { id: u64, now: NfsTime },
}

/// The tree that a new one has become after some changes, and every number
/// that adding a child has given until then.
pub open spec fn grown(start: NfsTime, changes: Seq<TreeChange>) -> (TreeView, Set<u64>)
    decreases changes.len(),
{
    if changes.len() == 0 {
        (TreeView::bare_root(start), Set::empty())
    } else {
        let (tree, given) = grown(start, changes.drop_last());
        match changes.last() {
            TreeChange::Add { parent, name, kind, now } => (
                tree.with_child(parent, name, kind, now),
                given.insert(tree.child_id(parent, name)),
            ),
            TreeChange::Remove { parent, name, now } => (
                tree.without_child(parent, name, now),
                given,
            ),
            TreeChange::Rename { from, from_name, to, to_name, now } => (
                tree.renamed(from, from_name, to, to_name, now),
                given,
            ),
            TreeChange::Kind { id, kind } => (tree.with_kind(id, kind), given),
            TreeChange::Touch { id, now } => (tree.touched(id, now), given),
        }
    }
}

/// Whether every number in use is below the next one.
spec fn is_numbered(tree: TreeView) -> bool {
    &&& forall|id: u64| #[trigger] tree.nodes.contains_key(id) ==> id < tree.next_id
    &&& forall|id: u64, name: Seq<char>|
        tree.nodes.contains_key(id) && #[trigger] tree.nodes[id].children.contains_key(name)
            ==> tree.nodes[id].children[name] < tree.next_id
}

proof fn lemma_without_child_is_numbered(
    tree: TreeView,
    parent: u64,
    name: Seq<char>,
    now: NfsTime,
)
    requires
        is_numbered(tree),
    ensures
        is_numbered(tree.without_child(parent, name, now)),
{
    let after = tree.without_child(parent, name, now);
    assert forall|x: u64| #[trigger] after.nodes.contains_key(x) implies x < after.next_id by {
        assert(tree.nodes.contains_key(x));
    }
    assert forall|x: u64, n: Seq<char>|
        after.nodes.contains_key(x) && #[trigger] after.nodes[x].children.contains_key(
            n,
        ) implies after.nodes[x].children[n] < after.next_id by {
        assert(tree.nodes.contains_key(x));
        assert(tree.nodes[x].children.contains_key(n));
    }
}

proof fn lemma_relinked_is_numbered(
    tree: TreeView,
    from: u64,
    from_name: Seq<char>,
    to: u64,
    to_name: Seq<char>,
)
    requires
        is_numbered(tree),
    ensures
        is_numbered(tree.relinked(from, from_name, to, to_name)),
{
    let after = tree.relinked(from, from_name, to, to_name);
    if tree.child(from, from_name) is Some {
        let id = tree.nodes[from].children[from_name];
        assert(id < tree.next_id);
        assert forall|x: u64| #[trigger] after.nodes.contains_key(x) implies x < after.next_id by {
            assert(tree.nodes.contains_key(x));
        }
        assert forall|x: u64, n: Seq<char>|
            after.nodes.contains_key(x) && #[trigger] after.nodes[x].children.contains_key(
                n,
            ) implies after.nodes[x].children[n] < after.next_id by {
            assert(tree.nodes.contains_key(x));
            if !(x == to && n == to_name) {
                assert(tree.nodes[x].children.contains_key(n));
            }
        }
    }
}

/// Every number that was given is below the next one, whatever has been
/// removed since.
proof fn lemma_grown(start: NfsTime, changes: Seq<TreeChange>)
    requires
        changes.len() + 2 <= u64::MAX,
    ensures
        is_numbered(grown(start, changes).0),
        grown(start, changes).0.next_id <= changes.len() + 2,
        forall|id: u64| #[trigger]
            grown(start, changes).1.contains(id) ==> id < grown(start, changes).0.next_id,
    decreases changes.len(),
{
    if changes.len() > 0 {
        lemma_grown(start, changes.drop_last());
        let (tree, given) = grown(start, changes.drop_last());
        let after = grown(start, changes).0;
        match changes.last() {
            TreeChange::Add { parent, name, kind, now } => {
                if tree.child(parent, name) is Some {
                    assert(tree.nodes[parent].children.contains_key(name));
                }
                assert forall|x: u64| #[trigger] after.nodes.contains_key(x) implies x
                    < after.next_id by {
                    assert(x == tree.next_id || tree.nodes.contains_key(x));
                }
                assert forall|x: u64, n: Seq<char>|
                    after.nodes.contains_key(x) && #[trigger] after.nodes[x].children.contains_key(
                        n,
                    ) implies after.nodes[x].children[n] < after.next_id by {
                    if after.nodes[x].children[n] != tree.next_id {
                        assert(tree.nodes[x].children.contains_key(n));
                    }
                }
            },
            TreeChange::Remove { parent, name, now } => {
                lemma_without_child_is_numbered(tree, parent, name, now);
            },
            TreeChange::Rename { from, from_name, to, to_name, now } => {
                lemma_without_child_is_numbered(tree, to, to_name, now);
                lemma_relinked_is_numbered(
                    tree.without_child(to, to_name, now),
                    from,
                    from_name,
                    to,
                    to_name,
                );
            },
            TreeChange::Kind { id, kind } => {
                assert forall|x: u64, n: Seq<char>|
                    after.nodes.contains_key(x) && #[trigger] after.nodes[x].children.contains_key(
                        n,
                    ) implies after.nodes[x].children[n] < after.next_id by {
                    assert(tree.nodes[x].children.contains_key(n));
                }
            },
            TreeChange::Touch { id, now } => {
                assert forall|x: u64, n: Seq<char>|
                    after.nodes.contains_key(x) && #[trigger] after.nodes[x].children.contains_key(
                        n,
                    ) implies after.nodes[x].children[n] < after.next_id by {
                    assert(tree.nodes[x].children.contains_key(n));
                }
            },
        }
    }
}

/// Adding a child, whatever has happened to the tree before. Where the parent
/// has a child of that name, its number comes back and nothing changes.
/// Otherwise the child gets a number that adding has never given before, not
/// even to a node that was removed since; it is as it was asked for, with
/// nothing below it; its parent is linked to it and dated; and every other
/// node stays as it is.
pub proof fn law_add_child_adds_one_new_node(
    start: NfsTime,
    changes: Seq<TreeChange>,
    parent: u64,
    name: Seq<char>,
    kind: KindView,
    now: NfsTime,
)
    requires
        changes.len() + 2 < u64::MAX,
        grown(start, changes).0.nodes.contains_key(parent),
    ensures
        ({
            let (tree, given) = grown(start, changes);
            let after = tree.with_child(parent, name, kind, now);
            let id = tree.child_id(parent, name);
            match tree.child(parent, name) {
                Some(child) => id == child && after == tree,
                None => {
                    &&& !given.contains(id)
                    &&& !tree.nodes.contains_key(id)
                    &&& after.nodes.dom() == tree.nodes.dom().insert(id)
                    &&& after.nodes[id] == (NodeView {
                        parent,
                        name,
                        kind,
                        children: Map::empty(),
                        mtime: now,
                    })
                    &&& after.nodes[parent] == (NodeView {
                        children: tree.nodes[parent].children.insert(name, id),
                        mtime: now,
                        ..tree.nodes[parent]
                    })
                    &&& forall|x: u64| #[trigger]
                        tree.nodes.contains_key(x) && x != parent ==> after.nodes[x]
                            == tree.nodes[x]
                },
            }
        }),
{
    lemma_grown(start, changes);
    let (tree, given) = grown(start, changes);
    let after = tree.with_child(parent, name, kind, now);
    let id = tree.child_id(parent, name);
    if tree.child(parent, name) is None {
        assert(parent != id);
        assert(!tree.nodes.contains_key(id));
        assert(after.nodes.dom() =~= tree.nodes.dom().insert(id));
    }
}

/// Numbers are never handed out twice: every operation leaves the next number
/// where it is or raises it, and a new node gets a number that no node has.
pub proof fn law_numbers_are_not_reused(
    tree: TreeView,
    id: u64,
    name: Seq<char>,
    kind: KindView,
    to: u64,
    to_name: Seq<char>,
    now: NfsTime,
)
    requires
        tree.wf(),
        tree.next_id < u64::MAX,
    ensures
        tree.with_child(id, name, kind, now).next_id >= tree.next_id,
        tree.child(id, name) is None ==> !tree.nodes.contains_key(tree.child_id(id, name))
            && tree.with_child(id, name, kind, now).next_id == tree.next_id + 1,
        tree.without_child(id, name, now).next_id == tree.next_id,
        tree.renamed(id, name, to, to_name, now).next_id == tree.next_id,
        tree.touched(id, now).next_id == tree.next_id,
        tree.with_kind(id, kind).next_id == tree.next_id,
{
    if tree.child(id, name) is None && tree.nodes.contains_key(tree.next_id) {
        assert(tree.next_id < tree.next_id);
    }
}

/// Removing a child undoes adding it, but for the number it took and the time
/// of the directory's last change.
pub proof fn law_remove_undoes_add(
    tree: TreeView,
    parent: u64,
    name: Seq<char>,
    kind: KindView,
    now: NfsTime,
    later: NfsTime,
)
    requires
        tree.wf(),
        tree.nodes.contains_key(parent),
        tree.child(parent, name) is None,
        tree.next_id < u64::MAX,
    ensures
        tree.with_child(parent, name, kind, now).without_child(parent, name, later) == (TreeView {
            next_id: (tree.next_id + 1) as u64,
            ..tree.touched(parent, later)
        }),
{
    let added = tree.with_child(parent, name, kind, now);
    let back = added.without_child(parent, name, later);
    let id = tree.next_id;
    if tree.nodes.contains_key(id) {
        assert(id < tree.next_id);
    }
    assert(tree.nodes[parent].children.insert(name, id).remove(name)
        =~= tree.nodes[parent].children);
    assert(back.nodes =~= tree.touched(parent, later).nodes);
}

/// A directory whose entries change takes on the time of the change, so that
/// clients fetch its listing anew; every other node keeps its time.
pub proof fn law_changed_directories_are_dated(
    tree: TreeView,
    parent: u64,
    name: Seq<char>,
    kind: KindView,
    now: NfsTime,
    id: u64,
)
    requires
        tree.wf(),
        tree.next_id < u64::MAX,
        tree.nodes.contains_key(id),
    ensures
        ({
            let after = tree.with_child(parent, name, kind, now);
            if after.nodes[id].children != tree.nodes[id].children {
                after.nodes[id].mtime == now
            } else {
                after.nodes[id].mtime == tree.nodes[id].mtime
            }
        }),
        ({
            let after = tree.without_child(parent, name, now);
            after.nodes.contains_key(id) ==> if after.nodes[id].children != tree.nodes[id].children {
                after.nodes[id].mtime == now
            } else {
                after.nodes[id].mtime == tree.nodes[id].mtime
            }
        }),
{
    let more = tree.with_child(parent, name, kind, now);
    let less = tree.without_child(parent, name, now);
    assert(id < tree.next_id);
    if id == parent {
        if tree.child(parent, name) is None {
            assert(more.nodes[id].children.contains_key(name));
        } else if less.nodes.contains_key(id) {
            assert(!less.nodes[id].children.contains_key(name));
        }
    }
}

/// Whether a node is `top` or a file inside it, at most so deep.
pub open spec fn lies_within(tree: TreeView, id: u64, top: u64, depth: nat) -> bool
    decreases depth,
{
    id == top || {
        &&& depth > 0
        &&& tree.kind(id) == Some(KindView::Disk)
        &&& lies_within(tree, tree.nodes[id].parent, top, (depth - 1) as nat)
    }
}

/// Whether a node is `top` or a file inside it, at any depth.
pub open spec fn lies_in(tree: TreeView, id: u64, top: u64) -> bool {
    exists|depth: nat| lies_within(tree, id, top, depth)
}

proof fn lemma_removed_contents(
    tree: TreeView,
    parent: u64,
    name: Seq<char>,
    now: NfsTime,
    id: u64,
    depth: nat,
)
    requires
        tree.wf(),
        tree.child(parent, name) matches Some(top) && lies_within(tree, id, top, depth),
    ensures
        tree.without_child(parent, name, now).disk_path(id) is None,
        tree.without_child(parent, name, now).worktree_root(id) is None,
    decreases depth,
{
    let top = tree.child(parent, name).unwrap();
    let after = tree.without_child(parent, name, now);
    tree.lemma_without_child(parent, name, now);
    if id != top {
        let up = tree.nodes[id].parent;
        lemma_removed_contents(tree, parent, name, now, up, (depth - 1) as nat);
        assert(after.nodes[id].parent == up);
        after.lemma_file_path(id);
    }
}

/// Removing a worktree or a directory takes what lies inside it out of reach:
/// the numbers handed out for it lead to no path any more.
pub proof fn law_removed_contents_are_stale(
    tree: TreeView,
    parent: u64,
    name: Seq<char>,
    now: NfsTime,
    id: u64,
)
    requires
        tree.wf(),
        tree.child(parent, name) matches Some(top) && lies_in(tree, id, top),
    ensures
        tree.without_child(parent, name, now).disk_path(id) is None,
        tree.without_child(parent, name, now).worktree_root(id) is None,
{
    let top = tree.child(parent, name).unwrap();
    let depth = choose|depth: nat| lies_within(tree, id, top, depth);
    lemma_removed_contents(tree, parent, name, now, id, depth);
}

/// Whether `b` has every node of `a` in its place, and none that a node of `a`
/// was missing as its parent.
pub open spec fn extends(a: TreeView, b: TreeView) -> bool {
    forall|x: u64| #[trigger]
        a.nodes.contains_key(x) ==> {
            &&& b.nodes.contains_key(x)
            &&& b.nodes[x].parent == a.nodes[x].parent
            &&& b.nodes[x].name == a.nodes[x].name
            &&& b.nodes[x].kind == a.nodes[x].kind
            &&& b.nodes.contains_key(a.nodes[x].parent) ==> a.nodes.contains_key(a.nodes[x].parent)
        }
}

proof fn lemma_same_climb(a: TreeView, b: TreeView, id: u64, way: Way, steps: nat)
    requires
        extends(a, b),
        a.nodes.contains_key(id),
    ensures
        b.top_within(id, way, steps) == a.top_within(id, way, steps),
        b.trail_within(id, way, steps) == a.trail_within(id, way, steps),
        a.top_within(id, way, steps) matches Some(top) ==> a.kind(top) == b.kind(top),
    decreases steps,
{
    if a.climbs(id, way) && steps > 0 {
        let up = a.nodes[id].parent;
        let fewer = (steps - 1) as nat;
        assert(b.nodes[id].parent == up);
        if a.nodes.contains_key(up) {
            lemma_same_climb(a, b, up, way, fewer);
        } else {
            assert(!b.nodes.contains_key(up));
        }
        assert(a.trail_within(up, way, fewer) == b.trail_within(up, way, fewer));
    }
}

proof fn lemma_same_end(a: TreeView, b: TreeView, id: u64, way: Way)
    requires
        a.wf(),
        b.wf(),
        extends(a, b),
        a.nodes.contains_key(id),
    ensures
        b.top(id, way) == a.top(id, way),
        a.top(id, way) matches Some(top) ==> {
            &&& b.trail(id, way) == a.trail(id, way)
            &&& b.kind(top) == a.kind(top)
        },
{
    let steps = (a.next_id + b.next_id) as nat;
    a.lemma_enough_steps(id, way, steps);
    b.lemma_enough_steps(id, way, steps);
    lemma_same_climb(a, b, id, way, steps);
}

/// What a node resolves to depends only on the nodes above it.
pub proof fn law_paths_depend_on_ancestors(a: TreeView, b: TreeView, id: u64)
    requires
        a.wf(),
        b.wf(),
        extends(a, b),
        a.nodes.contains_key(id),
    ensures
        b.worktree_root(id) == a.worktree_root(id),
        b.disk_path(id) == a.disk_path(id),
        b.refs_context(id) == a.refs_context(id),
{
    lemma_same_end(a, b, id, Way::Files);
    lemma_same_end(a, b, id, Way::Segments);
    if let Some(top) = a.top(id, Way::Segments) {
        if a.kind(top) == Some(KindView::RefsRoot) {
            let repo = a.nodes[top].parent;
            assert(b.nodes[top].parent == repo);
            if a.nodes.contains_key(repo) {
                let org = a.nodes[repo].parent;
                assert(b.nodes[repo].parent == org);
                if a.nodes.contains_key(org) {
                    assert(b.nodes[org].name == a.nodes[org].name);
                }
            }
        }
    }
}

/// Adding a child leaves every path as it was, and so does setting a time.
pub proof fn law_adding_keeps_paths(
    tree: TreeView,
    parent: u64,
    name: Seq<char>,
    kind: KindView,
    now: NfsTime,
    id: u64,
)
    requires
        tree.wf(),
        parent < tree.next_id,
        tree.next_id < u64::MAX,
        tree.nodes.contains_key(id),
    ensures
        tree.with_child(parent, name, kind, now).disk_path(id) == tree.disk_path(id),
        tree.with_child(parent, name, kind, now).refs_context(id) == tree.refs_context(id),
        tree.touched(parent, now).disk_path(id) == tree.disk_path(id),
        tree.touched(parent, now).refs_context(id) == tree.refs_context(id),
{
    let after = tree.with_child(parent, name, kind, now);
    tree.lemma_with_child(parent, name, kind, now);
    assert forall|x: u64| #[trigger] tree.nodes.contains_key(x) implies {
        &&& after.nodes.contains_key(x)
        &&& after.nodes[x].parent == tree.nodes[x].parent
        &&& after.nodes[x].name == tree.nodes[x].name
        &&& after.nodes[x].kind == tree.nodes[x].kind
        &&& after.nodes.contains_key(tree.nodes[x].parent) ==> tree.nodes.contains_key(
            tree.nodes[x].parent,
        )
    } by {
        assert(x < tree.next_id && tree.nodes[x].parent < tree.next_id);
    }
    law_paths_depend_on_ancestors(tree, after, id);
    tree.lemma_touched(parent, now);
    let touched = tree.touched(parent, now);
    assert(extends(tree, touched));
    law_paths_depend_on_ancestors(tree, touched, id);
}

/// A file added to a directory lies at the directory's path with its name put
/// after it.
pub proof fn law_added_file_path(tree: TreeView, dir: u64, name: Seq<char>, now: NfsTime)
    requires
        tree.wf(),
        tree.nodes.contains_key(dir),
        tree.child(dir, name) is None,
        tree.next_id < u64::MAX,
    ensures
        ({
            let after = tree.with_child(dir, name, KindView::Disk, now);
            let id = tree.child_id(dir, name);
            &&& after.worktree_root(id) == tree.worktree_root(dir)
            &&& match tree.disk_path(dir) {
                Some(path) => after.disk_path(id) == Some(path_join(path, utf8(name))),
                None => after.disk_path(id) is None,
            }
        }),
{
    let after = tree.with_child(dir, name, KindView::Disk, now);
    let id = tree.child_id(dir, name);
    tree.lemma_with_child(dir, name, KindView::Disk, now);
    law_adding_keeps_paths(tree, dir, name, KindView::Disk, now, dir);
    assert(dir < tree.next_id);
    assert(after.nodes[id].parent == dir);
    assert forall|x: u64| #[trigger] tree.nodes.contains_key(x) implies {
        &&& after.nodes.contains_key(x)
        &&& after.nodes[x].parent == tree.nodes[x].parent
        &&& after.nodes[x].name == tree.nodes[x].name
        &&& after.nodes[x].kind == tree.nodes[x].kind
        &&& after.nodes.contains_key(tree.nodes[x].parent) ==> tree.nodes.contains_key(
            tree.nodes[x].parent,
        )
    } by {
        assert(x < tree.next_id && tree.nodes[x].parent < tree.next_id);
    }
    law_paths_depend_on_ancestors(tree, after, dir);
    after.lemma_file_path(id);
}

/// A segment added in the `refs` subtree extends the branch name by itself.
pub proof fn law_added_segment_context(tree: TreeView, dir: u64, name: Seq<char>, now: NfsTime)
    requires
        tree.wf(),
        tree.nodes.contains_key(dir),
        tree.child(dir, name) is None,
        tree.next_id < u64::MAX,
    ensures
        ({
            let after = tree.with_child(dir, name, KindView::RefPath, now);
            let id = tree.child_id(dir, name);
            match tree.refs_context(dir) {
                Some(c) => after.refs_context(id) == Some(
                    ContextView { segs: c.segs.push(name), ..c },
                ),
                None => after.refs_context(id) is None,
            }
        }),
{
    let after = tree.with_child(dir, name, KindView::RefPath, now);
    let id = tree.child_id(dir, name);
    tree.lemma_with_child(dir, name, KindView::RefPath, now);
    law_adding_keeps_paths(tree, dir, name, KindView::RefPath, now, dir);
    assert(dir < tree.next_id);
    assert(after.nodes[id].parent == dir);
    after.lemma_segment_context(id);
}

/// Whether everything inside worktrees has a name that a file can have.
pub open spec fn file_names_are_valid(tree: TreeView) -> bool {
    forall|id: u64| #[trigger]
        tree.nodes.contains_key(id) && tree.nodes[id].kind is Disk ==> is_valid_disk_name(
            tree.nodes[id].name,
        )
}

proof fn lemma_not_up(name: Seq<char>)
    requires
        name != seq!['.', '.'],
    ensures
        utf8(name) != seq![DOT, DOT],
{
    lemma_utf8_ascii('.');
    lemma_utf8_concat(seq!['.'], seq!['.']);
    assert(seq!['.'] + seq!['.'] =~= seq!['.', '.']);
    assert(utf8(seq!['.', '.']) =~= seq![DOT, DOT]);
    if utf8(name) == seq![DOT, DOT] {
        lemma_utf8_injective(name, seq!['.', '.']);
    }
}

/// Whether `path` goes down from `root`, without a step up.
pub open spec fn goes_down(root: Seq<u8>, path: Seq<u8>) -> bool {
    &&& components(root).is_prefix_of(components(path))
    &&& forall|i: int|
        components(root).len() <= i < components(path).len() ==> #[trigger] components(path)[i] != seq![
            DOT,
            DOT,
        ]
}

proof fn lemma_trail_is_valid(tree: TreeView, id: u64, steps: nat)
    requires
        file_names_are_valid(tree),
    ensures
        forall|i: int|
            0 <= i < tree.trail_within(id, Way::Files, steps).len() ==> is_valid_disk_name(
                #[trigger] tree.trail_within(id, Way::Files, steps)[i],
            ),
    decreases steps,
{
    if tree.climbs(id, Way::Files) && steps > 0 {
        let up = tree.nodes[id].parent;
        let above = tree.trail_within(up, Way::Files, (steps - 1) as nat);
        lemma_trail_is_valid(tree, up, (steps - 1) as nat);
        assert(tree.nodes.contains_key(id));
        assert forall|i: int|
            0 <= i < above.push(tree.nodes[id].name).len() implies is_valid_disk_name(
            #[trigger] above.push(tree.nodes[id].name)[i],
        ) by {
            if i < above.len() {
                assert(is_valid_disk_name(above[i]));
            }
        }
    }
}

/// Nothing escapes its worktree: a node that has a path on disk lies in some
/// worktree, and its path goes down from that worktree's root.
pub proof fn law_paths_stay_inside(tree: TreeView, id: u64)
    requires
        file_names_are_valid(tree),
    ensures
        tree.disk_path(id) is Some <==> tree.worktree_root(id) is Some,
        match (tree.disk_path(id), tree.worktree_root(id)) {
            (Some(path), Some(top)) => {
                &&& tree.kind(top) matches Some(kind) && kind is Worktree
                &&& goes_down(tree.nodes[top].kind->root, path)
            },
            _ => true,
        },
{
    if let Some(top) = tree.worktree_root(id) {
        let root = tree.nodes[top].kind->root;
        let names = tree.trail(id, Way::Files);
        lemma_trail_is_valid(tree, id, tree.next_id as nat);
        lemma_join_all_components(root, names);
        let path = components(path_join_all(root, names));
        let shared = components(root).len() as int;
        assert(components(root) =~= path.subrange(0, shared));
        assert forall|i: int| shared <= i < path.len() implies #[trigger] path[i] != seq![
            DOT,
            DOT,
        ] by {
            assert(path[i] == utf8_all(names)[i - shared]);
            lemma_not_up(names[i - shared]);
        }
    }
}

/// After a rename the moved node is found under its new name, nothing is found
/// under the old one, and the path of a file follows from its new directory,
/// while a worktree stays where it is on disk.
pub proof fn law_rename_moves(
    tree: TreeView,
    from: u64,
    from_name: Seq<char>,
    to: u64,
    to_name: Seq<char>,
    now: NfsTime,
    id: u64,
)
    requires
        tree.wf(),
        tree.nodes.contains_key(to),
        tree.child(from, from_name) == Some(id),
        (from, from_name) != (to, to_name),
        tree.child(to, to_name) != Some(from),
        tree.child(to, to_name) != Some(to),
    ensures
        ({
            let after = tree.renamed(from, from_name, to, to_name, now);
            &&& after.child(to, to_name) == Some(id)
            &&& after.child(from, from_name) is None
            &&& after.nodes[id].kind == tree.nodes[id].kind
            &&& after.nodes[id].kind is Disk ==> match after.disk_path(to) {
                Some(dir) => after.disk_path(id) == Some(path_join(dir, utf8(to_name))),
                None => after.disk_path(id) is None,
            }
            &&& after.nodes[id].kind is Worktree ==> after.disk_path(id) == tree.disk_path(id)
        }),
{
    assert(to < tree.next_id);
    tree.lemma_renamed(from, from_name, to, to_name, now);
    let middle = tree.without_child(to, to_name, now);
    let after = middle.relinked(from, from_name, to, to_name);
    assert(tree.links(from, from_name));
    if tree.child(to, to_name) is Some {
        assert(tree.links(to, to_name));
        let gone = tree.nodes[to].children[to_name];
        if gone == id {
            assert(tree.nodes[id].parent == from && tree.nodes[id].parent == to);
        }
    }
    assert(middle.child(from, from_name) == Some(id));
    assert(middle.nodes.contains_key(to));
    assert(after.nodes.contains_key(to));
    assert(after.nodes[id].parent == to);
    assert(after.nodes[id].name == to_name);
    if after.nodes[id].kind is Disk {
        after.lemma_file_path(id);
    }
}

/// What lies in a file lies in the directory of the file.
proof fn lemma_lies_further_up(tree: TreeView, id: u64, top: u64, depth: nat)
    requires
        lies_within(tree, id, top, depth),
        tree.kind(top) == Some(KindView::Disk),
    ensures
        lies_within(tree, id, tree.nodes[top].parent, depth + 1),
    decreases depth,
{
    if id != top {
        lemma_lies_further_up(tree, tree.nodes[id].parent, top, (depth - 1) as nat);
    } else {
        assert(lies_within(tree, tree.nodes[id].parent, tree.nodes[top].parent, depth));
    }
}

/// A climb from between the new directory and what was moved never ends.
proof fn lemma_moved_below_itself(
    tree: TreeView,
    from: u64,
    from_name: Seq<char>,
    to: u64,
    to_name: Seq<char>,
    now: NfsTime,
    id: u64,
    x: u64,
    steps: nat,
)
    requires
        tree.wf(),
        tree.child(from, from_name) == Some(id),
        tree.kind(id) == Some(KindView::Disk),
        lies_in(tree, to, id),
        tree.child(to, to_name) matches Some(gone) ==> !lies_in(tree, to, gone),
        lies_in(tree, to, x),
        lies_in(tree, x, id),
    ensures
        tree.renamed(from, from_name, to, to_name, now).top_within(x, Way::Files, steps) is None,
    decreases steps,
{
    let middle = tree.without_child(to, to_name, now);
    let after = tree.renamed(from, from_name, to, to_name, now);
    assert(tree.links(from, from_name));
    if tree.child(to, to_name) is Some {
        assert(tree.links(to, to_name));
    }
    let whole = choose|depth: nat| lies_within(tree, to, id, depth);
    lemma_lies_further_up(tree, to, id, whole);
    let down = choose|depth: nat| lies_within(tree, to, x, depth);
    let up = choose|depth: nat| lies_within(tree, x, id, depth);
    assert(tree.kind(x) == Some(KindView::Disk));
    assert(middle.child(from, from_name) == Some(id));
    assert(after.kind(x) == Some(KindView::Disk));
    if steps > 0 {
        let fewer = (steps - 1) as nat;
        if x == id {
            assert(lies_within(tree, to, to, 0));
            assert(after.nodes[x].parent == to);
            lemma_moved_below_itself(
                tree,
                from,
                from_name,
                to,
                to_name,
                now,
                id,
                to,
                fewer,
            );
        } else {
            let parent = tree.nodes[x].parent;
            lemma_lies_further_up(tree, to, x, down);
            assert(lies_within(tree, parent, id, (up - 1) as nat));
            assert(after.nodes[x].parent == parent);
            lemma_moved_below_itself(
                tree,
                from,
                from_name,
                to,
                to_name,
                now,
                id,
                parent,
                fewer,
            );
        }
    }
}

/// A file that is moved into what lies in it hangs there from then on, and
/// neither it nor its new directory has a path any more.
pub proof fn law_moved_below_itself_has_no_path(
    tree: TreeView,
    from: u64,
    from_name: Seq<char>,
    to: u64,
    to_name: Seq<char>,
    now: NfsTime,
    id: u64,
)
    requires
        tree.wf(),
        tree.child(from, from_name) == Some(id),
        tree.kind(id) == Some(KindView::Disk),
        lies_in(tree, to, id),
        tree.child(to, to_name) matches Some(gone) ==> !lies_in(tree, to, gone),
    ensures
        ({
            let after = tree.renamed(from, from_name, to, to_name, now);
            &&& after.child(to, to_name) == Some(id)
            &&& after.disk_path(id) is None
            &&& after.disk_path(to) is None
        }),
{
    let steps = tree.next_id as nat;
    assert(lies_within(tree, to, to, 0));
    assert(lies_within(tree, id, id, 0));
    lemma_moved_below_itself(tree, from, from_name, to, to_name, now, id, id, steps);
    lemma_moved_below_itself(tree, from, from_name, to, to_name, now, id, to, steps);
    let middle = tree.without_child(to, to_name, now);
    let whole = choose|depth: nat| lies_within(tree, to, id, depth);
    lemma_lies_further_up(tree, to, id, whole);
    assert(tree.links(from, from_name));
    if tree.child(to, to_name) is Some {
        assert(tree.links(to, to_name));
    }
    assert(middle.child(from, from_name) == Some(id));
    assert(middle.nodes.contains_key(to));
}

} // verus!
