//! What the virtual tree is: nodes with numbers, linked by name, and how the
//! operations on it change it.
//!
//! The tree has a fixed shape at the top,
//! `/ <org> / <repo> / refs / <branch...>`, and below a fully resolved branch
//! it is a passthrough view of a git worktree on disk.

use crate::config::path_join_all;
use crate::fspath::path_join;
use crate::text::utf8;
use vstd::prelude::*;
use vstd::set_lib::{lemma_int_range, lemma_len_subset, set_int_range};

verus! {

/// The number of the root.
pub const ROOT_ID: u64 = 1;

/// A point in time as the file protocol writes it.
#[derive(Clone, Copy, Debug, PartialEq, Eq, Structural)]
pub struct NfsTime {
    pub seconds: u32,
    pub nseconds: u32,
}

/// What kind of thing a node is.
pub enum KindView {
    Root,
    Org,
    Repo,
    RefsRoot,
    RefPath,
    Worktree { root: Seq<u8> },
    ForeignWorktree { target: Seq<u8> },
    Disk,
}

/// A node: where it hangs, under which name, what it is, what hangs below it.
pub struct NodeView {
    pub parent: u64,
    pub name: Seq<char>,
    pub kind: KindView,
    pub children: Map<Seq<char>, u64>,
    pub mtime: NfsTime,
}

/// The tree: its nodes by number, and the number that the next one gets.
pub struct TreeView {
    pub nodes: Map<u64, NodeView>,
    pub next_id: u64,
}

/// What leads from a repository to one of its branches.
pub struct ContextView {
    pub org: Seq<char>,
    pub repo: Seq<char>,
    pub segs: Seq<Seq<char>>,
}

/// Which nodes a climb passes on its way up.
#[derive(Clone, Copy, Debug, PartialEq, Eq, Structural)]
pub enum Way {
    /// Those inside worktrees, up to the root of the worktree.
    Files,
    /// The segments of a branch name, up to the `refs` directory.
    Segments,
}

impl TreeView {
    /// Whether a node's link to a child is true of the child.
    pub open spec fn links(self, id: u64, name: Seq<char>) -> bool {
        let child = self.nodes[id].children[name];
        &&& child != ROOT_ID
        &&& self.nodes.contains_key(child)
        &&& self.nodes[child].parent == id
        &&& self.nodes[child].name == name
    }

    /// The root is there, every number in use has been handed out, and
    /// children know where they hang. A node that was dropped may have left
    /// nodes behind that still name it as their parent, and a node that was
    /// moved into what hangs below it hangs below itself.
    pub open spec fn wf(self) -> bool {
        &&& self.nodes.contains_key(ROOT_ID)
        &&& self.nodes[ROOT_ID].kind is Root
        &&& self.nodes[ROOT_ID].parent == ROOT_ID
        &&& forall|id: u64| #[trigger]
            self.nodes.contains_key(id) ==> 1 <= id < self.next_id && self.nodes[id].parent
                < self.next_id
        &&& forall|id: u64, name: Seq<char>|
            self.nodes.contains_key(id) && #[trigger] self.nodes[id].children.contains_key(name)
                ==> self.links(id, name)
    }

    /// The tree of nothing but the root.
    pub open spec fn bare_root(now: NfsTime) -> TreeView {
        TreeView {
            nodes: Map::empty().insert(
                ROOT_ID,
                NodeView {
                    parent: ROOT_ID,
                    name: Seq::empty(),
                    kind: KindView::Root,
                    children: Map::empty(),
                    mtime: now,
                },
            ),
            next_id: 2,
        }
    }

    /// The child of a node that has a name.
    pub open spec fn child(self, id: u64, name: Seq<char>) -> Option<u64> {
        if self.nodes.contains_key(id) && self.nodes[id].children.contains_key(name) {
            Some(self.nodes[id].children[name])
        } else {
            None
        }
    }

    /// The kind of a node.
    pub open spec fn kind(self, id: u64) -> Option<KindView> {
        if self.nodes.contains_key(id) {
            Some(self.nodes[id].kind)
        } else {
            None
        }
    }

    /// The tree with the time of a node's last change set.
    pub open spec fn touched(self, id: u64, now: NfsTime) -> TreeView {
        if self.nodes.contains_key(id) {
            TreeView {
                nodes: self.nodes.insert(id, NodeView { mtime: now, ..self.nodes[id] }),
                next_id: self.next_id,
            }
        } else {
            self
        }
    }

    /// The tree with the kind of a node set.
    pub open spec fn with_kind(self, id: u64, kind: KindView) -> TreeView {
        if self.nodes.contains_key(id) {
            TreeView {
                nodes: self.nodes.insert(id, NodeView { kind, ..self.nodes[id] }),
                next_id: self.next_id,
            }
        } else {
            self
        }
    }

    /// The number that a child has once it has been added.
    pub open spec fn child_id(self, parent: u64, name: Seq<char>) -> u64 {
        match self.child(parent, name) {
            Some(id) => id,
            None => self.next_id,
        }
    }

    /// The tree with a child added: one that is there stays as it is; a new
    /// one gets the next number and is linked to its parent, where that is
    /// there.
    pub open spec fn with_child(
        self,
        parent: u64,
        name: Seq<char>,
        kind: KindView,
        now: NfsTime,
    ) -> TreeView {
        if self.child(parent, name) is Some {
            self
        } else {
            let id = self.next_id;
            let node = NodeView { parent, name, kind, children: Map::empty(), mtime: now };
            let nodes = self.nodes.insert(id, node);
            let linked = if nodes.contains_key(parent) {
                let p = nodes[parent];
                nodes.insert(
                    parent,
                    NodeView { children: p.children.insert(name, id), mtime: now, ..p },
                )
            } else {
                nodes
            };
            TreeView { nodes: linked, next_id: (id + 1) as u64 }
        }
    }

    /// The tree without a child: its link and its node are gone. Nodes below
    /// it stay behind under their numbers, out of reach.
    pub open spec fn without_child(self, parent: u64, name: Seq<char>, now: NfsTime) -> TreeView {
        match self.child(parent, name) {
            Some(id) => {
                let p = self.nodes[parent];
                TreeView {
                    nodes: self.nodes.insert(
                        parent,
                        NodeView { children: p.children.remove(name), mtime: now, ..p },
                    ).remove(id),
                    next_id: self.next_id,
                }
            },
            None => self,
        }
    }

    /// The tree after a child has been hung elsewhere under another name.
    pub open spec fn relinked(
        self,
        from: u64,
        from_name: Seq<char>,
        to: u64,
        to_name: Seq<char>,
    ) -> TreeView {
        match self.child(from, from_name) {
            Some(id) => {
                let source = self.nodes[from];
                let nodes = self.nodes.insert(
                    from,
                    NodeView { children: source.children.remove(from_name), ..source },
                );
                let nodes = if nodes.contains_key(id) {
                    nodes.insert(id, NodeView { parent: to, name: to_name, ..nodes[id] })
                } else {
                    nodes
                };
                let nodes = if nodes.contains_key(to) {
                    let target = nodes[to];
                    nodes.insert(
                        to,
                        NodeView { children: target.children.insert(to_name, id), ..target },
                    )
                } else {
                    nodes
                };
                TreeView { nodes, next_id: self.next_id }
            },
            None => self,
        }
    }

    /// The tree after a rename: what the rename overwrote is dropped, and what
    /// was moved hangs in its place.
    pub open spec fn renamed(
        self,
        from: u64,
        from_name: Seq<char>,
        to: u64,
        to_name: Seq<char>,
        now: NfsTime,
    ) -> TreeView {
        self.without_child(to, to_name, now).relinked(from, from_name, to, to_name)
    }

    /// Whether a climb goes on from a node to its parent.
    pub open spec fn climbs(self, id: u64, way: Way) -> bool {
        match self.kind(id) {
            Some(KindView::Disk) => way is Files,
            Some(KindView::RefPath) | Some(KindView::Worktree { .. }) => way is Segments,
            _ => false,
        }
    }

    /// Where a climb of at most so many steps ends, if it does.
    pub open spec fn top_within(self, id: u64, way: Way, steps: nat) -> Option<u64>
        decreases steps,
    {
        if !self.climbs(id, way) {
            Some(id)
        } else if steps == 0 {
            None
        } else {
            self.top_within(self.nodes[id].parent, way, (steps - 1) as nat)
        }
    }

    /// The names that such a climb passes, the topmost first.
    pub open spec fn trail_within(self, id: u64, way: Way, steps: nat) -> Seq<Seq<char>>
        decreases steps,
    {
        if !self.climbs(id, way) || steps == 0 {
            Seq::empty()
        } else {
            self.trail_within(self.nodes[id].parent, way, (steps - 1) as nat).push(
                self.nodes[id].name,
            )
        }
    }

    /// Where a climb ends. One that has not ended after as many steps as there
    /// are numbers in use goes round in a circle and never ends.
    pub open spec fn top(self, id: u64, way: Way) -> Option<u64> {
        self.top_within(id, way, self.next_id as nat)
    }

    /// The names that a climb passes, the topmost first.
    pub open spec fn trail(self, id: u64, way: Way) -> Seq<Seq<char>> {
        self.trail_within(id, way, self.next_id as nat)
    }

    /// The worktree root that contains a node, or is the node.
    pub open spec fn worktree_root(self, id: u64) -> Option<u64> {
        match self.top(id, Way::Files) {
            Some(top) => match self.kind(top) {
                Some(KindView::Worktree { .. }) => Some(top),
                _ => None,
            },
            None => None,
        }
    }

    /// The real path of a worktree or of something inside it: the path of the
    /// worktree and the names that lead down from it.
    pub open spec fn disk_path(self, id: u64) -> Option<Seq<u8>> {
        match self.top(id, Way::Files) {
            Some(top) => match self.kind(top) {
                Some(KindView::Worktree { root }) => Some(
                    path_join_all(root, self.trail(id, Way::Files)),
                ),
                _ => None,
            },
            None => None,
        }
    }

    /// For nodes in the `refs` subtree: the repository and the segments of the
    /// branch name so far (none for the `refs` directory itself).
    pub open spec fn refs_context(self, id: u64) -> Option<ContextView> {
        match self.top(id, Way::Segments) {
            Some(top) => match self.kind(top) {
                Some(KindView::RefsRoot) => {
                    let repo = self.nodes[top].parent;
                    let org = self.nodes[repo].parent;
                    if self.nodes.contains_key(repo) && self.nodes.contains_key(org) {
                        Some(
                            ContextView {
                                org: self.nodes[org].name,
                                repo: self.nodes[repo].name,
                                segs: self.trail(id, Way::Segments),
                            },
                        )
                    } else {
                        None
                    }
                },
                _ => None,
            },
            None => None,
        }
    }

    /// Whether a node is a virtual directory in the `refs` subtree of a
    /// repository.
    pub open spec fn in_refs(self, id: u64, org: Seq<char>, repo: Seq<char>) -> bool {
        &&& self.kind(id) matches Some(kind) && (kind is RefsRoot || kind is RefPath)
        &&& self.refs_context(id) matches Some(c) && c.org == org && c.repo == repo
    }

    /// The tree with the time of the last change set on every virtual
    /// directory in the `refs` subtree of a repository.
    pub open spec fn refs_touched(self, org: Seq<char>, repo: Seq<char>, now: NfsTime) -> TreeView {
        TreeView {
            nodes: Map::new(
                |id: u64| self.nodes.contains_key(id),
                |id: u64|
                    if self.in_refs(id, org, repo) {
                        NodeView { mtime: now, ..self.nodes[id] }
                    } else {
                        self.nodes[id]
                    },
            ),
            next_id: self.next_id,
        }
    }
}

/// A tree of nothing but the root is well formed.
pub proof fn lemma_bare_root(now: NfsTime)
    ensures
        TreeView::bare_root(now).wf(),
{
}

/// A tree keeps its form when nodes change only in kind and time, and the
/// root stays the root.
pub proof fn lemma_same_links(a: TreeView, b: TreeView)
    requires
        a.wf(),
        b.next_id == a.next_id,
        b.nodes.dom() == a.nodes.dom(),
        b.nodes[ROOT_ID].kind is Root,
        forall|id: u64| #[trigger]
            b.nodes.contains_key(id) ==> {
                &&& b.nodes[id].parent == a.nodes[id].parent
                &&& b.nodes[id].name == a.nodes[id].name
                &&& b.nodes[id].children == a.nodes[id].children
            },
    ensures
        b.wf(),
{
    assert forall|id: u64, name: Seq<char>|
        b.nodes.contains_key(id) && #[trigger] b.nodes[id].children.contains_key(name) implies b.links(
        id,
        name,
    ) by {
        assert(a.nodes.contains_key(id));
        assert(a.nodes[id].children.contains_key(name));
        assert(a.links(id, name));
        assert(b.nodes.contains_key(b.nodes[id].children[name]));
    }
    assert forall|id: u64| #[trigger] b.nodes.contains_key(id) implies 1 <= id < b.next_id
        && b.nodes[id].parent < b.next_id by {
        assert(a.nodes.contains_key(id));
    }
    assert(a.nodes.contains_key(ROOT_ID));
    assert(b.nodes.contains_key(ROOT_ID));
}

impl TreeView {
    /// Setting a time keeps the form.
    pub proof fn lemma_touched(self, id: u64, now: NfsTime)
        requires
            self.wf(),
        ensures
            self.touched(id, now).wf(),
    {
        if self.nodes.contains_key(id) {
            assert(self.touched(id, now).nodes.dom() =~= self.nodes.dom());
            lemma_same_links(self, self.touched(id, now));
        }
    }

    /// Setting a kind keeps the form, except on the root.
    pub proof fn lemma_with_kind(self, id: u64, kind: KindView)
        requires
            self.wf(),
            id != ROOT_ID,
        ensures
            self.with_kind(id, kind).wf(),
    {
        if self.nodes.contains_key(id) {
            assert(self.with_kind(id, kind).nodes.dom() =~= self.nodes.dom());
            lemma_same_links(self, self.with_kind(id, kind));
        }
    }

    /// Adding a child keeps the form.
    pub proof fn lemma_with_child(self, parent: u64, name: Seq<char>, kind: KindView, now: NfsTime)
        requires
            self.wf(),
            parent < self.next_id,
            self.next_id < u64::MAX,
        ensures
            self.with_child(parent, name, kind, now).wf(),
            self.child_id(parent, name) < self.with_child(parent, name, kind, now).next_id,
            self.child_id(parent, name) != ROOT_ID,
    {
        let after = self.with_child(parent, name, kind, now);
        if self.child(parent, name) is Some {
            assert(self.links(parent, name));
        } else {
            let id = self.next_id;
            assert(!self.nodes.contains_key(id));
            assert(self.nodes.contains_key(ROOT_ID));
            assert forall|x: u64, n: Seq<char>|
                after.nodes.contains_key(x) && #[trigger] after.nodes[x].children.contains_key(
                    n,
                ) implies after.links(x, n) by {
                if x == parent && n == name {
                    assert(after.nodes[x].children[n] == id);
                } else if x != id {
                    assert(self.nodes.contains_key(x));
                    assert(self.nodes[x].children.contains_key(n));
                    assert(self.links(x, n));
                }
            }
            assert forall|x: u64| #[trigger] after.nodes.contains_key(x) implies 1 <= x
                < after.next_id && after.nodes[x].parent < after.next_id by {
                if x != id {
                    assert(self.nodes.contains_key(x));
                }
            }
        }
    }

    /// Dropping a child keeps the form.
    pub proof fn lemma_without_child(self, parent: u64, name: Seq<char>, now: NfsTime)
        requires
            self.wf(),
        ensures
            self.without_child(parent, name, now).wf(),
    {
        let after = self.without_child(parent, name, now);
        if self.child(parent, name) is Some {
            let id = self.nodes[parent].children[name];
            assert(self.links(parent, name));
            assert forall|x: u64, n: Seq<char>|
                after.nodes.contains_key(x) && #[trigger] after.nodes[x].children.contains_key(
                    n,
                ) implies after.links(x, n) by {
                assert(self.nodes.contains_key(x));
                assert(self.nodes[x].children.contains_key(n));
                assert(self.links(x, n));
                let c = self.nodes[x].children[n];
                if c == id {
                    assert(x == parent && n == name);
                }
                assert(after.nodes.contains_key(c));
            }
            assert forall|x: u64| #[trigger] after.nodes.contains_key(x) implies 1 <= x
                < after.next_id && after.nodes[x].parent < after.next_id by {
                assert(self.nodes.contains_key(x));
            }
            assert(self.nodes.contains_key(ROOT_ID));
            assert(after.nodes.contains_key(ROOT_ID));
        }
    }

    /// Moving a child keeps the form.
    pub proof fn lemma_relinked(
        self,
        from: u64,
        from_name: Seq<char>,
        to: u64,
        to_name: Seq<char>,
    )
        requires
            self.wf(),
            to < self.next_id,
            self.child(to, to_name) is None,
        ensures
            self.relinked(from, from_name, to, to_name).wf(),
    {
        let after = self.relinked(from, from_name, to, to_name);
        if self.child(from, from_name) is Some {
            let id = self.nodes[from].children[from_name];
            assert(self.links(from, from_name));
            assert forall|x: u64, n: Seq<char>|
                after.nodes.contains_key(x) && #[trigger] after.nodes[x].children.contains_key(
                    n,
                ) implies after.links(x, n) by {
                assert(self.nodes.contains_key(x));
                if x == to && n == to_name {
                    assert(after.nodes[x].children[n] == id);
                } else {
                    assert(self.nodes[x].children.contains_key(n));
                    assert(self.links(x, n));
                    let c = self.nodes[x].children[n];
                    if c == id {
                        assert(x == from && n == from_name);
                    }
                    assert(after.nodes[x].children[n] == c);
                    assert(after.nodes.contains_key(c));
                }
            }
            assert forall|x: u64| #[trigger] after.nodes.contains_key(x) implies 1 <= x
                < after.next_id && after.nodes[x].parent < after.next_id by {
                assert(self.nodes.contains_key(x));
            }
            assert(self.nodes.contains_key(ROOT_ID));
            assert(after.nodes.contains_key(ROOT_ID));
        }
    }

    /// A rename keeps the form.
    pub proof fn lemma_renamed(
        self,
        from: u64,
        from_name: Seq<char>,
        to: u64,
        to_name: Seq<char>,
        now: NfsTime,
    )
        requires
            self.wf(),
            to < self.next_id,
        ensures
            self.renamed(from, from_name, to, to_name, now).wf(),
    {
        let after = self.without_child(to, to_name, now);
        self.lemma_without_child(to, to_name, now);
        assert(after.child(to, to_name) is None);
        after.lemma_relinked(from, from_name, to, to_name);
    }
}

impl TreeView {
    /// The node that so many steps up lead to.
    spec fn ancestor(self, id: u64, steps: nat) -> u64
        decreases steps,
    {
        if steps == 0 {
            id
        } else {
            self.ancestor(self.nodes[id].parent, (steps - 1) as nat)
        }
    }

    proof fn lemma_ancestor_of_ancestor(self, id: u64, m: nat, n: nat)
        ensures
            self.ancestor(id, m + n) == self.ancestor(self.ancestor(id, m), n),
        decreases m,
    {
        if m > 0 {
            self.lemma_ancestor_of_ancestor(self.nodes[id].parent, (m - 1) as nat, n);
        }
    }

    /// A climb has not ended as long as every node on it leads on.
    proof fn lemma_unended(self, id: u64, way: Way, steps: nat)
        ensures
            self.top_within(id, way, steps) is None <==> forall|k: nat|
                k <= steps ==> self.climbs(#[trigger] self.ancestor(id, k), way),
        decreases steps,
    {
        let up = self.nodes[id].parent;
        assert(self.ancestor(id, 0) == id);
        if steps > 0 {
            self.lemma_unended(up, way, (steps - 1) as nat);
            if self.climbs(id, way) {
                if self.top_within(id, way, steps) is None {
                    assert forall|k: nat| k <= steps implies self.climbs(
                        #[trigger] self.ancestor(id, k),
                        way,
                    ) by {
                        if k > 0 {
                            assert(self.ancestor(id, k) == self.ancestor(up, (k - 1) as nat));
                        }
                    }
                } else {
                    let k = choose|k: nat|
                        k <= steps - 1 && !self.climbs(#[trigger] self.ancestor(up, k), way);
                    assert(self.ancestor(id, k + 1) == self.ancestor(up, k));
                }
            }
        }
    }

    /// A climb that comes back to a node passes the same nodes again.
    proof fn lemma_circle(self, id: u64, way: Way, i: nat, j: nat, k: nat)
        requires
            i < j,
            self.ancestor(id, i) == self.ancestor(id, j),
            forall|m: nat| m <= j ==> self.climbs(#[trigger] self.ancestor(id, m), way),
        ensures
            self.climbs(self.ancestor(id, k), way),
        decreases k,
    {
        if k > j {
            let rest = (k - j) as nat;
            self.lemma_ancestor_of_ancestor(id, i, rest);
            self.lemma_ancestor_of_ancestor(id, j, rest);
            assert(j + rest == k);
            self.lemma_circle(id, way, i, j, i + rest);
        }
    }

    /// A climb that takes more steps than there are numbers in use comes back
    /// to a node.
    proof fn lemma_comes_back(self, id: u64, way: Way) -> (r: (nat, nat))
        requires
            self.wf(),
            self.top(id, way) is None,
        ensures
            r.0 < r.1 < self.next_id,
            self.ancestor(id, r.0) == self.ancestor(id, r.1),
    {
        let count = self.next_id as nat;
        self.lemma_unended(id, way, count);
        let passed = Seq::new(count, |k: int| self.ancestor(id, k as nat) as int);
        let numbers = set_int_range(1, count as int);
        lemma_int_range(1, count as int);
        assert forall|x: int| passed.to_set().contains(x) implies numbers.contains(x) by {
            let k = choose|k: int| 0 <= k < passed.len() && passed[k] == x;
            assert(self.climbs(self.ancestor(id, k as nat), way));
            assert(self.nodes.contains_key(self.ancestor(id, k as nat)));
        }
        assert(self.nodes.contains_key(ROOT_ID));
        lemma_len_subset(passed.to_set(), numbers);
        if passed.no_duplicates() {
            passed.unique_seq_to_set();
        }
        let (i, j) = choose|i: int, j: int|
            0 <= i < passed.len() && 0 <= j < passed.len() && i != j && passed[i] == passed[j];
        if i < j {
            (i as nat, j as nat)
        } else {
            (j as nat, i as nat)
        }
    }

    /// A climb that has ended ends there however many more steps it is given.
    proof fn lemma_ended(self, id: u64, way: Way, steps: nat, more: nat)
        requires
            steps <= more,
            self.top_within(id, way, steps) is Some,
        ensures
            self.top_within(id, way, more) == self.top_within(id, way, steps),
            self.trail_within(id, way, more) == self.trail_within(id, way, steps),
        decreases steps,
    {
        if self.climbs(id, way) {
            self.lemma_ended(
                self.nodes[id].parent,
                way,
                (steps - 1) as nat,
                (more - 1) as nat,
            );
        }
    }

    /// More steps than there are numbers in use make no difference to where a
    /// climb ends and what it passes until then.
    pub proof fn lemma_enough_steps(self, id: u64, way: Way, steps: nat)
        requires
            self.wf(),
            self.next_id <= steps,
        ensures
            self.top_within(id, way, steps) == self.top(id, way),
            self.top(id, way) is Some ==> self.trail_within(id, way, steps) == self.trail(id, way),
    {
        let count = self.next_id as nat;
        if self.top(id, way) is Some {
            self.lemma_ended(id, way, count, steps);
        } else {
            let (i, j) = self.lemma_comes_back(id, way);
            self.lemma_unended(id, way, count);
            assert forall|k: nat| k <= steps implies self.climbs(
                #[trigger] self.ancestor(id, k),
                way,
            ) by {
                self.lemma_circle(id, way, i, j, k);
            }
            self.lemma_unended(id, way, steps);
        }
    }

    /// A climb from a node that leads on goes as the climb from its parent
    /// does, and passes the node's own name last.
    pub proof fn lemma_climb(self, id: u64, way: Way)
        requires
            self.wf(),
            self.climbs(id, way),
        ensures
            self.top(id, way) == self.top(self.nodes[id].parent, way),
            self.top(id, way) is Some ==> self.trail(id, way) == self.trail(
                self.nodes[id].parent,
                way,
            ).push(self.nodes[id].name),
    {
        let more = (self.next_id + 1) as nat;
        self.lemma_enough_steps(id, way, more);
    }

    /// Something inside a worktree lies where its directory does, under its
    /// own name.
    pub proof fn lemma_file_path(self, id: u64)
        requires
            self.wf(),
            self.kind(id) == Some(KindView::Disk),
        ensures
            self.worktree_root(id) == self.worktree_root(self.nodes[id].parent),
            match self.disk_path(self.nodes[id].parent) {
                Some(dir) => self.disk_path(id) == Some(
                    path_join(dir, utf8(self.nodes[id].name)),
                ),
                None => self.disk_path(id) is None,
            },
    {
        self.lemma_climb(id, Way::Files);
        let above = self.trail(self.nodes[id].parent, Way::Files);
        assert(above.push(self.nodes[id].name).drop_last() =~= above);
    }

    /// A segment of a branch name extends what its directory stands for.
    pub proof fn lemma_segment_context(self, id: u64)
        requires
            self.wf(),
            self.climbs(id, Way::Segments),
        ensures
            match self.refs_context(self.nodes[id].parent) {
                Some(c) => self.refs_context(id) == Some(
                    ContextView { segs: c.segs.push(self.nodes[id].name), ..c },
                ),
                None => self.refs_context(id) is None,
            },
    {
        self.lemma_climb(id, Way::Segments);
    }
}

} // verus!
