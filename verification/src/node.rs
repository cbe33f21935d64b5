//! The state of the virtual tree: its nodes, and what is cached about the
//! repositories.

use crate::config::path_join_all;
use crate::fspath::FsPath;
use crate::names::{in_order, is_in_order, NameMap, RepoMap};
use crate::text::{same, strings};
use crate::tree::{
    lemma_bare_root, ContextView, KindView, NfsTime, NodeView, ROOT_ID, TreeView, Way,
};
use crate::trie::BranchTrie;
use std::collections::HashMap;
use std::sync::Arc;
use vstd::prelude::*;
use vstd::std_specs::hash::group_hash_axioms;
use vstd::std_specs::iter::IteratorSpec;
use vstd::string::*;

verus! {

broadcast use group_hash_axioms;

/// The time of day in the file protocol's form, out of the seconds and
/// nanoseconds since the epoch. The protocol keeps the low bits of the seconds.
pub fn now_nfstime(secs: u64, nanos: u32) -> (r: NfsTime)
    ensures
        r.seconds == secs % 0x1_0000_0000,
        r.nseconds == nanos,
{
    let low: u64 = secs % 0x1_0000_0000;
    NfsTime { seconds: low as u32, nseconds: nanos }
}

/// What a node in the virtual tree represents.
#[derive(Debug)]
pub enum NodeKind {
    Root,
    Org,
    Repo,
    /// The literal `refs` directory under a repository.
    RefsRoot,
    /// An intermediate segment of a branch name (`feature` when the branch is
    /// `feature/foo`). Upgraded to `Worktree` if the full path turns out to be
    /// a branch.
    RefPath,
    /// A fully matched branch, backed by a worktree on disk.
    Worktree { root: FsPath },
    /// A branch checked out in a worktree elsewhere. Git forbids checking the
    /// branch out a second time, so it appears as a symlink to that worktree.
    ForeignWorktree { target: FsPath },
    /// A file, directory or symlink inside a worktree; its real path follows
    /// from its parents.
    Disk,
}

impl View for NodeKind {
    type V = KindView;

    open spec fn view(&self) -> KindView {
        match *self {
            NodeKind::Root => KindView::Root,
            NodeKind::Org => KindView::Org,
            NodeKind::Repo => KindView::Repo,
            NodeKind::RefsRoot => KindView::RefsRoot,
            NodeKind::RefPath => KindView::RefPath,
            NodeKind::Worktree { root } => KindView::Worktree { root: root@ },
            NodeKind::ForeignWorktree { target } => KindView::ForeignWorktree { target: target@ },
            NodeKind::Disk => KindView::Disk,
        }
    }
}

impl Clone for NodeKind {
    fn clone(&self) -> (r: NodeKind)
        ensures
            r@ == self@,
    {
        match self {
            NodeKind::Root => NodeKind::Root,
            NodeKind::Org => NodeKind::Org,
            NodeKind::Repo => NodeKind::Repo,
            NodeKind::RefsRoot => NodeKind::RefsRoot,
            NodeKind::RefPath => NodeKind::RefPath,
            NodeKind::Worktree { root } => NodeKind::Worktree { root: root.clone() },
            NodeKind::ForeignWorktree { target } => NodeKind::ForeignWorktree {
                target: target.clone(),
            },
            NodeKind::Disk => NodeKind::Disk,
        }
    }
}

/// One node of the virtual tree.
#[derive(Debug)]
pub struct Node {
    pub parent: u64,
    pub name: String,
    pub kind: NodeKind,
    pub children: NameMap<u64>,
    /// For virtual directories: set whenever the listing changes, so that
    /// clients, which cache listings by this time, fetch them again.
    pub mtime: NfsTime,
}

impl View for Node {
    type V = NodeView;

    open spec fn view(&self) -> NodeView {
        NodeView {
            parent: self.parent,
            name: self.name@,
            kind: self.kind@,
            children: self.children@,
            mtime: self.mtime,
        }
    }
}

/// A branch listing and when it was fetched.
#[derive(Debug)]
pub struct CachedTrie {
    pub trie: Arc<BranchTrie>,
    pub fetched: u128,
}

/// The branches that a [`CachedTrie`] holds, and when it was fetched.
pub struct ListingView {
    pub branches: Set<Seq<Seq<char>>>,
    pub fetched: u128,
}

impl View for CachedTrie {
    type V = ListingView;

    open spec fn view(&self) -> ListingView {
        ListingView { branches: (*self.trie)@, fetched: self.fetched }
    }
}

/// The worktrees of a repository that live elsewhere, by branch, and when they
/// were listed.
#[derive(Debug)]
pub struct CachedForeign {
    pub worktrees: NameMap<FsPath>,
    pub listed: u128,
}

/// What a [`CachedForeign`] holds.
pub struct ForeignView {
    pub worktrees: Map<Seq<char>, Seq<u8>>,
    pub listed: u128,
}

/// The directories by branch.
pub open spec fn directories(m: Map<Seq<char>, FsPath>) -> Map<Seq<char>, Seq<u8>> {
    Map::new(|branch: Seq<char>| m.contains_key(branch), |branch: Seq<char>| m[branch]@)
}

impl View for CachedForeign {
    type V = ForeignView;

    open spec fn view(&self) -> ForeignView {
        ForeignView { worktrees: directories(self.worktrees@), listed: self.listed }
    }
}

/// What leads from a repository to one of its branches.
#[derive(Debug)]
pub struct RefsContext {
    pub org: String,
    pub repo: String,
    pub segs: Vec<String>,
}

impl View for RefsContext {
    type V = ContextView;

    open spec fn view(&self) -> ContextView {
        ContextView { org: self.org@, repo: self.repo@, segs: strings(self.segs@) }
    }
}

/// The state behind the mount.
#[derive(Debug)]
pub struct State {
    nodes: HashMap<u64, Node>,
    next_id: u64,
    /// Branch listings, refreshed after a while.
    tries: RepoMap<CachedTrie>,
    /// Repositories that the remote does not acknowledge, and since when.
    missing_repos: RepoMap<u128>,
    /// The last attempt to refresh each worktree.
    wt_refresh: HashMap<u64, u128>,
    default_branches: RepoMap<String>,
    foreign: RepoMap<CachedForeign>,
}

/// What a [`State`] holds.
pub struct StateView {
    pub tree: TreeView,
    pub tries: Map<(Seq<char>, Seq<char>), ListingView>,
    pub missing_repos: Map<(Seq<char>, Seq<char>), u128>,
    pub wt_refresh: Map<u64, u128>,
    pub default_branches: Map<(Seq<char>, Seq<char>), Seq<char>>,
    pub foreign: Map<(Seq<char>, Seq<char>), ForeignView>,
}

/// The nodes as they are seen from outside.
pub open spec fn node_views(nodes: Map<u64, Node>) -> Map<u64, NodeView> {
    Map::new(|id: u64| nodes.contains_key(id), |id: u64| nodes[id]@)
}

impl View for State {
    type V = StateView;

    closed spec fn view(&self) -> StateView {
        StateView {
            tree: TreeView { nodes: node_views(self.nodes@), next_id: self.next_id },
            tries: self.tries@.map_values(|c: CachedTrie| c@),
            missing_repos: self.missing_repos@,
            wt_refresh: self.wt_refresh@,
            default_branches: self.default_branches@.map_values(|s: String| s@),
            foreign: self.foreign@.map_values(|c: CachedForeign| c@),
        }
    }
}

impl State {
    /// Every map is in order.
    pub closed spec fn sound(&self) -> bool {
        &&& forall|id: u64| #[trigger] self.nodes@.contains_key(id) ==> self.nodes@[id].children.wf()
        &&& self.tries.wf()
        &&& forall|key: (Seq<char>, Seq<char>)| #[trigger]
            self.tries@.contains_key(key) ==> self.tries@[key].trie.wf()
        &&& self.missing_repos.wf()
        &&& self.default_branches.wf()
        &&& self.foreign.wf()
        &&& forall|key: (Seq<char>, Seq<char>)| #[trigger]
            self.foreign@.contains_key(key) ==> self.foreign@[key].worktrees.wf()
    }

    /// The tree has its form.
    pub closed spec fn in_form(&self) -> bool {
        self@.tree.wf()
    }

    /// Every map is in order and the tree has its form.
    pub open spec fn wf(&self) -> bool {
        self.sound() && self.in_form()
    }

    /// The form of the tree of a state in order.
    pub proof fn lemma_wf(&self)
        requires
            self.wf(),
        ensures
            self@.tree.wf(),
    {
    }

    /// The children of every node have an order to be listed in.
    pub proof fn lemma_children_in_order(&self, id: u64)
        requires
            self.sound(),
            self@.tree.nodes.contains_key(id),
        ensures
            is_in_order(
                in_order(self@.tree.nodes[id].children.dom()),
                self@.tree.nodes[id].children.dom(),
            ),
    {
        let children = self.nodes@[id].children;
        children.lemma_names();
        assert(is_in_order(children.names(), children@.dom()));
    }

    /// The state at the start: nothing but the root.
    pub fn new(now: NfsTime) -> (r: State)
        ensures
            r.wf(),
            r@ == (StateView {
                tree: TreeView::bare_root(now),
                tries: Map::empty(),
                missing_repos: Map::empty(),
                wt_refresh: Map::empty(),
                default_branches: Map::empty(),
                foreign: Map::empty(),
            }),
    {
        let mut nodes: HashMap<u64, Node> = HashMap::new();
        nodes.insert(
            ROOT_ID,
            Node {
                parent: ROOT_ID,
                name: String::new(),
                kind: NodeKind::Root,
                children: NameMap::new(),
                mtime: now,
            },
        );
        let r = State {
            nodes,
            next_id: ROOT_ID + 1,
            tries: RepoMap::new(),
            missing_repos: RepoMap::new(),
            wt_refresh: HashMap::new(),
            default_branches: RepoMap::new(),
            foreign: RepoMap::new(),
        };
        proof {
            lemma_bare_root(now);
            assert(r.nodes@[ROOT_ID].name@ =~= Seq::<char>::empty());
            assert(r@.tree.nodes =~= TreeView::bare_root(now).nodes);
            assert(r@.tries =~= Map::empty());
            assert(r@.default_branches =~= Map::empty());
            assert(r@.foreign =~= Map::empty());
        }
        r
    }

    /// How many numbers are left for new nodes.
    pub fn ids_left(&self) -> (r: u64)
        ensures
            r == u64::MAX - self@.tree.next_id,
    {
        u64::MAX - self.next_id
    }

    /// The node with a number.
    pub fn get(&self, id: u64) -> (r: Option<&Node>)
        requires
            self.sound(),
        ensures
            match r {
                Some(n) => {
                    &&& self@.tree.nodes.contains_key(id)
                    &&& n@ == self@.tree.nodes[id]
                    &&& n.children.wf()
                },
                None => !self@.tree.nodes.contains_key(id),
            },
    {
        self.nodes.get(&id)
    }

    /// Sets the time of a directory's last change, so that clients drop cached
    /// listings.
    pub fn touch(&mut self, id: u64, now: NfsTime)
        requires
            old(self).sound(),
        ensures
            final(self).sound(),
            old(self).wf() ==> final(self).wf(),
            final(self)@ == (StateView { tree: old(self)@.tree.touched(id, now), ..old(self)@ }),
    {
        let ghost before = self@;
        match self.nodes.remove(&id) {
            Some(node) => {
                let mut n = node;
                n.mtime = now;
                self.nodes.insert(id, n);
                assert(self@.tree.nodes =~= before.tree.touched(id, now).nodes);
            },
            None => {
                assert(self@.tree.nodes =~= before.tree.nodes);
            },
        }
        proof {
            if before.tree.wf() {
                before.tree.lemma_touched(id, now);
            }
        }
    }

    /// Sets what a node represents.
    pub fn set_kind(&mut self, id: u64, kind: NodeKind)
        requires
            old(self).sound(),
        ensures
            final(self).sound(),
            old(self).wf() && id != ROOT_ID ==> final(self).wf(),
            final(self)@ == (StateView { tree: old(self)@.tree.with_kind(id, kind@), ..old(self)@ }),
    {
        let ghost before = self@;
        let ghost k = kind@;
        match self.nodes.remove(&id) {
            Some(node) => {
                let mut n = node;
                n.kind = kind;
                self.nodes.insert(id, n);
                assert(self@.tree.nodes =~= before.tree.with_kind(id, k).nodes);
            },
            None => {
                assert(self@.tree.nodes =~= before.tree.nodes);
            },
        }
        proof {
            if before.tree.wf() && id != ROOT_ID {
                before.tree.lemma_with_kind(id, k);
            }
        }
    }

    /// Adds a child and returns its number. A child of that name that is
    /// there stays as it is. Under a parent whose number was handed out the
    /// tree keeps its form.
    pub fn add_child(&mut self, parent: u64, name: &str, kind: NodeKind, now: NfsTime) -> (r: u64)
        requires
            old(self).sound(),
            old(self)@.tree.next_id < u64::MAX,
        ensures
            final(self).sound(),
            old(self).wf() && parent < old(self)@.tree.next_id ==> final(self).wf(),
            r == old(self)@.tree.child_id(parent, name@),
            final(self)@ == (StateView {
                tree: old(self)@.tree.with_child(parent, name@, kind@, now),
                ..old(self)@
            }),
    {
        let ghost before = self@;
        let ghost k = kind@;
        proof {
            if before.tree.wf() && parent < before.tree.next_id {
                before.tree.lemma_with_child(parent, name@, k, now);
            }
        }
        match self.child(parent, name) {
            Some(existing) => {
                return existing;
            },
            None => {},
        }
        let id: u64 = self.next_id;
        self.next_id = id + 1;
        self.nodes.insert(
            id,
            Node { parent, name: name.to_owned(), kind, children: NameMap::new(), mtime: now },
        );
        match self.nodes.remove(&parent) {
            Some(node) => {
                let mut p = node;
                p.children.insert(name.to_owned(), id);
                p.mtime = now;
                self.nodes.insert(parent, p);
            },
            None => {},
        }
        assert(self@.tree.nodes =~= before.tree.with_child(parent, name@, k, now).nodes);
        id
    }

    /// Unlinks `name` from `parent` and drops the node. Nodes below it keep
    /// their numbers but are out of reach.
    pub fn remove_child(&mut self, parent: u64, name: &str, now: NfsTime)
        requires
            old(self).sound(),
        ensures
            final(self).sound(),
            old(self).wf() ==> final(self).wf(),
            final(self)@ == (StateView {
                tree: old(self)@.tree.without_child(parent, name@, now),
                ..old(self)@
            }),
    {
        let ghost before = self@;
        proof {
            if before.tree.wf() {
                before.tree.lemma_without_child(parent, name@, now);
            }
        }
        match self.nodes.remove(&parent) {
            Some(node) => {
                let mut p = node;
                let removed = p.children.remove(name);
                if removed.is_some() {
                    p.mtime = now;
                }
                self.nodes.insert(parent, p);
                if let Some(id) = removed {
                    self.nodes.remove(&id);
                }
                assert(self@.tree.nodes =~= before.tree.without_child(parent, name@, now).nodes);
            },
            None => {
                assert(self@.tree.nodes =~= before.tree.nodes);
            },
        }
    }

    /// The child of a node that has a name.
    pub fn child(&self, id: u64, name: &str) -> (r: Option<u64>)
        requires
            self.sound(),
        ensures
            r == self@.tree.child(id, name@),
    {
        match self.nodes.get(&id) {
            Some(n) => match n.children.get(name) {
                Some(child) => Some(*child),
                None => None,
            },
            None => None,
        }
    }

    /// Climbs from a node as far as the way leads: where it ends, and the
    /// names that it passes, the topmost last. None where it never ends.
    fn climb(&self, id: u64, way: Way) -> (r: Option<(u64, Vec<String>)>)
        requires
            self.sound(),
        ensures
            match r {
                Some((top, rev)) => {
                    &&& self@.tree.top(id, way) == Some(top)
                    &&& self@.tree.trail(id, way) == strings(rev@).reverse()
                },
                None => self@.tree.top(id, way) is None,
            },
    {
        let ghost tree = self@.tree;
        let mut rev: Vec<String> = Vec::new();
        let mut cur: u64 = id;
        let mut left: u64 = self.next_id;
        assert(tree.trail(id, way) =~= tree.trail_within(cur, way, left as nat) + strings(
            rev@,
        ).reverse());
        loop
            invariant
                self.sound(),
                tree == self@.tree,
                tree.top(id, way) == tree.top_within(cur, way, left as nat),
                tree.trail(id, way) == tree.trail_within(cur, way, left as nat) + strings(
                    rev@,
                ).reverse(),
            decreases left,
        {
            let node = match self.nodes.get(&cur) {
                Some(node) => node,
                None => {
                    assert(tree.trail(id, way) =~= strings(rev@).reverse());
                    return Some((cur, rev));
                },
            };
            assert(tree.nodes[cur] == node@);
            let leads_on = match &node.kind {
                NodeKind::Disk => match way {
                    Way::Files => true,
                    Way::Segments => false,
                },
                NodeKind::RefPath | NodeKind::Worktree { .. } => match way {
                    Way::Files => false,
                    Way::Segments => true,
                },
                _ => false,
            };
            if !leads_on {
                assert(tree.trail(id, way) =~= strings(rev@).reverse());
                return Some((cur, rev));
            }
            if left == 0 {
                return None;
            }
            let ghost passed = strings(rev@);
            let ghost above = tree.trail_within(node.parent, way, (left - 1) as nat);
            rev.push(node.name.clone());
            proof {
                assert(strings(rev@) =~= passed.push(node.name@));
                assert(above.push(node.name@) + passed.reverse() =~= above + strings(
                    rev@,
                ).reverse());
            }
            cur = node.parent;
            left = left - 1;
        }
    }

    /// The worktree root node that contains `id`, or `id` itself.
    pub fn worktree_root(&self, id: u64) -> (r: Option<u64>)
        requires
            self.sound(),
        ensures
            r == self@.tree.worktree_root(id),
    {
        let top: u64 = match self.climb(id, Way::Files) {
            Some((top, _)) => top,
            None => {
                return None;
            },
        };
        match self.nodes.get(&top) {
            Some(node) => match &node.kind {
                NodeKind::Worktree { .. } => Some(top),
                _ => None,
            },
            None => None,
        }
    }

    /// Real on-disk path of a worktree or of something inside it.
    pub fn disk_path(&self, id: u64) -> (r: Option<FsPath>)
        requires
            self.sound(),
        ensures
            match r {
                Some(p) => self@.tree.disk_path(id) == Some(p@),
                None => self@.tree.disk_path(id) is None,
            },
    {
        let (top, rev): (u64, Vec<String>) = match self.climb(id, Way::Files) {
            Some(end) => end,
            None => {
                return None;
            },
        };
        let root = match self.nodes.get(&top) {
            Some(node) => match &node.kind {
                NodeKind::Worktree { root } => root,
                _ => {
                    return None;
                },
            },
            None => {
                return None;
            },
        };
        let ghost names = self@.tree.trail(id, Way::Files);
        let mut p = root.clone();
        let mut i: usize = rev.len();
        assert(names.take(0) =~= Seq::empty());
        while i > 0
            invariant
                i <= rev@.len(),
                names == strings(rev@).reverse(),
                p@ == path_join_all(root@, names.take(rev@.len() - i)),
            decreases i,
        {
            i = i - 1;
            proof {
                let longer = names.take(rev@.len() - i);
                assert(longer.last() == rev@[i as int]@);
                assert(longer.drop_last() =~= names.take(rev@.len() - i - 1));
            }
            p = p.join(rev[i].as_str());
        }
        assert(names.take(rev@.len() as int) =~= names);
        Some(p)
    }

    /// For nodes in the `refs` subtree: the repository and the segments of the
    /// branch name so far.
    pub fn refs_context(&self, id: u64) -> (r: Option<RefsContext>)
        requires
            self.sound(),
        ensures
            match r {
                Some(c) => self@.tree.refs_context(id) == Some(c@),
                None => self@.tree.refs_context(id) is None,
            },
    {
        let ghost tree = self@.tree;
        let (top, rev): (u64, Vec<String>) = match self.climb(id, Way::Segments) {
            Some(end) => end,
            None => {
                return None;
            },
        };
        let repo: u64 = match self.nodes.get(&top) {
            Some(node) => match &node.kind {
                NodeKind::RefsRoot => node.parent,
                _ => {
                    return None;
                },
            },
            None => {
                return None;
            },
        };
        let repo_node = match self.nodes.get(&repo) {
            Some(n) => n,
            None => {
                return None;
            },
        };
        assert(tree.nodes[repo] == repo_node@);
        let org_node = match self.nodes.get(&repo_node.parent) {
            Some(n) => n,
            None => {
                return None;
            },
        };
        assert(tree.nodes[repo_node.parent] == org_node@);
        let mut segs: Vec<String> = Vec::new();
        let mut i: usize = rev.len();
        while i > 0
            invariant
                i <= rev@.len(),
                segs@.len() == rev@.len() - i,
                forall|j: int|
                    0 <= j < segs@.len() ==> (#[trigger] segs@[j])@ == rev@[rev@.len() - 1 - j]@,
            decreases i,
        {
            i = i - 1;
            segs.push(rev[i].clone());
        }
        assert(strings(segs@) =~= strings(rev@).reverse());
        Some(RefsContext { org: org_node.name.clone(), repo: repo_node.name.clone(), segs })
    }
}

impl State {
    /// The numbers of all nodes.
    fn ids(&self) -> (r: Vec<u64>)
        requires
            self.wf(),
        ensures
            forall|id: u64| r@.contains(id) <==> self@.tree.nodes.contains_key(id),
    {
        let mut out: Vec<u64> = Vec::new();
        for id in it: self.nodes.keys()
            invariant
                out@ == it.seq().take(it.index() as int).unref(),
        {
            out.push(*id);
            assert(out@ =~= it.seq().take(it.index() + 1).unref());
        }
        proof {
            let keys = self.nodes.keys().remaining().unref();
            assert(out@ =~= keys);
            assert forall|id: u64| out@.contains(id) <==> self@.tree.nodes.contains_key(id) by {
                assert(keys.to_set().contains(id) <==> keys.contains(id));
            }
        }
        out
    }

    /// Has clients drop cached listings of every virtual directory in a
    /// repository's `refs` subtree.
    pub fn touch_refs_subtree(&mut self, org: &str, repo: &str, now: NfsTime)
        requires
            old(self).wf(),
        ensures
            final(self).wf(),
            final(self)@ == (StateView {
                tree: old(self)@.tree.refs_touched(org@, repo@, now),
                ..old(self)@
            }),
    {
        let ghost before = self@;
        let ids = self.ids();
        let mut hit: Vec<u64> = Vec::new();
        let mut i: usize = 0;
        while i < ids.len()
            invariant
                self.wf(),
                self@ == before,
                i <= ids@.len(),
                forall|id: u64| hit@.contains(id) <==> ids@.take(i as int).contains(id) && before.tree.in_refs(
                    id,
                    org@,
                    repo@,
                ),
            decreases ids@.len() - i,
        {
            let id = ids[i];
            let ghost old_hit = hit@;
            let virtual_dir = match self.nodes.get(&id) {
                Some(n) => match &n.kind {
                    NodeKind::RefsRoot | NodeKind::RefPath => true,
                    _ => false,
                },
                None => false,
            };
            if virtual_dir {
                match self.refs_context(id) {
                    Some(c) => {
                        if same(c.org.as_str(), org) && same(c.repo.as_str(), repo) {
                            hit.push(id);
                        }
                    },
                    None => {},
                }
            }
            proof {
                assert(ids@.take(i + 1) =~= ids@.take(i as int).push(id));
                let adds = before.tree.in_refs(id, org@, repo@);
                assert(hit@ == if adds {
                    old_hit.push(id)
                } else {
                    old_hit
                });
                assert forall|x: u64| hit@.contains(x) <==> ids@.take(i + 1).contains(x) && before.tree.in_refs(
                    x,
                    org@,
                    repo@,
                ) by {
                    lemma_push_contains(old_hit, id, x);
                    lemma_push_contains(ids@.take(i as int), id, x);
                }
            }
            i = i + 1;
        }
        assert(ids@.take(ids@.len() as int) =~= ids@);
        let ghost want = before.tree.refs_touched(org@, repo@, now);
        let mut k: usize = 0;
        while k < hit.len()
            invariant
                self.wf(),
                k <= hit@.len(),
                self@ == (StateView { tree: self@.tree, ..before }),
                self@.tree.next_id == before.tree.next_id,
                self@.tree.nodes.dom() == before.tree.nodes.dom(),
                forall|id: u64| #[trigger]
                    before.tree.nodes.contains_key(id) ==> self@.tree.nodes[id] == if hit@.take(
                        k as int,
                    ).contains(id) {
                        NodeView { mtime: now, ..before.tree.nodes[id] }
                    } else {
                        before.tree.nodes[id]
                    },
            decreases hit@.len() - k,
        {
            let ghost tree = self@.tree;
            let id = hit[k];
            self.touch(id, now);
            proof {
                assert(hit@.take(k + 1) =~= hit@.take(k as int).push(id));
                assert(self@.tree.nodes.dom() =~= before.tree.nodes.dom());
                assert forall|x: u64| #[trigger] before.tree.nodes.contains_key(x) implies self@.tree.nodes[x]
                    == if hit@.take(k + 1).contains(x) {
                    NodeView { mtime: now, ..before.tree.nodes[x] }
                } else {
                    before.tree.nodes[x]
                } by {
                    lemma_push_contains(hit@.take(k as int), id, x);
                }
            }
            k = k + 1;
        }
        proof {
            assert(hit@.take(hit@.len() as int) =~= hit@);
            assert(self@.tree.nodes =~= want.nodes);
        }
    }

    /// Records a rename: drops what it overwrote, and hangs what it moved in
    /// its new place. Under a directory whose number was handed out the tree
    /// keeps its form.
    pub fn rename_child(
        &mut self,
        from: u64,
        from_name: &str,
        to: u64,
        to_name: &str,
        now: NfsTime,
    )
        requires
            old(self).sound(),
        ensures
            final(self).sound(),
            old(self).wf() && to < old(self)@.tree.next_id ==> final(self).wf(),
            final(self)@ == (StateView {
                tree: old(self)@.tree.renamed(from, from_name@, to, to_name@, now),
                ..old(self)@
            }),
    {
        proof {
            if self.wf() && to < self@.tree.next_id {
                self@.tree.lemma_renamed(from, from_name@, to, to_name@, now);
            }
        }
        self.remove_child(to, to_name, now);
        let ghost before = self@;
        let moved: Option<u64> = match self.nodes.remove(&from) {
            Some(node) => {
                let mut p = node;
                let found = p.children.remove(from_name);
                self.nodes.insert(from, p);
                found
            },
            None => None,
        };
        match moved {
            Some(id) => {
                match self.nodes.remove(&id) {
                    Some(node) => {
                        let mut n = node;
                        n.parent = to;
                        n.name = to_name.to_owned();
                        self.nodes.insert(id, n);
                    },
                    None => {},
                }
                match self.nodes.remove(&to) {
                    Some(node) => {
                        let mut t = node;
                        t.children.insert(to_name.to_owned(), id);
                        self.nodes.insert(to, t);
                    },
                    None => {},
                }
                assert(self@.tree.nodes =~= before.tree.relinked(
                    from,
                    from_name@,
                    to,
                    to_name@,
                ).nodes);
            },
            None => {
                assert(self@.tree.nodes =~= before.tree.nodes);
            },
        }
    }

    /// The cached branch listing of a repository.
    pub fn trie(&self, org: &str, repo: &str) -> (r: Option<CachedTrie>)
        requires
            self.sound(),
        ensures
            match r {
                Some(c) => {
                    &&& self@.tries.contains_key((org@, repo@))
                    &&& c@ == self@.tries[(org@, repo@)]
                    &&& c.trie.wf()
                },
                None => !self@.tries.contains_key((org@, repo@)),
            },
    {
        match self.tries.get(org, repo) {
            Some(c) => Some(CachedTrie { trie: c.trie.clone(), fetched: c.fetched }),
            None => None,
        }
    }

    /// Caches the branch listing of a repository.
    pub fn put_trie(&mut self, org: &str, repo: &str, trie: Arc<BranchTrie>, now: u128)
        requires
            old(self).sound(),
            trie.wf(),
        ensures
            final(self).sound(),
            old(self).wf() ==> final(self).wf(),
            final(self)@ == (StateView {
                tries: old(self)@.tries.insert(
                    (org@, repo@),
                    ListingView { branches: (*trie)@, fetched: now },
                ),
                ..old(self)@
            }),
    {
        let ghost before = self@;
        let ghost listing = ListingView { branches: (*trie)@, fetched: now };
        self.tries.insert(org, repo, CachedTrie { trie, fetched: now });
        assert(self@.tries =~= before.tries.insert((org@, repo@), listing));
    }

    /// Forgets the branch listing of a repository.
    pub fn drop_trie(&mut self, org: &str, repo: &str)
        requires
            old(self).sound(),
        ensures
            final(self).sound(),
            old(self).wf() ==> final(self).wf(),
            final(self)@ == (StateView {
                tries: old(self)@.tries.remove((org@, repo@)),
                ..old(self)@
            }),
    {
        let ghost before = self@;
        self.tries.remove(org, repo);
        assert(self@.tries =~= before.tries.remove((org@, repo@)));
    }

    /// Since when a repository is known to be missing.
    pub fn missing_since(&self, org: &str, repo: &str) -> (r: Option<u128>)
        requires
            self.sound(),
        ensures
            match r {
                Some(when) => self@.missing_repos.contains_key((org@, repo@)) && when
                    == self@.missing_repos[(org@, repo@)],
                None => !self@.missing_repos.contains_key((org@, repo@)),
            },
    {
        match self.missing_repos.get(org, repo) {
            Some(when) => Some(*when),
            None => None,
        }
    }

    /// Notes that a repository is missing.
    pub fn note_missing(&mut self, org: &str, repo: &str, now: u128)
        requires
            old(self).sound(),
        ensures
            final(self).sound(),
            old(self).wf() ==> final(self).wf(),
            final(self)@ == (StateView {
                missing_repos: old(self)@.missing_repos.insert((org@, repo@), now),
                ..old(self)@
            }),
    {
        self.missing_repos.insert(org, repo, now);
    }

    /// Forgets that a repository was missing.
    pub fn forget_missing(&mut self, org: &str, repo: &str)
        requires
            old(self).sound(),
        ensures
            final(self).sound(),
            old(self).wf() ==> final(self).wf(),
            final(self)@ == (StateView {
                missing_repos: old(self)@.missing_repos.remove((org@, repo@)),
                ..old(self)@
            }),
    {
        self.missing_repos.remove(org, repo);
    }

    /// When a worktree was last refreshed.
    pub fn refreshed_at(&self, id: u64) -> (r: Option<u128>)
        ensures
            match r {
                Some(when) => self@.wt_refresh.contains_key(id) && when == self@.wt_refresh[id],
                None => !self@.wt_refresh.contains_key(id),
            },
    {
        match self.wt_refresh.get(&id) {
            Some(when) => Some(*when),
            None => None,
        }
    }

    /// Notes that a worktree is being refreshed.
    pub fn note_refresh(&mut self, id: u64, now: u128)
        requires
            old(self).sound(),
        ensures
            final(self).sound(),
            old(self).wf() ==> final(self).wf(),
            final(self)@ == (StateView {
                wt_refresh: old(self)@.wt_refresh.insert(id, now),
                ..old(self)@
            }),
    {
        self.wt_refresh.insert(id, now);
    }

    /// Forgets when a worktree was refreshed.
    pub fn forget_refresh(&mut self, id: u64)
        requires
            old(self).sound(),
        ensures
            final(self).sound(),
            old(self).wf() ==> final(self).wf(),
            final(self)@ == (StateView {
                wt_refresh: old(self)@.wt_refresh.remove(id),
                ..old(self)@
            }),
    {
        self.wt_refresh.remove(&id);
    }

    /// The default branch of a repository, where it is known.
    pub fn default_branch(&self, org: &str, repo: &str) -> (r: Option<String>)
        requires
            self.sound(),
        ensures
            match r {
                Some(name) => self@.default_branches.contains_key((org@, repo@)) && name@
                    == self@.default_branches[(org@, repo@)],
                None => !self@.default_branches.contains_key((org@, repo@)),
            },
    {
        match self.default_branches.get(org, repo) {
            Some(name) => Some(name.clone()),
            None => None,
        }
    }

    /// Remembers the default branch of a repository.
    pub fn put_default_branch(&mut self, org: &str, repo: &str, name: &str)
        requires
            old(self).sound(),
        ensures
            final(self).sound(),
            old(self).wf() ==> final(self).wf(),
            final(self)@ == (StateView {
                default_branches: old(self)@.default_branches.insert((org@, repo@), name@),
                ..old(self)@
            }),
    {
        let ghost before = self@;
        self.default_branches.insert(org, repo, name.to_owned());
        assert(self@.default_branches =~= before.default_branches.insert((org@, repo@), name@));
    }

    /// The cached worktrees of a repository that live elsewhere.
    pub fn foreign(&self, org: &str, repo: &str) -> (r: Option<&CachedForeign>)
        requires
            self.sound(),
        ensures
            match r {
                Some(c) => {
                    &&& self@.foreign.contains_key((org@, repo@))
                    &&& c@ == self@.foreign[(org@, repo@)]
                    &&& c.worktrees.wf()
                },
                None => !self@.foreign.contains_key((org@, repo@)),
            },
    {
        self.foreign.get(org, repo)
    }

    /// Caches the worktrees of a repository that live elsewhere.
    pub fn put_foreign(&mut self, org: &str, repo: &str, worktrees: NameMap<FsPath>, now: u128)
        requires
            old(self).sound(),
            worktrees.wf(),
        ensures
            final(self).sound(),
            old(self).wf() ==> final(self).wf(),
            final(self)@ == (StateView {
                foreign: old(self)@.foreign.insert(
                    (org@, repo@),
                    ForeignView { worktrees: directories(worktrees@), listed: now },
                ),
                ..old(self)@
            }),
    {
        let ghost before = self@;
        let ghost listing = ForeignView { worktrees: directories(worktrees@), listed: now };
        self.foreign.insert(org, repo, CachedForeign { worktrees, listed: now });
        assert(self@.foreign =~= before.foreign.insert((org@, repo@), listing));
    }

    /// Forgets the worktrees of a repository that live elsewhere.
    pub fn drop_foreign(&mut self, org: &str, repo: &str)
        requires
            old(self).sound(),
        ensures
            final(self).sound(),
            old(self).wf() ==> final(self).wf(),
            final(self)@ == (StateView {
                foreign: old(self)@.foreign.remove((org@, repo@)),
                ..old(self)@
            }),
    {
        let ghost before = self@;
        self.foreign.remove(org, repo);
        assert(self@.foreign =~= before.foreign.remove((org@, repo@)));
    }
}

proof fn lemma_push_contains(s: Seq<u64>, a: u64, x: u64)
    ensures
        s.push(a).contains(x) <==> s.contains(x) || x == a,
{
    if s.contains(x) {
        let i = choose|i: int| 0 <= i < s.len() && s[i] == x;
        assert(s.push(a)[i] == x);
    }
    assert(s.push(a)[s.len() as int] == a);
}

} // verus!
