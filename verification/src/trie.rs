//! The trie over branch names that turns git's hierarchical ref namespace
//! into directories.

use crate::names::{lemma_ascending_same, lemma_filter_all, NameMap};
use crate::text::{
    join, lemma_split_concat, lemma_split_join, same, split, split_all, strings, texts,
};
use vstd::prelude::*;
use vstd::string::*;

verus! {

/// A trie over `/`-separated branch names.
///
/// `main`, `feature/foo` and `feature/bar` coexist, and the trie mirrors that
/// namespace, so that it can be browsed as nested directories.
#[derive(Debug)]
pub struct BranchTrie {
    root: TrieNode,
}

#[derive(Debug)]
pub struct TrieNode {
    /// The next steps, each with the index of its node in `nodes`.
    pub children: NameMap<usize>,
    pub nodes: Vec<TrieNode>,
    /// True if the path from the root to this node is a complete branch name.
    pub is_branch: bool,
}

/// The steps of a branch name: its non-empty pieces between slashes.
pub open spec fn branch_steps(branch: Seq<char>) -> Seq<Seq<char>> {
    split(branch, '/').filter(|piece: Seq<char>| piece.len() > 0)
}

/// Whether `path` leads towards one of the branches.
pub open spec fn is_ref_path(branches: Set<Seq<Seq<char>>>, path: Seq<Seq<char>>) -> bool {
    path.len() == 0 || exists|b: Seq<Seq<char>>| #[trigger] branches.contains(b) && path.is_prefix_of(b)
}

/// Whether `name` is the next step after `path` of one of the branches.
pub open spec fn is_next_step(
    branches: Set<Seq<Seq<char>>>,
    path: Seq<Seq<char>>,
    name: Seq<char>,
) -> bool {
    exists|b: Seq<Seq<char>>| #[trigger] branches.contains(b) && path.push(name).is_prefix_of(b)
}

impl TrieNode {
    /// The node one step further.
    pub open spec fn child(&self, name: Seq<char>) -> TrieNode {
        self.nodes@[self.children@[name] as int]
    }

    /// Whether `path` leads from here to the end of a branch name.
    pub open spec fn holds(&self, path: Seq<Seq<char>>) -> bool
        decreases path.len(),
    {
        if path.len() == 0 {
            self.is_branch
        } else {
            self.children@.contains_key(path[0]) && self.child(path[0]).holds(path.drop_first())
        }
    }

    /// The node that `path` leads to from here.
    pub open spec fn reach(&self, path: Seq<Seq<char>>) -> Option<TrieNode>
        decreases path.len(),
    {
        if path.len() == 0 {
            Some(*self)
        } else if self.children@.contains_key(path[0]) {
            self.child(path[0]).reach(path.drop_first())
        } else {
            None
        }
    }

    /// Whether the node ends a branch name or leads on to one.
    pub open spec fn leads_on(&self) -> bool {
        self.is_branch || self.children.keys@.len() > 0
    }

    /// Every step has a node of its own, and below the node nothing is a dead
    /// end.
    pub open spec fn wf(&self) -> bool
        decreases self,
    {
        &&& self.children.wf()
        &&& forall|name: Seq<char>| #[trigger]
            self.children@.contains_key(name) ==> self.children@[name] < self.nodes@.len()
        &&& forall|a: Seq<char>, b: Seq<char>| #[trigger]
            self.children@.contains_key(a) && #[trigger] self.children@.contains_key(b)
                && self.children@[a] == self.children@[b] ==> a == b
        &&& forall|i: int|
            0 <= i < self.nodes@.len() ==> (#[trigger] self.nodes@[i]).wf()
                && self.nodes@[i].leads_on()
    }

    /// A node without children that ends no branch name.
    pub fn new() -> (r: TrieNode)
        ensures
            r.wf(),
            !r.is_branch,
            r.children@ == Map::<Seq<char>, usize>::empty(),
            forall|path: Seq<Seq<char>>| !r.holds(path),
    {
        TrieNode { children: NameMap::new(), nodes: Vec::new(), is_branch: false }
    }

    /// Marks the path `steps[from..]` as a branch name.
    fn insert_steps(&mut self, steps: &Vec<&str>, from: usize)
        requires
            old(self).wf(),
            from <= steps@.len(),
        ensures
            final(self).wf(),
            final(self).leads_on(),
            forall|path: Seq<Seq<char>>| #[trigger]
                final(self).holds(path) <==> old(self).holds(path) || path == texts(steps@).skip(
                    from as int,
                ),
        decreases steps@.len() - from,
    {
        let ghost before = *self;
        let ghost target = texts(steps@).skip(from as int);
        if from == steps.len() {
            self.is_branch = true;
            proof {
                assert(target =~= Seq::<Seq<char>>::empty());
                assert forall|path: Seq<Seq<char>>| #[trigger]
                    self.holds(path) <==> before.holds(path) || path == target by {
                    if path.len() == 0 {
                        assert(path =~= target);
                    }
                }
            }
            return;
        }
        let step = steps[from];
        let ghost name = step@;
        let ghost rest = texts(steps@).skip(from + 1);
        proof {
            assert(target[0] == name);
            assert(target.drop_first() =~= rest);
        }
        match self.children.get(step) {
            Some(index) => {
                let i: usize = *index;
                let ghost old_child = self.nodes@[i as int];
                let node = &mut self.nodes[i];
                node.insert_steps(steps, from + 1);
                proof {
                    self.children.lemma_position(name);
                    assert forall|path: Seq<Seq<char>>| #[trigger]
                        self.holds(path) <==> before.holds(path) || path == target by {
                        if path.len() > 0 && self.children@.contains_key(path[0]) {
                            if path[0] == name {
                                assert(self.child(name).holds(path.drop_first())
                                    <==> old_child.holds(path.drop_first()) || path.drop_first()
                                    == rest);
                                if path.drop_first() == rest {
                                    assert(path =~= seq![name] + rest);
                                    assert(target =~= seq![name] + rest);
                                }
                            } else {
                                assert(self.child(path[0]) == before.child(path[0]));
                            }
                        }
                    }
                }
            },
            None => {
                let mut node = TrieNode::new();
                node.insert_steps(steps, from + 1);
                let i: usize = self.nodes.len();
                self.children.insert(step.to_owned(), i);
                self.nodes.push(node);
                proof {
                    self.children.lemma_position(name);
                    assert forall|path: Seq<Seq<char>>| #[trigger]
                        self.holds(path) <==> before.holds(path) || path == target by {
                        if path.len() > 0 && self.children@.contains_key(path[0]) {
                            if path[0] == name {
                                assert(self.child(name) == node);
                                assert(node.holds(path.drop_first()) <==> path.drop_first() == rest);
                                if path.drop_first() == rest {
                                    assert(path =~= seq![name] + rest);
                                    assert(target =~= seq![name] + rest);
                                }
                            } else {
                                assert(self.child(path[0]) == before.child(path[0]));
                            }
                        }
                    }
                }
            },
        }
    }
}

impl TrieNode {
    /// A node that leads on leads to the end of a branch name.
    proof fn lemma_leads_on(&self) -> (path: Seq<Seq<char>>)
        requires
            self.wf(),
            self.leads_on(),
        ensures
            self.holds(path),
        decreases self,
    {
        if self.is_branch {
            Seq::empty()
        } else {
            self.children.lemma_at(0);
            let name = self.children.keys@[0]@;
            assert(self.children@.contains_key(name));
            let i = self.children@[name] as int;
            assert(self.nodes@[i].wf());
            let rest = self.nodes@[i].lemma_leads_on();
            let path = seq![name] + rest;
            assert(path.drop_first() =~= rest);
            path
        }
    }

    /// What lies beyond a path is what lies beyond the node it leads to.
    proof fn lemma_reach(&self, path: Seq<Seq<char>>, rest: Seq<Seq<char>>)
        requires
            self.wf(),
        ensures
            match self.reach(path) {
                Some(n) => {
                    &&& n.wf()
                    &&& path.len() > 0 ==> n.leads_on()
                    &&& self.holds(path + rest) == n.holds(rest)
                },
                None => path.len() > 0 && !self.holds(path + rest),
            },
        decreases path.len(),
    {
        if path.len() == 0 {
            assert(path + rest =~= rest);
        } else {
            assert((path + rest).drop_first() =~= path.drop_first() + rest);
            if self.children@.contains_key(path[0]) {
                let child = self.child(path[0]);
                assert(self.nodes@[self.children@[path[0]] as int].wf());
                child.lemma_reach(path.drop_first(), rest);
            }
        }
    }

    /// The nodes of the trie are the paths that lead towards a branch.
    proof fn lemma_reach_meaning(&self, branches: Set<Seq<Seq<char>>>, path: Seq<Seq<char>>)
        requires
            self.wf(),
            forall|p: Seq<Seq<char>>| #[trigger] branches.contains(p) == self.holds(p),
        ensures
            self.reach(path) is Some <==> is_ref_path(branches, path),
            match self.reach(path) {
                Some(n) => {
                    &&& n.wf()
                    &&& n.is_branch == branches.contains(path)
                    &&& forall|name: Seq<char>| #[trigger]
                        n.children@.contains_key(name) <==> is_next_step(branches, path, name)
                    &&& forall|rest: Seq<Seq<char>>| #[trigger]
                        n.holds(rest) <==> branches.contains(path + rest)
                },
                None => !branches.contains(path),
            },
    {
        let none = Seq::<Seq<char>>::empty();
        self.lemma_reach(path, none);
        assert(path + none =~= path);
        match self.reach(path) {
            Some(n) => {
                if path.len() > 0 {
                    let rest = n.lemma_leads_on();
                    self.lemma_reach(path, rest);
                    assert(branches.contains(path + rest));
                    assert(path =~= (path + rest).subrange(0, path.len() as int));
                }
                assert forall|rest: Seq<Seq<char>>| #[trigger]
                    n.holds(rest) <==> branches.contains(path + rest) by {
                    self.lemma_reach(path, rest);
                }
                assert forall|name: Seq<char>| #[trigger]
                    n.children@.contains_key(name) <==> is_next_step(branches, path, name) by {
                    let longer = path.push(name);
                    if n.children@.contains_key(name) {
                        let child = n.child(name);
                        assert(n.nodes@[n.children@[name] as int].wf());
                        let rest = child.lemma_leads_on();
                        let tail = seq![name] + rest;
                        assert(tail.drop_first() =~= rest);
                        assert(n.holds(tail));
                        self.lemma_reach(path, tail);
                        assert(branches.contains(path + tail));
                        assert(longer =~= (path + tail).subrange(0, longer.len() as int));
                    }
                    if is_next_step(branches, path, name) {
                        let b = choose|b: Seq<Seq<char>>| #[trigger] branches.contains(b) && longer.is_prefix_of(b);
                        let tail = b.subrange(path.len() as int, b.len() as int);
                        assert(longer.len() <= b.len());
                        assert(longer[path.len() as int] == b.subrange(0, longer.len() as int)[path.len() as int]);
                        assert(tail[0] == name);
                        assert forall|i: int| 0 <= i < path.len() implies path[i] == b[i] by {
                            assert(longer[i] == b.subrange(0, longer.len() as int)[i]);
                        }
                        assert(path + tail =~= b);
                        self.lemma_reach(path, tail);
                        assert(n.holds(tail));
                    }
                }
            },
            None => {
                if is_ref_path(branches, path) {
                    let b = choose|b: Seq<Seq<char>>| #[trigger] branches.contains(b) && path.is_prefix_of(b);
                    let rest = b.subrange(path.len() as int, b.len() as int);
                    assert(path + rest =~= b);
                    self.lemma_reach(path, rest);
                }
            },
        }
    }

    /// Whether both nodes lead to the same branch names.
    fn same_branches(&self, other: &TrieNode) -> (r: bool)
        requires
            self.wf(),
            other.wf(),
        ensures
            r == forall|path: Seq<Seq<char>>| #[trigger] self.holds(path) == other.holds(path),
        decreases self,
    {
        let none = Ghost(Seq::<Seq<char>>::empty());
        if self.is_branch != other.is_branch {
            assert(self.holds(none@) != other.holds(none@));
            return false;
        }
        let n = self.children.keys.len();
        if n != other.children.keys.len() {
            proof {
                self.lemma_different_steps(other);
            }
            return false;
        }
        let mut i: usize = 0;
        while i < n
            invariant
                self.wf(),
                other.wf(),
                self.is_branch == other.is_branch,
                n == self.children.keys@.len(),
                n == other.children.keys@.len(),
                i <= n,
                forall|j: int|
                    0 <= j < i ==> (#[trigger] self.children.keys@[j])@ == other.children.keys@[j]@,
                forall|j: int, path: Seq<Seq<char>>|
                    0 <= j < i ==> self.child((#[trigger] self.children.keys@[j])@).holds(path)
                        == #[trigger] other.child(self.children.keys@[j]@).holds(path),
            decreases n - i,
        {
            if !same(self.children.keys[i].as_str(), other.children.keys[i].as_str()) {
                proof {
                    assert(self.children.names()[i as int] != other.children.names()[i as int]);
                    self.lemma_different_steps(other);
                }
                return false;
            }
            proof {
                self.children.lemma_at(i as int);
                other.children.lemma_at(i as int);
            }
            let ghost name = self.children.keys@[i as int]@;
            assert(self.children@.contains_key(name) && other.children@.contains_key(name));
            let a: usize = self.children.values[i];
            let b: usize = other.children.values[i];
            assert(self.nodes@[a as int].wf());
            assert(other.nodes@[b as int].wf());
            if !self.nodes[a].same_branches(&other.nodes[b]) {
                proof {
                    let path = choose|path: Seq<Seq<char>>|
                        #[trigger] self.nodes@[a as int].holds(path) != other.nodes@[b as int].holds(path);
                    let longer = seq![name] + path;
                    assert(longer.drop_first() =~= path);
                    assert(self.holds(longer) != other.holds(longer));
                }
                return false;
            }
            i = i + 1;
        }
        proof {
            assert(self.children.names() =~= other.children.names());
            assert forall|path: Seq<Seq<char>>| #[trigger] self.holds(path) == other.holds(path) by {
                if path.len() > 0 {
                    assert(self.children@.contains_key(path[0]) == other.children@.contains_key(path[0]));
                    if self.children@.contains_key(path[0]) {
                        self.children.lemma_position(path[0]);
                        let j = self.children.position(path[0]);
                        assert(self.children.keys@[j]@ == path[0]);
                        assert(self.child(path[0]).holds(path.drop_first()) == other.child(
                            path[0],
                        ).holds(path.drop_first()));
                    }
                }
            }
        }
        true
    }

    /// A node of its own that leads to the same branch names.
    fn duplicate(&self) -> (r: TrieNode)
        requires
            self.wf(),
        ensures
            r.wf(),
            r.leads_on() == self.leads_on(),
            r.is_branch == self.is_branch,
            r.children@ == self.children@,
            forall|path: Seq<Seq<char>>| #[trigger] r.holds(path) == self.holds(path),
        decreases self,
    {
        let mut keys: Vec<String> = Vec::new();
        let mut values: Vec<usize> = Vec::new();
        let mut i: usize = 0;
        while i < self.children.keys.len()
            invariant
                self.wf(),
                i <= self.children.keys@.len(),
                keys@.len() == i,
                values@ == self.children.values@.take(i as int),
                forall|j: int| 0 <= j < i ==> (#[trigger] keys@[j])@ == self.children.keys@[j]@,
            decreases self.children.keys@.len() - i,
        {
            keys.push(self.children.keys[i].clone());
            values.push(self.children.values[i]);
            assert(values@ =~= self.children.values@.take(i + 1));
            i = i + 1;
        }
        let mut nodes: Vec<TrieNode> = Vec::new();
        let mut k: usize = 0;
        while k < self.nodes.len()
            invariant
                self.wf(),
                k <= self.nodes@.len(),
                nodes@.len() == k,
                forall|j: int|
                    0 <= j < k ==> (#[trigger] nodes@[j]).wf() && nodes@[j].leads_on(),
                forall|j: int, path: Seq<Seq<char>>|
                    0 <= j < k ==> #[trigger] nodes@[j].holds(path) == self.nodes@[j].holds(path),
            decreases self.nodes@.len() - k,
        {
            assert(self.nodes@[k as int].wf() && self.nodes@[k as int].leads_on());
            nodes.push(self.nodes[k].duplicate());
            k = k + 1;
        }
        let children = NameMap { keys, values };
        let r = TrieNode { children, nodes, is_branch: self.is_branch };
        proof {
            assert(r.children.values@ =~= self.children.values@);
            assert(r.children.names() =~= self.children.names());
            assert(r.children@ =~= self.children@) by {
                assert forall|name: Seq<char>| r.children.position(name) == self.children.position(
                    name,
                ) by {
                    assert(r.children.names() == self.children.names());
                }
            }
            assert forall|path: Seq<Seq<char>>| #[trigger] r.holds(path) == self.holds(path) by {
                if path.len() > 0 && self.children@.contains_key(path[0]) {
                    let j = self.children@[path[0]] as int;
                    assert(r.nodes@[j].holds(path.drop_first()) == self.nodes@[j].holds(
                        path.drop_first(),
                    ));
                }
            }
        }
        r
    }

    /// Nodes with different steps lead to different branch names.
    proof fn lemma_different_steps(&self, other: &TrieNode)
        requires
            self.wf(),
            other.wf(),
            self.children.names() != other.children.names(),
        ensures
            exists|path: Seq<Seq<char>>| #[trigger] self.holds(path) != other.holds(path),
    {
        let a = self.children.names();
        let b = other.children.names();
        if forall|x: Seq<char>| a.contains(x) <==> b.contains(x) {
            lemma_ascending_same(a, b);
        }
        let x = choose|x: Seq<char>| a.contains(x) != b.contains(x);
        if a.contains(x) {
            self.lemma_own_step(other, x);
        } else {
            other.lemma_own_step(self, x);
            let path = choose|path: Seq<Seq<char>>| #[trigger] other.holds(path) != self.holds(path);
            assert(self.holds(path) != other.holds(path));
        }
    }

    proof fn lemma_own_step(&self, other: &TrieNode, name: Seq<char>)
        requires
            self.wf(),
            self.children.names().contains(name),
            !other.children.names().contains(name),
        ensures
            exists|path: Seq<Seq<char>>| #[trigger] self.holds(path) != other.holds(path),
    {
        assert(self.children@.contains_key(name));
        assert(!other.children@.contains_key(name));
        let child = self.child(name);
        assert(self.nodes@[self.children@[name] as int].wf());
        let rest = child.lemma_leads_on();
        let path = seq![name] + rest;
        assert(path.drop_first() =~= rest);
        assert(self.holds(path) != other.holds(path));
    }
}

/// The branches with the names given.
pub open spec fn branch_set(branches: Seq<Seq<char>>) -> Set<Seq<Seq<char>>> {
    Set::new(
        |path: Seq<Seq<char>>|
            exists|i: int| 0 <= i < branches.len() && path == branch_steps(#[trigger] branches[i]),
    )
}

impl View for BranchTrie {
    type V = Set<Seq<Seq<char>>>;

    closed spec fn view(&self) -> Set<Seq<Seq<char>>> {
        Set::new(|path: Seq<Seq<char>>| self.root.holds(path))
    }
}

impl Default for BranchTrie {
    fn default() -> (r: BranchTrie)
        ensures
            r.wf(),
            r@ == Set::<Seq<Seq<char>>>::empty(),
    {
        BranchTrie::new()
    }
}

impl BranchTrie {
    /// The trie has no dead ends.
    pub closed spec fn wf(&self) -> bool {
        self.root.wf()
    }

    /// The node that `path` leads to from the root.
    pub closed spec fn at(&self, path: Seq<Seq<char>>) -> Option<TrieNode> {
        self.root.reach(path)
    }

    /// The trie of no branches.
    pub fn new() -> (r: BranchTrie)
        ensures
            r.wf(),
            r@ == Set::<Seq<Seq<char>>>::empty(),
    {
        let r = BranchTrie { root: TrieNode::new() };
        assert(r@ =~= Set::<Seq<Seq<char>>>::empty());
        r
    }

    /// Adds a branch name; empty pieces between slashes do not count.
    pub fn insert(&mut self, branch: &str)
        requires
            old(self).wf(),
        ensures
            final(self).wf(),
            final(self)@ == old(self)@.insert(branch_steps(branch@)),
    {
        let pieces = split_all(branch, 47u8);
        let ghost all = split(branch@, '/');
        let ghost full = |piece: Seq<char>| piece.len() > 0;
        let mut steps: Vec<&str> = Vec::new();
        let mut i: usize = 0;
        assert(all.take(0) =~= Seq::<Seq<char>>::empty());
        assert(texts(steps@) =~= all.take(0).filter(full));
        while i < pieces.len()
            invariant
                i <= pieces@.len(),
                texts(pieces@) == all,
                full == (|piece: Seq<char>| piece.len() > 0),
                texts(steps@) == all.take(i as int).filter(full),
            decreases pieces@.len() - i,
        {
            let piece = pieces[i];
            proof {
                assert(piece@ == texts(pieces@)[i as int]);
                assert(all.take(i + 1).drop_last() =~= all.take(i as int));
                assert(all.take(i + 1).last() == piece@);
                reveal(Seq::filter);
            }
            if !piece.is_empty() {
                assert(texts(steps@.push(piece)) =~= texts(steps@).push(piece@));
                steps.push(piece);
            }
            i = i + 1;
        }
        assert(all.take(all.len() as int) =~= all);
        let ghost before = *self;
        self.root.insert_steps(&steps, 0);
        proof {
            assert(texts(steps@).skip(0) =~= texts(steps@));
            assert(self@ =~= before@.insert(branch_steps(branch@)));
        }
    }

    /// The trie of the branches named.
    pub fn from_branches(branches: &[String]) -> (r: BranchTrie)
        ensures
            r.wf(),
            r@ == branch_set(strings(branches@)),
    {
        let mut trie = BranchTrie::new();
        let ghost all = strings(branches@);
        let mut i: usize = 0;
        assert(branch_set(all.take(0)) =~= Set::<Seq<Seq<char>>>::empty());
        while i < branches.len()
            invariant
                i <= branches@.len(),
                all == strings(branches@),
                trie.wf(),
                trie@ == branch_set(all.take(i as int)),
            decreases branches@.len() - i,
        {
            trie.insert(branches[i].as_str());
            proof {
                let old_set = branch_set(all.take(i as int));
                let new_set = branch_set(all.take(i + 1));
                let steps = branch_steps(all[i as int]);
                assert forall|path: Seq<Seq<char>>| new_set.contains(path) <==> old_set.insert(
                    steps,
                ).contains(path) by {
                    if new_set.contains(path) {
                        let k = choose|k: int|
                            0 <= k < i + 1 && path == branch_steps(#[trigger] all.take(i + 1)[k]);
                        if k < i {
                            assert(all.take(i as int)[k] == all.take(i + 1)[k]);
                        }
                    }
                    if old_set.contains(path) {
                        let k = choose|k: int|
                            0 <= k < i && path == branch_steps(#[trigger] all.take(i as int)[k]);
                        assert(all.take(i as int)[k] == all.take(i + 1)[k]);
                    }
                    assert(all.take(i + 1)[i as int] == all[i as int]);
                }
                assert(new_set =~= old_set.insert(steps));
            }
            i = i + 1;
        }
        assert(all.take(all.len() as int) =~= all);
        trie
    }

    /// Walks `segments` down from the root; `None` if the path is not part of
    /// any branch name. The empty path always leads to the root.
    pub fn node(&self, segments: &[String]) -> (r: Option<&TrieNode>)
        requires
            self.wf(),
        ensures
            r is Some <==> is_ref_path(self@, strings(segments@)),
            match r {
                Some(n) => {
                    &&& self.at(strings(segments@)) == Some(*n)
                    &&& n.wf()
                    &&& n.is_branch == self@.contains(strings(segments@))
                    &&& forall|name: Seq<char>| #[trigger]
                        n.children@.contains_key(name) <==> is_next_step(
                            self@,
                            strings(segments@),
                            name,
                        )
                    &&& forall|rest: Seq<Seq<char>>| #[trigger]
                        n.holds(rest) <==> self@.contains(strings(segments@) + rest)
                },
                None => self.at(strings(segments@)) is None && !self@.contains(strings(segments@)),
            },
    {
        let ghost path = strings(segments@);
        proof {
            self.root.lemma_reach_meaning(self@, path);
            assert(path.skip(0) =~= path);
        }
        let mut node = &self.root;
        let mut i: usize = 0;
        while i < segments.len()
            invariant
                i <= segments@.len(),
                path == strings(segments@),
                node.wf(),
                self.root.reach(path) == node.reach(path.skip(i as int)),
                self.root.reach(path) is Some <==> is_ref_path(self@, path),
                self.root.reach(path) is None ==> !self@.contains(path),
            decreases segments@.len() - i,
        {
            proof {
                assert(path.skip(i as int).drop_first() =~= path.skip(i + 1));
                assert(path.skip(i as int)[0] == segments@[i as int]@);
            }
            match node.children.get(segments[i].as_str()) {
                Some(index) => {
                    let k: usize = *index;
                    assert(node.nodes@[k as int].wf());
                    node = &node.nodes[k];
                },
                None => {
                    return None;
                },
            }
            i = i + 1;
        }
        assert(node.reach(path.skip(i as int)) == Some(*node));
        Some(node)
    }

    /// Whether the trie leads nowhere: no branch name has a step.
    pub fn is_empty(&self) -> (r: bool)
        requires
            self.wf(),
        ensures
            r == forall|path: Seq<Seq<char>>| #[trigger] self@.contains(path) ==> path.len() == 0,
    {
        let r = self.root.children.is_empty();
        proof {
            if r {
                assert forall|path: Seq<Seq<char>>| #[trigger] self@.contains(path) implies path.len()
                    == 0 by {
                    assert(self.root.holds(path));
                }
            } else {
                self.root.children.lemma_at(0);
                let name = self.root.children.keys@[0]@;
                assert(self.root.children@.contains_key(name));
                let child = self.root.child(name);
                assert(self.root.nodes@[self.root.children@[name] as int].wf());
                let rest = child.lemma_leads_on();
                let path = seq![name] + rest;
                assert(path.drop_first() =~= rest);
                assert(self@.contains(path));
            }
        }
        r
    }

    /// A trie of its own that holds the same branches.
    pub fn duplicate(&self) -> (r: BranchTrie)
        requires
            self.wf(),
        ensures
            r.wf(),
            r@ == self@,
    {
        let r = BranchTrie { root: self.root.duplicate() };
        assert(r@ =~= self@);
        r
    }

    /// Whether both tries hold the same branches.
    pub fn same_branches(&self, other: &BranchTrie) -> (r: bool)
        requires
            self.wf(),
            other.wf(),
        ensures
            r == (self@ == other@),
    {
        let r = self.root.same_branches(&other.root);
        proof {
            if r {
                assert(self@ =~= other@);
            } else {
                let path = choose|path: Seq<Seq<char>>|
                    #[trigger] self.root.holds(path) != other.root.holds(path);
                assert(self@.contains(path) != other@.contains(path));
            }
        }
        r
    }
}

impl TrieNode {
    /// Walking two paths one after the other is walking both at once.
    proof fn lemma_walk(&self, path: Seq<Seq<char>>, more: Seq<Seq<char>>)
        ensures
            self.reach(path + more) == match self.reach(path) {
                Some(n) => n.reach(more),
                None => None,
            },
        decreases path.len(),
    {
        if path.len() == 0 {
            assert(path + more =~= more);
        } else {
            assert((path + more).drop_first() =~= path.drop_first() + more);
            if self.children@.contains_key(path[0]) {
                self.child(path[0]).lemma_walk(path.drop_first(), more);
            }
        }
    }
}

impl BranchTrie {
    /// The trie is walked step by step: the empty path leads to the root, one
    /// more step leads to the child of that name where there is one, and from
    /// a path that leads nowhere no longer one leads anywhere.
    pub proof fn law_walks_go_step_by_step(
        &self,
        path: Seq<Seq<char>>,
        name: Seq<char>,
        more: Seq<Seq<char>>,
    )
        ensures
            self.at(Seq::empty()) is Some,
            self.at(path.push(name)) == match self.at(path) {
                Some(n) => if n.children@.contains_key(name) {
                    Some(n.child(name))
                } else {
                    None
                },
                None => None,
            },
            self.at(path) is None ==> self.at(path + more) is None,
    {
        let one = seq![name];
        assert(path.push(name) =~= path + one);
        self.root.lemma_walk(path, one);
        assert(one.drop_first() =~= Seq::empty());
        reveal_with_fuel(TrieNode::reach, 2);
        self.root.lemma_walk(path, more);
    }
}

/// Only which branches are named matters, not their order or how often.
pub proof fn law_branch_order_is_irrelevant(a: Seq<Seq<char>>, b: Seq<Seq<char>>)
    requires
        forall|name: Seq<char>| a.contains(name) <==> b.contains(name),
    ensures
        branch_set(a) == branch_set(b),
{
    assert forall|path: Seq<Seq<char>>| branch_set(a).contains(path) == branch_set(b).contains(path) by {
        if branch_set(a).contains(path) {
            let i = choose|i: int| 0 <= i < a.len() && path == branch_steps(#[trigger] a[i]);
            assert(a.contains(a[i]));
            let j = choose|j: int| 0 <= j < b.len() && b[j] == a[i];
            assert(path == branch_steps(b[j]));
        }
        if branch_set(b).contains(path) {
            let i = choose|i: int| 0 <= i < b.len() && path == branch_steps(#[trigger] b[i]);
            assert(b.contains(b[i]));
            let j = choose|j: int| 0 <= j < a.len() && a[j] == b[i];
            assert(path == branch_steps(a[j]));
        }
    }
    assert(branch_set(a) =~= branch_set(b));
}

/// The steps of a name with a slash in it are those before and those after
/// the slash; so slashes at either end, and doubled ones, add nothing.
pub proof fn law_steps_concatenate(a: Seq<char>, b: Seq<char>)
    ensures
        branch_steps(a + seq!['/'] + b) == branch_steps(a) + branch_steps(b),
        branch_steps(Seq::empty()) == Seq::<Seq<char>>::empty(),
{
    lemma_split_concat(a, '/', b);
    let full = |piece: Seq<char>| piece.len() > 0;
    Seq::filter_distributes_over_add(split(a, '/'), split(b, '/'), full);
    let none = split(Seq::<char>::empty(), '/');
    assert(none =~= seq![Seq::<char>::empty()]);
    let e = Seq::<Seq<char>>::empty();
    assert(none.drop_last() =~= e);
    reveal(Seq::filter);
    assert(e.filter(full) =~= e);
    assert(none.last().len() == 0);
    assert(none.filter(full) =~= Seq::<Seq<char>>::empty());
}

/// A path of directory names leads to the branch that is named by joining
/// them with slashes.
pub proof fn law_joined_steps(steps: Seq<Seq<char>>)
    requires
        forall|i: int|
            0 <= i < steps.len() ==> (#[trigger] steps[i]).len() > 0 && !steps[i].contains('/'),
    ensures
        branch_steps(join(steps, '/')) == steps,
{
    let full = |piece: Seq<char>| piece.len() > 0;
    if steps.len() == 0 {
        law_steps_concatenate(Seq::empty(), Seq::empty());
        assert(steps =~= Seq::empty());
    } else {
        lemma_split_join(steps, '/');
        lemma_filter_all(steps, full);
    }
}

/// Adding a branch that is there changes nothing, and the order in which
/// branches are added does not matter.
pub proof fn law_insert_set(branches: Set<Seq<Seq<char>>>, a: Seq<char>, b: Seq<char>)
    ensures
        branches.contains(branch_steps(a)) ==> branches.insert(branch_steps(a)) == branches,
        branches.insert(branch_steps(a)).insert(branch_steps(b)) == branches.insert(
            branch_steps(b),
        ).insert(branch_steps(a)),
        branches.insert(branch_steps(a)).contains(branch_steps(a)),
{
    if branches.contains(branch_steps(a)) {
        assert(branches.insert(branch_steps(a)) =~= branches);
    }
    assert(branches.insert(branch_steps(a)).insert(branch_steps(b)) =~= branches.insert(
        branch_steps(b),
    ).insert(branch_steps(a)));
}

} // verus!
