//! What a request carries from one of its steps to the next.

use crate::fspath::FsPath;
use crate::node::RefsContext;
use crate::text::{join, join_all, strings};
use crate::tree::{ContextView, ROOT_ID, TreeView};
use vstd::prelude::*;
use vstd::string::*;

verus! {

/// A name that is resolved in a directory of the `refs` subtree.
#[derive(Debug)]
pub struct RefsTask {
    pub dirid: u64,
    /// What leads to the directory.
    pub parent: RefsContext,
    pub name: String,
    /// The child that has the name already.
    pub existing: Option<u64>,
}

/// What a [`RefsTask`] says.
pub struct RefsTaskView {
    pub dirid: u64,
    pub parent: ContextView,
    pub name: Seq<char>,
    pub existing: Option<u64>,
}

impl View for RefsTask {
    type V = RefsTaskView;

    open spec fn view(&self) -> RefsTaskView {
        RefsTaskView {
            dirid: self.dirid,
            parent: self.parent@,
            name: self.name@,
            existing: self.existing,
        }
    }
}

impl RefsTaskView {
    /// The segments of the branch name that the directory and the name make.
    pub open spec fn segs(self) -> Seq<Seq<char>> {
        self.parent.segs.push(self.name)
    }

    /// The branch name that the directory and the name make.
    pub open spec fn branch(self) -> Seq<char> {
        join(self.segs(), '/')
    }

    /// The repository that it is about.
    pub open spec fn key(self) -> (Seq<char>, Seq<char>) {
        (self.parent.org, self.parent.repo)
    }

    /// Whether the task can be one of this tree: the number of its directory
    /// has been handed out, and neither that nor the child is the root.
    pub open spec fn fits(self, tree: TreeView) -> bool {
        &&& self.dirid < tree.next_id
        &&& self.dirid != ROOT_ID
        &&& self.existing != Some(ROOT_ID)
    }
}

/// A copy of a list of names.
pub fn copy_names(names: &Vec<String>) -> (r: Vec<String>)
    ensures
        strings(r@) == strings(names@),
{
    let mut out: Vec<String> = Vec::new();
    let mut i: usize = 0;
    while i < names.len()
        invariant
            i <= names@.len(),
            out@.len() == i,
            forall|j: int| 0 <= j < i ==> (#[trigger] out@[j])@ == names@[j]@,
        decreases names@.len() - i,
    {
        out.push(names[i].clone());
        i = i + 1;
    }
    assert(strings(out@) =~= strings(names@));
    out
}

/// The names joined with slashes.
pub fn branch_name(segs: &Vec<String>) -> (r: String)
    ensures
        r@ == join(strings(segs@), '/'),
{
    proof {
        reveal_strlit("/");
    }
    join_all(segs.as_slice(), "/")
}

impl RefsTask {
    /// The organisation that it is about.
    pub fn org(&self) -> (r: &str)
        ensures
            r@ == self@.parent.org,
    {
        self.parent.org.as_str()
    }

    /// The repository that it is about.
    pub fn repo(&self) -> (r: &str)
        ensures
            r@ == self@.parent.repo,
    {
        self.parent.repo.as_str()
    }

    /// The segments of the branch name that the directory and the name make.
    pub fn segs(&self) -> (r: Vec<String>)
        ensures
            strings(r@) == self@.segs(),
    {
        let mut segs = copy_names(&self.parent.segs);
        let ghost before = segs@;
        segs.push(self.name.clone());
        assert(strings(segs@) =~= strings(before).push(self.name@));
        segs
    }

    /// The branch name that the directory and the name make.
    pub fn branch(&self) -> (r: String)
        ensures
            r@ == self@.branch(),
    {
        branch_name(&self.segs())
    }
}

/// Something on disk that a request is about.
#[derive(Debug)]
pub struct DiskTask {
    pub dirid: u64,
    pub name: String,
    pub path: FsPath,
}

/// What a [`DiskTask`] says.
pub struct DiskTaskView {
    pub dirid: u64,
    pub name: Seq<char>,
    pub path: Seq<u8>,
}

impl View for DiskTask {
    type V = DiskTaskView;

    open spec fn view(&self) -> DiskTaskView {
        DiskTaskView { dirid: self.dirid, name: self.name@, path: self.path@ }
    }
}

} // verus!
