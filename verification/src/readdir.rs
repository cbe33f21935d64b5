//! Listing directories.

use crate::fs::{
    dir_attr, link_attr, only_state_changes, only_state_differs, with_tree, TreeportFs,
};
use crate::fspath::{path_join, FsPath};
use crate::names::{in_order, is_in_order, lemma_filter_all, sort_names, sorted, NameMap};
use crate::node::{directories, NodeKind, RefsContext, StateView};
use crate::protocol::{entry_views, name_in, DirEntry, EntryView, FileAttr, Status};
use crate::task::branch_name;
use crate::text::{exact_text, join, lemma_join_split, same, split, split_all, strings, texts, utf8};
use crate::tree::{ContextView, KindView, NfsTime, TreeView};
use crate::trie::{is_next_step, is_ref_path, BranchTrie};
use vstd::prelude::*;
use vstd::string::*;

verus! {

/// Where the attributes of a listed entry come from.
#[derive(Debug)]
pub enum ListedAttr {
    Known(FileAttr),
    /// From what stands at the path. Where nothing does, the fallback counts;
    /// an entry without one is left out.
    OnDisk { path: FsPath, fallback: Option<FileAttr> },
}

/// What a [`ListedAttr`] says.
pub enum ListedAttrView {
    Known(FileAttr),
    OnDisk { path: Seq<u8>, fallback: Option<FileAttr> },
}

impl View for ListedAttr {
    type V = ListedAttrView;

    open spec fn view(&self) -> ListedAttrView {
        match *self {
            ListedAttr::Known(attr) => ListedAttrView::Known(attr),
            ListedAttr::OnDisk { path, fallback } => ListedAttrView::OnDisk { path: path@, fallback },
        }
    }
}

/// An entry of a listing whose attributes may still have to be found.
#[derive(Debug)]
pub struct ListedEntry {
    pub fileid: u64,
    pub name: String,
    pub attr: ListedAttr,
}

/// What a [`ListedEntry`] says.
pub struct ListedView {
    pub fileid: u64,
    pub name: Seq<char>,
    pub attr: ListedAttrView,
}

impl View for ListedEntry {
    type V = ListedView;

    open spec fn view(&self) -> ListedView {
        ListedView { fileid: self.fileid, name: self.name@, attr: self.attr@ }
    }
}

/// What a list of entries says.
pub open spec fn listed_views(entries: Seq<ListedEntry>) -> Seq<ListedView> {
    Seq::new(entries.len(), |i: int| entries[i]@)
}

/// The attributes of an entry, given what was found on disk for it.
pub open spec fn settled_attr(attr: ListedAttrView, found: Option<FileAttr>) -> Option<FileAttr> {
    match attr {
        ListedAttrView::Known(known) => Some(known),
        ListedAttrView::OnDisk { path, fallback } => match found {
            Some(there) => Some(there),
            None => fallback,
        },
    }
}

/// The listing, given what was found on disk for each entry.
pub open spec fn settled_entries(
    entries: Seq<ListedView>,
    found: Seq<Option<FileAttr>>,
) -> Seq<EntryView>
    decreases entries.len(),
{
    if entries.len() == 0 {
        Seq::empty()
    } else {
        let before = settled_entries(entries.drop_last(), found);
        let e = entries.last();
        let n = entries.len() - 1;
        match settled_attr(
            e.attr,
            if n < found.len() {
                found[n]
            } else {
                None
            },
        ) {
            Some(attr) => before.push(EntryView { fileid: e.fileid, name: e.name, attr }),
            None => before,
        }
    }
}

/// Puts the attributes that were found on disk into a listing.
pub fn settle(entries: Vec<ListedEntry>, found: Vec<Option<FileAttr>>) -> (r: Vec<DirEntry>)
    ensures
        entry_views(r@) == settled_entries(listed_views(entries@), found@),
{
    let ghost all = listed_views(entries@);
    let mut out: Vec<DirEntry> = Vec::new();
    let mut i: usize = 0;
    proof {
        assert(all.take(0) =~= Seq::empty());
        assert(entry_views(out@) =~= Seq::empty());
    }
    while i < entries.len()
        invariant
            i <= entries@.len(),
            all == listed_views(entries@),
            entry_views(out@) == settled_entries(all.take(i as int), found@),
        decreases entries@.len() - i,
    {
        proof {
            assert(all.take(i + 1).drop_last() =~= all.take(i as int));
            assert(all.take(i + 1).last() == entries@[i as int]@);
        }
        let there: Option<FileAttr> = if i < found.len() {
            found[i]
        } else {
            None
        };
        let attr: Option<FileAttr> = match &entries[i].attr {
            ListedAttr::Known(known) => Some(*known),
            ListedAttr::OnDisk { path, fallback } => match there {
                Some(a) => Some(a),
                None => *fallback,
            },
        };
        match attr {
            Some(a) => {
                let ghost before = entry_views(out@);
                let entry = DirEntry {
                    fileid: entries[i].fileid,
                    name: entries[i].name.clone(),
                    attr: a,
                };
                let ghost e = entry@;
                out.push(entry);
                assert(entry_views(out@) =~= before.push(e));
            },
            None => {},
        }
        i = i + 1;
    }
    assert(all.take(all.len() as int) =~= all);
    out
}

/// What listing a directory comes to after its first step.
#[derive(Debug)]
pub enum ReaddirStep {
    Done(Result<Vec<ListedEntry>, Status>),
    /// A directory on disk. The worktree may be due for a refresh; then list
    /// the directory and hand the names to [`TreeportFs::disk_entries`].
    OnDisk(FsPath),
    /// A directory of the `refs` subtree: see the foreign worktrees
    /// ([`TreeportFs::readdir_is_dir`]), then the branches
    /// ([`TreeportFs::readdir_refs`]).
    Refs(RefsContext),
}

/// What a [`ReaddirStep`] says.
pub enum ReaddirStepView {
    Done(Result<Seq<ListedView>, Status>),
    OnDisk(Seq<u8>),
    Refs(ContextView),
}

impl View for ReaddirStep {
    type V = ReaddirStepView;

    open spec fn view(&self) -> ReaddirStepView {
        match *self {
            ReaddirStep::Done(Ok(entries)) => ReaddirStepView::Done(Ok(listed_views(entries@))),
            ReaddirStep::Done(Err(status)) => ReaddirStepView::Done(Err(status)),
            ReaddirStep::OnDisk(path) => ReaddirStepView::OnDisk(path@),
            ReaddirStep::Refs(context) => ReaddirStepView::Refs(context@),
        }
    }
}

/// Whether a child shows up in the root: organisations do only once a
/// repository under them has been validated.
pub open spec fn shows_in_root(tree: TreeView, id: u64) -> bool {
    tree.nodes.contains_key(id) && tree.nodes[id].children != Map::<Seq<char>, u64>::empty()
}

/// The names that a virtual directory above the `refs` subtree lists.
pub open spec fn shown(tree: TreeView, dirid: u64) -> Seq<Seq<char>> {
    let children = tree.nodes[dirid].children;
    let all = in_order(children.dom());
    if tree.nodes[dirid].kind is Root {
        all.filter(|name: Seq<char>| shows_in_root(tree, children[name]))
    } else {
        all
    }
}

/// The entry of a virtual directory.
pub open spec fn dir_entry(
    tree: TreeView,
    owner: (u32, u32),
    started: NfsTime,
    id: u64,
    name: Seq<char>,
) -> ListedView {
    ListedView {
        fileid: id,
        name,
        attr: ListedAttrView::Known(dir_attr(tree, owner, started, id)),
    }
}

/// The entries of children of a virtual directory.
pub open spec fn dir_entries(
    tree: TreeView,
    owner: (u32, u32),
    started: NfsTime,
    dirid: u64,
    names: Seq<Seq<char>>,
) -> Seq<ListedView> {
    Seq::new(
        names.len(),
        |i: int|
            dir_entry(tree, owner, started, tree.nodes[dirid].children[names[i]], names[i]),
    )
}

/// [`TreeportFs::plan_readdir`].
pub open spec fn lists(
    tree: TreeView,
    owner: (u32, u32),
    started: NfsTime,
    dirid: u64,
) -> ReaddirStepView {
    match tree.kind(dirid) {
        None => ReaddirStepView::Done(Err(Status::Stale)),
        Some(KindView::Root) | Some(KindView::Org) | Some(KindView::Repo) => ReaddirStepView::Done(
            Ok(dir_entries(tree, owner, started, dirid, shown(tree, dirid))),
        ),
        Some(KindView::RefsRoot) | Some(KindView::RefPath) => match tree.refs_context(dirid) {
            Some(context) => ReaddirStepView::Refs(context),
            None => ReaddirStepView::Done(Err(Status::Stale)),
        },
        Some(KindView::ForeignWorktree { target }) => ReaddirStepView::Done(Err(Status::NotDir)),
        Some(KindView::Worktree { .. }) | Some(KindView::Disk) => match tree.disk_path(dirid) {
            Some(path) => ReaddirStepView::OnDisk(path),
            None => ReaddirStepView::Done(Err(Status::Stale)),
        },
    }
}

/// The names that files have, as far as they are text.
pub open spec fn file_names(files: Seq<Vec<u8>>) -> Seq<Seq<char>>
    decreases files.len(),
{
    if files.len() == 0 {
        Seq::empty()
    } else {
        let before = file_names(files.drop_last());
        match name_in(files.last()@) {
            Some(name) => before.push(name),
            None => before,
        }
    }
}

/// The files of a directory on disk entered in the tree, and their listing.
pub open spec fn files_entered(
    tree: TreeView,
    dirid: u64,
    dir: Seq<u8>,
    names: Seq<Seq<char>>,
    wall: NfsTime,
) -> (TreeView, Seq<ListedView>)
    decreases names.len(),
{
    if names.len() == 0 {
        (tree, Seq::empty())
    } else {
        let (before, entries) = files_entered(tree, dirid, dir, names.drop_last(), wall);
        let name = names.last();
        let entry = ListedView {
            fileid: before.child_id(dirid, name),
            name,
            attr: ListedAttrView::OnDisk { path: path_join(dir, utf8(name)), fallback: None },
        };
        (before.with_child(dirid, name, KindView::Disk, wall), entries.push(entry))
    }
}

/// [`TreeportFs::disk_entries`]. A listing that would take more numbers than
/// are left fails.
pub open spec fn disk_listing(
    state: StateView,
    dirid: u64,
    dir: Seq<u8>,
    files: Seq<Vec<u8>>,
    wall: NfsTime,
) -> (StateView, Result<Seq<ListedView>, Status>) {
    let names = sorted(file_names(files));
    if names.len() > u64::MAX - state.tree.next_id {
        (state, Err(Status::Io))
    } else {
        let (tree, entries) = files_entered(state.tree, dirid, dir, names, wall);
        (with_tree(state, tree), Ok(entries))
    }
}

/// Whether a listing or a failure is the one wanted.
pub open spec fn is_listing(
    r: Result<Vec<ListedEntry>, Status>,
    want: Result<Seq<ListedView>, Status>,
) -> bool {
    match (r, want) {
        (Ok(entries), Ok(l)) => listed_views(entries@) == l,
        (Err(e), Err(s)) => e == s,
        _ => false,
    }
}

/// The foreign branches that end one step below a place in the `refs` subtree:
/// they are symlinks there.
pub open spec fn foreign_links(
    foreign: Map<Seq<char>, Seq<u8>>,
    segs: Seq<Seq<char>>,
) -> Map<Seq<char>, Seq<u8>> {
    Map::new(
        |name: Seq<char>|
            exists|b: Seq<char>| #[trigger] foreign.contains_key(b) && split(b, '/') == segs.push(name),
        |name: Seq<char>| foreign[join(segs.push(name), '/')],
    )
}

/// The next steps of foreign branches that go on further below a place in the
/// `refs` subtree: they are directories there.
pub open spec fn foreign_dirs(
    foreign: Map<Seq<char>, Seq<u8>>,
    segs: Seq<Seq<char>>,
) -> Set<Seq<char>> {
    Set::new(
        |name: Seq<char>|
            exists|b: Seq<char>| #[trigger]
                foreign.contains_key(b) && split(b, '/').len() > segs.len() + 1 && segs.push(
                    name,
                ).is_prefix_of(split(b, '/')),
    )
}

/// Whether a child is a branch with a worktree in the cache.
pub open spec fn is_local(tree: TreeView, dirid: u64, name: Seq<char>) -> bool {
    tree.child(dirid, name) matches Some(id) && tree.kind(id) matches Some(kind) && kind is Worktree
}

/// Whether a child is a symlink to a foreign worktree that is gone.
pub open spec fn is_stale_link(
    tree: TreeView,
    dirid: u64,
    name: Seq<char>,
    links: Map<Seq<char>, Seq<u8>>,
) -> bool {
    &&& tree.child(dirid, name) matches Some(id) && tree.kind(id) matches Some(kind)
        && kind is ForeignWorktree
    &&& !links.contains_key(name)
}

/// The children of a node in order.
pub open spec fn children_in_order(tree: TreeView, dirid: u64) -> Seq<Seq<char>> {
    if tree.nodes.contains_key(dirid) {
        in_order(tree.nodes[dirid].children.dom())
    } else {
        Seq::empty()
    }
}

/// The symlinks in a directory that lead to foreign worktrees that are gone.
pub open spec fn stale_links(
    tree: TreeView,
    dirid: u64,
    links: Map<Seq<char>, Seq<u8>>,
) -> Seq<Seq<char>> {
    children_in_order(tree, dirid).filter(
        |name: Seq<char>| is_stale_link(tree, dirid, name, links),
    )
}

/// The tree with children dropped, one after the other.
pub open spec fn dropped(
    tree: TreeView,
    dirid: u64,
    names: Seq<Seq<char>>,
    wall: NfsTime,
) -> TreeView
    decreases names.len(),
{
    if names.len() == 0 {
        tree
    } else {
        dropped(tree, dirid, names.drop_last(), wall).without_child(dirid, names.last(), wall)
    }
}

/// The names in a directory of the `refs` subtree: the next steps of remote
/// branches, local branches with a worktree, and what foreign worktrees add;
/// but no symlink to a foreign worktree that is gone.
pub open spec fn ref_names(
    tree: TreeView,
    dirid: u64,
    segs: Seq<Seq<char>>,
    branches: Set<Seq<Seq<char>>>,
    foreign: Map<Seq<char>, Seq<u8>>,
) -> Set<Seq<char>> {
    let links = foreign_links(foreign, segs);
    Set::new(
        |name: Seq<char>|
            {
                &&& {
                    ||| is_next_step(branches, segs, name)
                    ||| is_local(tree, dirid, name)
                    ||| foreign_dirs(foreign, segs).contains(name)
                    ||| links.contains_key(name)
                }
                &&& !is_stale_link(tree, dirid, name, links)
            },
    )
}

/// Whether there is nothing at a place in the `refs` subtree: no branch of the
/// remote, none with a local worktree, none that is checked out elsewhere.
pub open spec fn is_nowhere(
    tree: TreeView,
    dirid: u64,
    segs: Seq<Seq<char>>,
    branches: Set<Seq<Seq<char>>>,
    foreign: Map<Seq<char>, Seq<u8>>,
) -> bool {
    &&& !is_ref_path(branches, segs)
    &&& forall|name: Seq<char>| !#[trigger] is_local(tree, dirid, name)
    &&& foreign_links(foreign, segs) == Map::<Seq<char>, Seq<u8>>::empty()
    &&& foreign_dirs(foreign, segs) == Set::<Seq<char>>::empty()
}

/// One name of a directory of the `refs` subtree entered in the tree, and its
/// entry.
pub open spec fn ref_entered(
    tree: TreeView,
    owner: (u32, u32),
    started: NfsTime,
    dirid: u64,
    name: Seq<char>,
    links: Map<Seq<char>, Seq<u8>>,
    wall: NfsTime,
) -> (TreeView, ListedView) {
    let id = tree.child_id(dirid, name);
    if links.contains_key(name) {
        let kind = KindView::ForeignWorktree { target: links[name] };
        (
            tree.with_child(dirid, name, kind, wall).with_kind(id, kind),
            ListedView {
                fileid: id,
                name,
                attr: ListedAttrView::Known(link_attr(owner, started, id, links[name])),
            },
        )
    } else {
        let after = tree.with_child(dirid, name, KindView::RefPath, wall);
        let attr = dir_attr(after, owner, started, id);
        (
            after,
            ListedView {
                fileid: id,
                name,
                attr: match after.disk_path(id) {
                    Some(path) => ListedAttrView::OnDisk { path, fallback: Some(attr) },
                    None => ListedAttrView::Known(attr),
                },
            },
        )
    }
}

/// The names of a directory of the `refs` subtree entered in the tree, one
/// after the other, and their listing.
pub open spec fn refs_entered(
    tree: TreeView,
    owner: (u32, u32),
    started: NfsTime,
    dirid: u64,
    names: Seq<Seq<char>>,
    links: Map<Seq<char>, Seq<u8>>,
    wall: NfsTime,
) -> (TreeView, Seq<ListedView>)
    decreases names.len(),
{
    if names.len() == 0 {
        (tree, Seq::empty())
    } else {
        let (before, entries) = refs_entered(
            tree,
            owner,
            started,
            dirid,
            names.drop_last(),
            links,
            wall,
        );
        let (after, entry) = ref_entered(
            before,
            owner,
            started,
            dirid,
            names.last(),
            links,
            wall,
        );
        (after, entries.push(entry))
    }
}

/// What listing a directory of the `refs` subtree comes to.
#[derive(Debug)]
pub enum RefsListing {
    Fail(Status),
    /// It is a branch that is not checked out yet: check it out, then
    /// [`TreeportFs::ensure_branch_dir`], and list it as a directory on disk.
    Materialize(String),
    Entries(Vec<ListedEntry>),
}

/// What a [`RefsListing`] says.
pub enum RefsListingView {
    Fail(Status),
    Materialize(Seq<char>),
    Entries(Seq<ListedView>),
}

impl View for RefsListing {
    type V = RefsListingView;

    open spec fn view(&self) -> RefsListingView {
        match *self {
            RefsListing::Fail(status) => RefsListingView::Fail(status),
            RefsListing::Materialize(branch) => RefsListingView::Materialize(branch@),
            RefsListing::Entries(entries) => RefsListingView::Entries(listed_views(entries@)),
        }
    }
}

/// [`TreeportFs::readdir_refs`]. Where there is nothing, the directory does
/// not exist; otherwise stale symlinks are dropped and the names entered, so
/// that each has a number. A listing that would take more numbers than are
/// left fails.
pub open spec fn refs_listed(
    state: StateView,
    owner: (u32, u32),
    started: NfsTime,
    dirid: u64,
    context: ContextView,
    foreign: Map<Seq<char>, Seq<u8>>,
    branches: Set<Seq<Seq<char>>>,
    wall: NfsTime,
) -> (StateView, RefsListingView) {
    let segs = context.segs;
    let links = foreign_links(foreign, segs);
    let names = in_order(ref_names(state.tree, dirid, segs, branches, foreign));
    if branches.contains(segs) {
        (state, RefsListingView::Materialize(join(segs, '/')))
    } else if is_nowhere(state.tree, dirid, segs, branches, foreign) {
        (state, RefsListingView::Fail(Status::NoEnt))
    } else if names.len() > u64::MAX - state.tree.next_id {
        (state, RefsListingView::Fail(Status::Io))
    } else {
        let tree = dropped(state.tree, dirid, stale_links(state.tree, dirid, links), wall);
        let (after, entries) = refs_entered(tree, owner, started, dirid, names, links, wall);
        (with_tree(state, after), RefsListingView::Entries(entries))
    }
}

/// Adds names to a set of names.
fn add_names(set: &mut NameMap<bool>, more: &Vec<String>)
    requires
        old(set).wf(),
    ensures
        final(set).wf(),
        forall|x: Seq<char>| #[trigger]
            final(set)@.contains_key(x) <==> old(set)@.contains_key(x) || strings(more@).contains(x),
{
    let ghost before = set@;
    let ghost all = strings(more@);
    let mut i: usize = 0;
    while i < more.len()
        invariant
            i <= more@.len(),
            all == strings(more@),
            set.wf(),
            forall|x: Seq<char>| #[trigger]
                set@.contains_key(x) <==> before.contains_key(x) || all.take(i as int).contains(x),
        decreases more@.len() - i,
    {
        let ghost old_set = set@;
        set.insert(more[i].clone(), true);
        proof {
            let name = more@[i as int]@;
            assert(all.take(i + 1) =~= all.take(i as int).push(name));
            assert forall|x: Seq<char>| #[trigger] set@.contains_key(x) <==> before.contains_key(x)
                || all.take(i + 1).contains(x) by {
                lemma_contains_push(all.take(i as int), name, x);
                assert(old_set.contains_key(x) <==> before.contains_key(x) || all.take(
                    i as int,
                ).contains(x));
            }
        }
        i = i + 1;
    }
    assert(all.take(all.len() as int) =~= all);
}

/// Takes names out of a set of names.
fn remove_names(set: &mut NameMap<bool>, less: &Vec<String>)
    requires
        old(set).wf(),
    ensures
        final(set).wf(),
        forall|x: Seq<char>| #[trigger]
            final(set)@.contains_key(x) <==> old(set)@.contains_key(x) && !strings(less@).contains(x),
{
    let ghost before = set@;
    let ghost all = strings(less@);
    let mut i: usize = 0;
    while i < less.len()
        invariant
            i <= less@.len(),
            all == strings(less@),
            set.wf(),
            forall|x: Seq<char>| #[trigger]
                set@.contains_key(x) <==> before.contains_key(x) && !all.take(i as int).contains(x),
        decreases less@.len() - i,
    {
        let ghost old_set = set@;
        set.remove(less[i].as_str());
        proof {
            let name = less@[i as int]@;
            assert(all.take(i + 1) =~= all.take(i as int).push(name));
            assert forall|x: Seq<char>| #[trigger] set@.contains_key(x) <==> before.contains_key(x)
                && !all.take(i + 1).contains(x) by {
                lemma_contains_push(all.take(i as int), name, x);
                assert(old_set.contains_key(x) <==> before.contains_key(x) && !all.take(
                    i as int,
                ).contains(x));
            }
        }
        i = i + 1;
    }
    assert(all.take(all.len() as int) =~= all);
}

proof fn lemma_contains_push<A>(s: Seq<A>, a: A, x: A)
    ensures
        s.push(a).contains(x) <==> s.contains(x) || x == a,
{
    if s.contains(x) {
        let i = choose|i: int| 0 <= i < s.len() && s[i] == x;
        assert(s.push(a)[i] == x);
    }
    assert(s.push(a)[s.len() as int] == a);
}

/// A filter over one more element.
proof fn lemma_filter_step<A>(s: Seq<A>, i: int, keep: spec_fn(A) -> bool)
    requires
        0 <= i < s.len(),
    ensures
        s.take(i + 1).filter(keep) == if keep(s[i]) {
            s.take(i).filter(keep).push(s[i])
        } else {
            s.take(i).filter(keep)
        },
{
    reveal(Seq::filter);
    assert(s.take(i + 1).drop_last() =~= s.take(i));
    assert(s.take(i + 1).last() == s[i]);
}

/// What a filter lets through.
pub proof fn lemma_filter_contains<A>(s: Seq<A>, keep: spec_fn(A) -> bool, x: A)
    ensures
        s.filter(keep).contains(x) <==> s.contains(x) && keep(x),
    decreases s.len(),
{
    reveal(Seq::filter);
    if s.len() > 0 {
        let t = s.drop_last();
        lemma_filter_contains(t, keep, x);
        assert(s =~= t.push(s.last()));
        lemma_contains_push(t, s.last(), x);
        lemma_contains_push(t.filter(keep), s.last(), x);
    }
}

/// The names of files, as far as they are text.
fn text_names(files: &Vec<Vec<u8>>) -> (r: Vec<String>)
    ensures
        strings(r@) == file_names(files@),
{
    let mut names: Vec<String> = Vec::new();
    let mut i: usize = 0;
    proof {
        assert(files@.take(0) =~= Seq::empty());
        assert(strings(names@) =~= Seq::empty());
    }
    while i < files.len()
        invariant
            i <= files@.len(),
            strings(names@) == file_names(files@.take(i as int)),
        decreases files@.len() - i,
    {
        proof {
            assert(files@.take(i + 1).drop_last() =~= files@.take(i as int));
            assert(files@.take(i + 1).last() == files@[i as int]);
        }
        match exact_text(files[i].as_slice()) {
            Some(name) => {
                let ghost before = strings(names@);
                let ghost n = name@;
                names.push(name);
                assert(strings(names@) =~= before.push(n));
            },
            None => {},
        }
        i = i + 1;
    }
    assert(files@.take(files@.len() as int) =~= files@);
    names
}

impl TreeportFs {
    fn shows_in_root(&self, id: u64) -> (r: bool)
        requires
            self.state.wf(),
        ensures
            r == shows_in_root(self.state@.tree, id),
    {
        match self.state.get(id) {
            Some(n) => !n.children.is_empty(),
            None => false,
        }
    }

    fn virtual_entries(&self, dirid: u64, in_root: bool) -> (r: Vec<ListedEntry>)
        requires
            self.state.wf(),
            self.state@.tree.nodes.contains_key(dirid),
            in_root == (self.state@.tree.nodes[dirid].kind is Root),
        ensures
            listed_views(r@) == dir_entries(
                self.state@.tree,
                self.owner,
                self.started,
                dirid,
                shown(self.state@.tree, dirid),
            ),
    {
        let ghost tree = self.state@.tree;
        let mut out: Vec<ListedEntry> = Vec::new();
        match self.state.get(dirid) {
            None => {},
            Some(dir) => {
                let ghost children = tree.nodes[dirid].children;
                let ghost all = dir.children.names();
                let ghost keep = |name: Seq<char>|
                    !in_root || shows_in_root(tree, children[name]);
                let mut i: usize = 0;
                proof {
                    dir.children.lemma_names();
                    assert(all.take(0) =~= Seq::empty());
                    reveal(Seq::filter);
                    assert(all.take(0).filter(keep) =~= Seq::empty());
                    assert(listed_views(out@) =~= dir_entries(
                        tree,
                        self.owner,
                        self.started,
                        dirid,
                        all.take(0).filter(keep),
                    ));
                }
                while i < dir.children.keys.len()
                    invariant
                        self.state.wf(),
                        tree == self.state@.tree,
                        tree.nodes[dirid] == dir@,
                        children == tree.nodes[dirid].children,
                        dir.children.wf(),
                        all == dir.children.names(),
                        keep == (|name: Seq<char>|
                            !in_root || shows_in_root(tree, children[name])),
                        i <= dir.children.keys@.len(),
                        listed_views(out@) == dir_entries(
                            tree,
                            self.owner,
                            self.started,
                            dirid,
                            all.take(i as int).filter(keep),
                        ),
                    decreases dir.children.keys@.len() - i,
                {
                    let id: u64 = dir.children.values[i];
                    proof {
                        dir.children.lemma_at(i as int);
                        lemma_filter_step(all, i as int, keep);
                    }
                    if !in_root || self.shows_in_root(id) {
                        let ghost before = listed_views(out@);
                        let entry = ListedEntry {
                            fileid: id,
                            name: dir.children.keys[i].clone(),
                            attr: ListedAttr::Known(self.virtual_dir_attr(id)),
                        };
                        let ghost e = entry@;
                        out.push(entry);
                        proof {
                            assert(listed_views(out@) =~= before.push(e));
                            assert(listed_views(out@) =~= dir_entries(
                                tree,
                                self.owner,
                                self.started,
                                dirid,
                                all.take(i + 1).filter(keep),
                            ));
                        }
                    }
                    i = i + 1;
                }
                proof {
                    assert(all.take(all.len() as int) =~= all);
                    if in_root {
                        assert(keep =~= (|name: Seq<char>| shows_in_root(tree, children[name])));
                    } else {
                        lemma_filter_all(all, keep);
                    }
                    assert(all.filter(keep) == shown(tree, dirid));
                }
            },
        }
        out
    }

    /// Lists a directory, as far as the state alone tells.
    pub fn plan_readdir(&self, dirid: u64) -> (r: ReaddirStep)
        requires
            self.state.wf(),
        ensures
            r@ == lists(self.state@.tree, self.owner, self.started, dirid),
    {
        let dir = match self.state.get(dirid) {
            Some(dir) => dir,
            None => {
                return ReaddirStep::Done(Err(Status::Stale));
            },
        };
        match &dir.kind {
            NodeKind::Root => ReaddirStep::Done(Ok(self.virtual_entries(dirid, true))),
            NodeKind::Org | NodeKind::Repo => ReaddirStep::Done(
                Ok(self.virtual_entries(dirid, false)),
            ),
            NodeKind::RefsRoot | NodeKind::RefPath => match self.state.refs_context(dirid) {
                Some(context) => ReaddirStep::Refs(context),
                None => ReaddirStep::Done(Err(Status::Stale)),
            },
            NodeKind::ForeignWorktree { .. } => ReaddirStep::Done(Err(Status::NotDir)),
            NodeKind::Worktree { .. } | NodeKind::Disk => match self.state.disk_path(dirid) {
                Some(path) => ReaddirStep::OnDisk(path),
                None => ReaddirStep::Done(Err(Status::Stale)),
            },
        }
    }

    /// Lists a directory on disk, out of the names of its files, and enters
    /// them, so that every one has a lasting number.
    pub fn disk_entries(
        &mut self,
        dirid: u64,
        dir: &FsPath,
        files: &Vec<Vec<u8>>,
        wall: NfsTime,
    ) -> (r: Result<Vec<ListedEntry>, Status>)
        requires
            old(self).state.wf(),
        ensures
            only_state_changes(
                old(self),
                final(self),
                r is Err || dirid < old(self).state@.tree.next_id,
            ),
            final(self).state@ == disk_listing(old(self).state@, dirid, dir@, files@, wall).0,
            is_listing(r, disk_listing(old(self).state@, dirid, dir@, files@, wall).1),
    {
        let mut names = text_names(files);
        sort_names(&mut names);
        let ghost all = strings(names@);
        if names.len() as u64 > self.state.ids_left() {
            return Err(Status::Io);
        }
        let ghost before = self.state@;
        let mut out: Vec<ListedEntry> = Vec::new();
        let mut i: usize = 0;
        proof {
            assert(all.take(0) =~= Seq::empty());
            assert(listed_views(out@) =~= Seq::empty());
        }
        while i < names.len()
            invariant
                i <= names@.len(),
                all == strings(names@),
                names@.len() <= u64::MAX - before.tree.next_id,
                before.tree.next_id <= self.state@.tree.next_id <= before.tree.next_id + i,
                only_state_changes(old(self), self, dirid < before.tree.next_id),
                self.state@ == with_tree(before, self.state@.tree),
                (self.state@.tree, listed_views(out@)) == files_entered(
                    before.tree,
                    dirid,
                    dir@,
                    all.take(i as int),
                    wall,
                ),
            decreases names@.len() - i,
        {
            proof {
                assert(all.take(i + 1).drop_last() =~= all.take(i as int));
                assert(all.take(i + 1).last() == names@[i as int]@);
            }
            let id = self.state.add_child(dirid, names[i].as_str(), NodeKind::Disk, wall);
            let ghost so_far = listed_views(out@);
            let entry = ListedEntry {
                fileid: id,
                name: names[i].clone(),
                attr: ListedAttr::OnDisk { path: dir.join(names[i].as_str()), fallback: None },
            };
            let ghost e = entry@;
            out.push(entry);
            assert(listed_views(out@) =~= so_far.push(e));
            i = i + 1;
        }
        assert(all.take(all.len() as int) =~= all);
        Ok(out)
    }
}

/// What foreign worktrees add at one place of the `refs` subtree.
struct ForeignLevel {
    links: NameMap<FsPath>,
    dirs: NameMap<bool>,
}

/// Whether the pieces of a branch name start with the segments.
fn starts_with_segs(parts: &Vec<&str>, segs: &Vec<String>) -> (r: bool)
    ensures
        r == strings(segs@).is_prefix_of(texts(parts@)),
{
    let ghost p = texts(parts@);
    let ghost s = strings(segs@);
    if parts.len() < segs.len() {
        return false;
    }
    let mut i: usize = 0;
    while i < segs.len()
        invariant
            i <= segs@.len(),
            segs@.len() <= parts@.len(),
            p == texts(parts@),
            s == strings(segs@),
            forall|j: int| 0 <= j < i ==> #[trigger] s[j] == p[j],
        decreases segs@.len() - i,
    {
        if !same(parts[i], segs[i].as_str()) {
            proof {
                assert(s[i as int] != p.subrange(0, s.len() as int)[i as int]);
            }
            return false;
        }
        assert(s[i as int] == p[i as int]);
        i = i + 1;
    }
    assert(s =~= p.subrange(0, s.len() as int));
    true
}

/// The steps that a branch takes past the segments: whether it does, and which
/// is next.
pub proof fn lemma_next_step(p: Seq<Seq<char>>, s: Seq<Seq<char>>, name: Seq<char>)
    ensures
        s.push(name).is_prefix_of(p) <==> s.is_prefix_of(p) && p.len() > s.len() && p[s.len() as int]
            == name,
        p == s.push(name) <==> s.is_prefix_of(p) && p.len() == s.len() + 1 && p[s.len() as int]
            == name,
{
    let longer = s.push(name);
    if longer.is_prefix_of(p) {
        assert(longer[s.len() as int] == p.subrange(0, longer.len() as int)[s.len() as int]);
        assert forall|i: int| 0 <= i < s.len() implies s[i] == p[i] by {
            assert(longer[i] == p.subrange(0, longer.len() as int)[i]);
        }
        assert(s =~= p.subrange(0, s.len() as int));
    }
    if s.is_prefix_of(p) && p.len() > s.len() && p[s.len() as int] == name {
        assert forall|i: int| 0 <= i < s.len() implies s[i] == p[i] by {
            assert(s[i] == p.subrange(0, s.len() as int)[i]);
        }
        assert(longer =~= p.subrange(0, longer.len() as int));
        if p.len() == s.len() + 1 {
            assert(p =~= longer);
        }
    }
    if p == longer {
        assert(s =~= p.subrange(0, s.len() as int));
    }
}

fn foreign_level(foreign: &NameMap<FsPath>, segs: &Vec<String>) -> (r: ForeignLevel)
    requires
        foreign.wf(),
    ensures
        r.links.wf(),
        r.dirs.wf(),
        directories(r.links@) == foreign_links(directories(foreign@), strings(segs@)),
        r.dirs@.dom() == foreign_dirs(directories(foreign@), strings(segs@)),
{
    let ghost all = directories(foreign@);
    let ghost s = strings(segs@);
    let ghost names = foreign.names();
    let mut links: NameMap<FsPath> = NameMap::new();
    let mut dirs: NameMap<bool> = NameMap::new();
    let mut i: usize = 0;
    while i < foreign.keys.len()
        invariant
            foreign.wf(),
            all == directories(foreign@),
            s == strings(segs@),
            names == foreign.names(),
            i <= foreign.keys@.len(),
            links.wf(),
            dirs.wf(),
            forall|x: Seq<char>| #[trigger]
                links@.contains_key(x) <==> exists|j: int|
                    0 <= j < i && split(#[trigger] names[j], '/') == s.push(x),
            forall|x: Seq<char>| #[trigger]
                links@.contains_key(x) ==> links@[x]@ == all[join(s.push(x), '/')],
            forall|x: Seq<char>| #[trigger]
                dirs@.contains_key(x) <==> exists|j: int|
                    0 <= j < i && split(#[trigger] names[j], '/').len() > s.len() + 1 && s.push(
                        x,
                    ).is_prefix_of(split(names[j], '/')),
        decreases foreign.keys@.len() - i,
    {
        let ghost old_links = links@;
        let ghost old_dirs = dirs@;
        let parts = split_all(foreign.keys[i].as_str(), 47u8);
        let ghost p = texts(parts@);
        proof {
            foreign.lemma_at(i as int);
            assert(p == split(names[i as int], '/'));
            lemma_join_split(names[i as int], '/');
        }
        let below = parts.len() > segs.len() && starts_with_segs(&parts, segs);
        if below {
            let next = parts[segs.len()];
            let ghost n = next@;
            proof {
                assert(p[s.len() as int] == n);
            }
            if parts.len() - segs.len() == 1 {
                let path = foreign.values[i].clone();
                let ghost target = path@;
                links.insert(next.to_owned(), path);
                proof {
                    lemma_next_step(p, s, n);
                    assert(join(s.push(n), '/') == names[i as int]);
                    assert(target == all[names[i as int]]);
                }
            } else {
                dirs.insert(next.to_owned(), true);
            }
        }
        proof {
            assert forall|x: Seq<char>| #[trigger] links@.contains_key(x) <==> exists|j: int|
                0 <= j < i + 1 && split(#[trigger] names[j], '/') == s.push(x) by {
                lemma_next_step(p, s, x);
                if links@.contains_key(x) {
                    if old_links.contains_key(x) {
                        let j = choose|j: int| 0 <= j < i && split(#[trigger] names[j], '/') == s.push(x);
                        assert(split(names[j], '/') == s.push(x));
                    } else {
                        assert(split(names[i as int], '/') == s.push(x));
                    }
                }
                if exists|j: int| 0 <= j < i + 1 && split(#[trigger] names[j], '/') == s.push(x) {
                    let j = choose|j: int|
                        0 <= j < i + 1 && split(#[trigger] names[j], '/') == s.push(x);
                    if j < i {
                        assert(old_links.contains_key(x));
                    }
                }
            }
            assert forall|x: Seq<char>| #[trigger] dirs@.contains_key(x) <==> exists|j: int|
                0 <= j < i + 1 && split(#[trigger] names[j], '/').len() > s.len() + 1 && s.push(
                    x,
                ).is_prefix_of(split(names[j], '/')) by {
                lemma_next_step(p, s, x);
                if dirs@.contains_key(x) {
                    if old_dirs.contains_key(x) {
                        let j = choose|j: int|
                            0 <= j < i && split(#[trigger] names[j], '/').len() > s.len() + 1 && s.push(
                                x,
                            ).is_prefix_of(split(names[j], '/'));
                        assert(split(names[j], '/').len() > s.len() + 1);
                    } else {
                        assert(split(names[i as int], '/').len() > s.len() + 1);
                    }
                }
                if exists|j: int|
                    0 <= j < i + 1 && split(#[trigger] names[j], '/').len() > s.len() + 1 && s.push(
                        x,
                    ).is_prefix_of(split(names[j], '/')) {
                    let j = choose|j: int|
                        0 <= j < i + 1 && split(#[trigger] names[j], '/').len() > s.len() + 1
                            && s.push(x).is_prefix_of(split(names[j], '/'));
                    if j < i {
                        assert(old_dirs.contains_key(x));
                    }
                }
            }
        }
        i = i + 1;
    }
    proof {
        let want = foreign_links(all, s);
        assert forall|x: Seq<char>| #[trigger] links@.contains_key(x) <==> want.contains_key(x) by {
            if links@.contains_key(x) {
                let j = choose|j: int|
                    0 <= j < names.len() && split(#[trigger] names[j], '/') == s.push(x);
                foreign.lemma_at(j);
                assert(all.contains_key(names[j]));
            }
            if want.contains_key(x) {
                let b = choose|b: Seq<char>| #[trigger] all.contains_key(b) && split(b, '/') == s.push(x);
                foreign.lemma_position(b);
                let j = foreign.position(b);
                assert(names[j] == b);
            }
        }
        assert(directories(links@) =~= want);
        let level = foreign_dirs(all, s);
        assert forall|x: Seq<char>| #[trigger] dirs@.contains_key(x) <==> level.contains(x) by {
            if dirs@.contains_key(x) {
                let j = choose|j: int|
                    0 <= j < names.len() && split(#[trigger] names[j], '/').len() > s.len() + 1
                        && s.push(x).is_prefix_of(split(names[j], '/'));
                foreign.lemma_at(j);
                assert(all.contains_key(names[j]));
            }
            if level.contains(x) {
                let b = choose|b: Seq<char>| #[trigger]
                    all.contains_key(b) && split(b, '/').len() > s.len() + 1 && s.push(
                        x,
                    ).is_prefix_of(split(b, '/'));
                foreign.lemma_position(b);
                let j = foreign.position(b);
                assert(names[j] == b);
            }
        }
        assert(dirs@.dom() =~= level);
    }
    ForeignLevel { links, dirs }
}

impl TreeportFs {
    /// The children of a directory that are local branches with a worktree.
    fn local_branches(&self, dirid: u64) -> (r: Vec<String>)
        requires
            self.state.wf(),
        ensures
            forall|x: Seq<char>| #[trigger]
                strings(r@).contains(x) <==> is_local(self.state@.tree, dirid, x),
    {
        let ghost tree = self.state@.tree;
        let mut out: Vec<String> = Vec::new();
        match self.state.get(dirid) {
            None => {
                assert(strings(out@) =~= Seq::empty());
            },
            Some(dir) => {
                let ghost all = dir.children.names();
                let ghost keep = |name: Seq<char>| is_local(tree, dirid, name);
                let mut i: usize = 0;
                proof {
                    assert(all.take(0) =~= Seq::empty());
                    reveal(Seq::filter);
                    assert(strings(out@) =~= all.take(0).filter(keep));
                }
                while i < dir.children.keys.len()
                    invariant
                        self.state.wf(),
                        tree == self.state@.tree,
                        tree.nodes.contains_key(dirid),
                        tree.nodes[dirid] == dir@,
                        dir.children.wf(),
                        all == dir.children.names(),
                        keep == (|name: Seq<char>| is_local(tree, dirid, name)),
                        i <= dir.children.keys@.len(),
                        strings(out@) == all.take(i as int).filter(keep),
                    decreases dir.children.keys@.len() - i,
                {
                    let id: u64 = dir.children.values[i];
                    proof {
                        dir.children.lemma_at(i as int);
                        lemma_filter_step(all, i as int, keep);
                    }
                    let local = match self.state.get(id) {
                        Some(n) => match &n.kind {
                            NodeKind::Worktree { .. } => true,
                            _ => false,
                        },
                        None => false,
                    };
                    if local {
                        let ghost before = strings(out@);
                        out.push(dir.children.keys[i].clone());
                        assert(strings(out@) =~= before.push(all[i as int]));
                    }
                    i = i + 1;
                }
                proof {
                    assert(all.take(all.len() as int) =~= all);
                    assert forall|x: Seq<char>| #[trigger] strings(out@).contains(x) <==> is_local(
                        tree,
                        dirid,
                        x,
                    ) by {
                        lemma_filter_contains(all, keep, x);
                        if is_local(tree, dirid, x) {
                            assert(dir.children@.contains_key(x));
                        }
                    }
                }
            },
        }
        out
    }

    /// The symlinks in a directory that lead to foreign worktrees that are
    /// gone.
    fn stale_names(&self, dirid: u64, links: &NameMap<FsPath>) -> (r: Vec<String>)
        requires
            self.state.wf(),
            links.wf(),
        ensures
            strings(r@) == stale_links(self.state@.tree, dirid, directories(links@)),
            forall|x: Seq<char>| #[trigger]
                strings(r@).contains(x) <==> is_stale_link(
                    self.state@.tree,
                    dirid,
                    x,
                    directories(links@),
                ),
    {
        let ghost tree = self.state@.tree;
        let ghost targets = directories(links@);
        let ghost keep = |name: Seq<char>| is_stale_link(tree, dirid, name, targets);
        let mut out: Vec<String> = Vec::new();
        match self.state.get(dirid) {
            None => {
                proof {
                    reveal(Seq::filter);
                    assert(strings(out@) =~= Seq::<Seq<char>>::empty().filter(keep));
                }
            },
            Some(dir) => {
                let ghost all = dir.children.names();
                let mut i: usize = 0;
                proof {
                    dir.children.lemma_names();
                    assert(all.take(0) =~= Seq::empty());
                    reveal(Seq::filter);
                    assert(strings(out@) =~= all.take(0).filter(keep));
                }
                while i < dir.children.keys.len()
                    invariant
                        self.state.wf(),
                        links.wf(),
                        tree == self.state@.tree,
                        targets == directories(links@),
                        tree.nodes.contains_key(dirid),
                        tree.nodes[dirid] == dir@,
                        dir.children.wf(),
                        all == dir.children.names(),
                        keep == (|name: Seq<char>| is_stale_link(tree, dirid, name, targets)),
                        i <= dir.children.keys@.len(),
                        strings(out@) == all.take(i as int).filter(keep),
                    decreases dir.children.keys@.len() - i,
                {
                    let id: u64 = dir.children.values[i];
                    proof {
                        dir.children.lemma_at(i as int);
                        lemma_filter_step(all, i as int, keep);
                    }
                    let link = match self.state.get(id) {
                        Some(n) => match &n.kind {
                            NodeKind::ForeignWorktree { .. } => true,
                            _ => false,
                        },
                        None => false,
                    };
                    if link && !links.contains_key(dir.children.keys[i].as_str()) {
                        let ghost before = strings(out@);
                        out.push(dir.children.keys[i].clone());
                        assert(strings(out@) =~= before.push(all[i as int]));
                    }
                    i = i + 1;
                }
                proof {
                    assert(all.take(all.len() as int) =~= all);
                    assert forall|x: Seq<char>| #[trigger] strings(out@).contains(x)
                        <==> is_stale_link(tree, dirid, x, targets) by {
                        lemma_filter_contains(all, keep, x);
                        if is_stale_link(tree, dirid, x, targets) {
                            assert(dir.children@.contains_key(x));
                        }
                    }
                }
            },
        }
        out
    }

    /// Enters one name of a directory of the `refs` subtree.
    fn enter_ref(
        &mut self,
        dirid: u64,
        name: &str,
        links: &NameMap<FsPath>,
        wall: NfsTime,
    ) -> (r: ListedEntry)
        requires
            old(self).state.sound(),
            old(self).state@.tree.next_id < u64::MAX,
            links.wf(),
        ensures
            only_state_changes(
                old(self),
                final(self),
                old(self).state.wf() && dirid < old(self).state@.tree.next_id,
            ),
            final(self).state@ == with_tree(old(self).state@, final(self).state@.tree),
            (final(self).state@.tree, r@) == ref_entered(
                old(self).state@.tree,
                old(self).owner,
                old(self).started,
                dirid,
                name@,
                directories(links@),
                wall,
            ),
    {
        let ghost before = self.state@.tree;
        match links.get(name) {
            Some(target) => {
                let kind = NodeKind::ForeignWorktree { target: target.clone() };
                proof {
                    if self.state.wf() && dirid < before.next_id {
                        self.state.lemma_wf();
                        before.lemma_with_child(dirid, name@, kind@, wall);
                    }
                }
                let id = self.state.add_child(dirid, name, kind.clone(), wall);
                self.state.set_kind(id, kind);
                ListedEntry {
                    fileid: id,
                    name: name.to_owned(),
                    attr: ListedAttr::Known(self.symlink_attr(id, target)),
                }
            },
            None => {
                let id = self.state.add_child(dirid, name, NodeKind::RefPath, wall);
                let fallback = self.virtual_dir_attr(id);
                let attr = match self.state.disk_path(id) {
                    Some(path) => ListedAttr::OnDisk { path, fallback: Some(fallback) },
                    None => ListedAttr::Known(fallback),
                };
                ListedEntry { fileid: id, name: name.to_owned(), attr }
            },
        }
    }

    /// Whether a place in the `refs` subtree is a directory: a branch that is
    /// checked out elsewhere is a symlink.
    pub fn readdir_is_dir(&self, context: &RefsContext, foreign: &NameMap<FsPath>) -> (r: Result<
        (),
        Status,
    >)
        requires
            foreign.wf(),
        ensures
            r == if directories(foreign@).contains_key(join(context@.segs, '/')) {
                Err::<(), Status>(Status::NotDir)
            } else {
                Ok(())
            },
    {
        if foreign.contains_key(branch_name(&context.segs).as_str()) {
            Err(Status::NotDir)
        } else {
            Ok(())
        }
    }

    /// The names in a directory of the `refs` subtree.
    fn collect_names(
        &self,
        dirid: u64,
        segs: &Vec<String>,
        trie: &BranchTrie,
        foreign: &NameMap<FsPath>,
        level: &ForeignLevel,
        stale: &Vec<String>,
    ) -> (r: Option<NameMap<bool>>)
        requires
            self.state.wf(),
            trie.wf(),
            level.links.wf(),
            level.dirs.wf(),
            directories(level.links@) == foreign_links(directories(foreign@), strings(segs@)),
            level.dirs@.dom() == foreign_dirs(directories(foreign@), strings(segs@)),
            forall|x: Seq<char>| #[trigger]
                strings(stale@).contains(x) <==> is_stale_link(
                    self.state@.tree,
                    dirid,
                    x,
                    directories(level.links@),
                ),
        ensures
            match r {
                Some(names) => {
                    &&& !is_nowhere(
                        self.state@.tree,
                        dirid,
                        strings(segs@),
                        trie@,
                        directories(foreign@),
                    )
                    &&& names.wf()
                    &&& names@.dom() == ref_names(
                        self.state@.tree,
                        dirid,
                        strings(segs@),
                        trie@,
                        directories(foreign@),
                    )
                },
                None => is_nowhere(
                    self.state@.tree,
                    dirid,
                    strings(segs@),
                    trie@,
                    directories(foreign@),
                ),
            },
    {
        let ghost tree = self.state@.tree;
        let ghost s = strings(segs@);
        let ghost all = directories(foreign@);
        let mut names: NameMap<bool> = NameMap::new();
        let known = match trie.node(segs.as_slice()) {
            Some(n) => {
                add_names(&mut names, &n.children.keys);
                proof {
                    assert(strings(n.children.keys@) =~= n.children.names());
                    assert forall|x: Seq<char>| #[trigger] names@.contains_key(x) <==> is_next_step(
                        trie@,
                        s,
                        x,
                    ) by {
                        assert(n.children@.contains_key(x) <==> n.children.names().contains(x));
                    }
                }
                true
            },
            None => {
                proof {
                    assert forall|x: Seq<char>| !is_next_step(trie@, s, x) by {
                        if is_next_step(trie@, s, x) {
                            let b = choose|b: Seq<Seq<char>>| #[trigger]
                                trie@.contains(b) && s.push(x).is_prefix_of(b);
                            lemma_next_step(b, s, x);
                            assert(is_ref_path(trie@, s));
                        }
                    }
                }
                false
            },
        };
        assert(forall|x: Seq<char>| #[trigger]
            names@.contains_key(x) <==> is_next_step(trie@, s, x));
        let local = self.local_branches(dirid);
        let no_links = level.links.is_empty();
        let no_dirs = level.dirs.is_empty();
        proof {
            if local@.len() > 0 {
                assert(strings(local@)[0] == local@[0]@);
                assert(strings(local@).contains(local@[0]@));
                assert(is_local(tree, dirid, local@[0]@));
            } else {
                assert forall|x: Seq<char>| !#[trigger] is_local(tree, dirid, x) by {
                    assert(!strings(local@).contains(x));
                }
            }
            if no_links {
                assert(foreign_links(all, s) =~= Map::empty());
            } else {
                level.links.lemma_at(0);
                assert(foreign_links(all, s).contains_key(level.links.keys@[0]@));
            }
            if no_dirs {
                assert(foreign_dirs(all, s) =~= Set::empty());
            } else {
                level.dirs.lemma_at(0);
                assert(foreign_dirs(all, s).contains(level.dirs.keys@[0]@));
            }
        }
        if !known && local.is_empty() && no_links && no_dirs {
            return None;
        }
        add_names(&mut names, &local);
        add_names(&mut names, &level.dirs.keys);
        add_names(&mut names, &level.links.keys);
        remove_names(&mut names, stale);
        proof {
            assert(strings(level.dirs.keys@) =~= level.dirs.names());
            assert(strings(level.links.keys@) =~= level.links.names());
            let want = ref_names(tree, dirid, s, trie@, all);
            assert forall|x: Seq<char>| #[trigger] names@.contains_key(x) <==> want.contains(x) by {
                assert(level.dirs@.contains_key(x) <==> level.dirs.names().contains(x));
                assert(level.links@.contains_key(x) <==> level.links.names().contains(x));
                assert(foreign_dirs(all, s).contains(x) <==> level.dirs@.contains_key(x));
                assert(directories(level.links@).contains_key(x) <==> level.links@.contains_key(x));
                assert(strings(local@).contains(x) <==> is_local(tree, dirid, x));
                assert(strings(stale@).contains(x) <==> is_stale_link(
                    tree,
                    dirid,
                    x,
                    directories(level.links@),
                ));
            }
            assert(names@.dom() =~= want);
        }
        Some(names)
    }

    /// Lists a directory of the `refs` subtree, given the foreign worktrees
    /// and the branches of the repository.
    pub fn readdir_refs(
        &mut self,
        dirid: u64,
        context: &RefsContext,
        foreign: &NameMap<FsPath>,
        trie: &BranchTrie,
        wall: NfsTime,
    ) -> (r: RefsListing)
        requires
            old(self).state.wf(),
            foreign.wf(),
            trie.wf(),
        ensures
            only_state_changes(
                old(self),
                final(self),
                !(r is Entries) || dirid < old(self).state@.tree.next_id,
            ),
            r is Entries ==> ({
                let names = ref_names(
                    old(self).state@.tree,
                    dirid,
                    context@.segs,
                    trie@,
                    directories(foreign@),
                );
                is_in_order(in_order(names), names)
            }),
            (final(self).state@, r@) == refs_listed(
                old(self).state@,
                old(self).owner,
                old(self).started,
                dirid,
                context@,
                directories(foreign@),
                trie@,
                wall,
            ),
    {
        let is_branch = match trie.node(context.segs.as_slice()) {
            Some(n) => n.is_branch,
            None => false,
        };
        if is_branch {
            return RefsListing::Materialize(branch_name(&context.segs));
        }
        let ghost before = self.state@;
        let ghost s = context@.segs;
        let level = foreign_level(foreign, &context.segs);
        let ghost links = directories(level.links@);
        let stale = self.stale_names(dirid, &level.links);
        let names = match self.collect_names(
            dirid,
            &context.segs,
            trie,
            foreign,
            &level,
            &stale,
        ) {
            Some(names) => names,
            None => {
                return RefsListing::Fail(Status::NoEnt);
            },
        };
        let ghost all = names.names();
        proof {
            names.lemma_names();
        }
        if names.keys.len() as u64 > self.state.ids_left() {
            return RefsListing::Fail(Status::Io);
        }
        let ghost gone = strings(stale@);
        let mut k: usize = 0;
        assert(gone.take(0) =~= Seq::empty());
        while k < stale.len()
            invariant
                k <= stale@.len(),
                gone == strings(stale@),
                only_state_differs(old(self), self),
                self.state@ == with_tree(before, self.state@.tree),
                self.state@.tree.next_id == before.tree.next_id,
                self.state@.tree == dropped(before.tree, dirid, gone.take(k as int), wall),
            decreases stale@.len() - k,
        {
            proof {
                assert(gone.take(k + 1).drop_last() =~= gone.take(k as int));
                assert(gone.take(k + 1).last() == stale@[k as int]@);
            }
            self.state.remove_child(dirid, stale[k].as_str(), wall);
            k = k + 1;
        }
        assert(gone.take(gone.len() as int) =~= gone);
        let ghost clean = self.state@.tree;
        let mut out: Vec<ListedEntry> = Vec::new();
        let mut i: usize = 0;
        proof {
            assert(all.take(0) =~= Seq::empty());
            assert(listed_views(out@) =~= Seq::empty());
        }
        while i < names.keys.len()
            invariant
                names.wf(),
                level.links.wf(),
                links == directories(level.links@),
                all == names.names(),
                i <= names.keys@.len(),
                names.keys@.len() <= u64::MAX - clean.next_id,
                clean.next_id <= self.state@.tree.next_id <= clean.next_id + i,
                only_state_changes(old(self), self, dirid < clean.next_id),
                self.state@ == with_tree(before, self.state@.tree),
                (self.state@.tree, listed_views(out@)) == refs_entered(
                    clean,
                    self.owner,
                    self.started,
                    dirid,
                    all.take(i as int),
                    links,
                    wall,
                ),
            decreases names.keys@.len() - i,
        {
            proof {
                assert(all.take(i + 1).drop_last() =~= all.take(i as int));
                assert(all.take(i + 1).last() == names.keys@[i as int]@);
            }
            let ghost so_far = listed_views(out@);
            let entry = self.enter_ref(dirid, names.keys[i].as_str(), &level.links, wall);
            let ghost e = entry@;
            out.push(entry);
            assert(listed_views(out@) =~= so_far.push(e));
            i = i + 1;
        }
        assert(all.take(all.len() as int) =~= all);
        RefsListing::Entries(out)
    }
}

} // verus!
