//! What a listing comes to, in terms of the tree, the branches and what stands
//! on disk.

use crate::action::{GitErrorView, IoErrorKind};
use crate::cache_laws::{
    age, is_anything_told, knows_absence, knows_branches, knows_worktrees,
    law_told_branches_are_known, told,
};
use crate::caches::{foreign_in, known_foreign, materialize_status, RefreshView};
use crate::changes::{attributes, branch_made, is_refs_dir, AttrStepView};
use crate::config::Config;
use crate::fspath::path_join;
use crate::fs_laws::lemma_files_entered;
use crate::lookup_laws::{are_known, hangs, law_names_are_spelled, same_memory};
use crate::names::{
    ascending, bytes_before, in_order, lemma_ascending_unique, lemma_in_order,
    lemma_names_are_ordered, name_before, no_later, sorted,
};
use crate::need::{EventView, NeedView};
use crate::node::{ForeignView, StateView};
use crate::node_laws::law_places;
use crate::protocol::{
    io_status, lemma_upto, name_in, numbers_are_distinct, page, EntryView, FileAttr, FileType, Status,
};
use crate::readdir::{
    children_in_order, dir_entries, dropped, file_names, files_entered, foreign_dirs, foreign_links,
    is_local, is_nowhere, is_stale_link, lemma_filter_contains, lemma_next_step, ref_entered,
    ref_names, refs_entered, refs_listed, settled_entries, shown, shows_in_root, stale_links,
    ListedAttrView, ListedView, RefsListingView,
};
use crate::serve_edit::{mkdir_continued, MkdirNextView, MkdirStageView};
use crate::serve_list::{
    names_have_order, readdir_continued, readdir_started, wanted_paths, PageRequest, ReaddirNextView,
    ReaddirStageView,
};
use crate::task::RefsTaskView;
use crate::text::{join, lemma_join_split, split, utf8};
use crate::tree::{ContextView, KindView, NfsTime, TreeView};
use crate::trie::{is_next_step, is_ref_path};
use vstd::prelude::*;

verus! {

/// Whether a path goes on past a place, by a name.
pub open spec fn goes_on(path: Seq<Seq<char>>, segs: Seq<Seq<char>>, name: Seq<char>) -> bool {
    &&& segs.len() < path.len()
    &&& path[segs.len() as int] == name
    &&& forall|i: int| 0 <= i < segs.len() ==> #[trigger] path[i] == segs[i]
}

/// Whether the branch that is checked out elsewhere is the one at a name.
pub open spec fn is_foreign(
    foreign: Map<Seq<char>, Seq<u8>>,
    segs: Seq<Seq<char>>,
    name: Seq<char>,
) -> bool {
    exists|f: Seq<char>| #[trigger] foreign.contains_key(f) && split(f, '/') == segs.push(name)
}

/// Whether a name is to be listed at a place in the `refs` subtree: a branch
/// goes on by it, or a worktree hangs there under it, or a branch that is
/// checked out elsewhere goes on by it; and what hangs there is not the symlink
/// to a worktree that is gone.
pub open spec fn is_listed(
    tree: TreeView,
    dirid: u64,
    segs: Seq<Seq<char>>,
    branches: Set<Seq<Seq<char>>>,
    foreign: Map<Seq<char>, Seq<u8>>,
    name: Seq<char>,
) -> bool {
    &&& {
        ||| exists|b: Seq<Seq<char>>| #[trigger] branches.contains(b) && goes_on(b, segs, name)
        ||| tree.child(dirid, name) matches Some(id) && tree.kind(id) matches Some(
            KindView::Worktree { .. },
        )
        ||| exists|f: Seq<char>| #[trigger]
            foreign.contains_key(f) && goes_on(split(f, '/'), segs, name)
    }
    &&& {
        ||| is_foreign(foreign, segs, name)
        ||| !(tree.child(dirid, name) matches Some(id) && tree.kind(id) matches Some(
            KindView::ForeignWorktree { .. },
        ))
    }
}

/// Whether a list holds the names that are to be listed, in their order.
pub open spec fn are_listed(
    names: Seq<Seq<char>>,
    tree: TreeView,
    dirid: u64,
    segs: Seq<Seq<char>>,
    branches: Set<Seq<Seq<char>>>,
    foreign: Map<Seq<char>, Seq<u8>>,
) -> bool {
    &&& ascending(names)
    &&& forall|name: Seq<char>| #[trigger]
        names.contains(name) <==> is_listed(tree, dirid, segs, branches, foreign, name)
}

proof fn lemma_goes_on(path: Seq<Seq<char>>, segs: Seq<Seq<char>>, name: Seq<char>)
    ensures
        goes_on(path, segs, name) <==> segs.push(name).is_prefix_of(path),
        goes_on(path, segs, name) ==> segs.is_prefix_of(path) && (path.len() == segs.len() + 1
            <==> path == segs.push(name)),
{
    lemma_next_step(path, segs, name);
    if segs.is_prefix_of(path) {
        assert forall|i: int| 0 <= i < segs.len() implies #[trigger] path[i] == segs[i] by {
            assert(path.subrange(0, segs.len() as int)[i] == path[i]);
        }
    }
    if goes_on(path, segs, name) {
        assert(segs =~= path.subrange(0, segs.len() as int));
    }
}

proof fn lemma_listed_name(
    tree: TreeView,
    dirid: u64,
    segs: Seq<Seq<char>>,
    branches: Set<Seq<Seq<char>>>,
    foreign: Map<Seq<char>, Seq<u8>>,
    name: Seq<char>,
)
    ensures
        ref_names(tree, dirid, segs, branches, foreign).contains(name) <==> is_listed(
            tree,
            dirid,
            segs,
            branches,
            foreign,
            name,
        ),
        foreign_links(foreign, segs).contains_key(name) <==> is_foreign(foreign, segs, name),
{
    if is_next_step(branches, segs, name) {
        let b = choose|b: Seq<Seq<char>>| #[trigger]
            branches.contains(b) && segs.push(name).is_prefix_of(b);
        lemma_goes_on(b, segs, name);
    }
    if exists|b: Seq<Seq<char>>| #[trigger] branches.contains(b) && goes_on(b, segs, name) {
        let b = choose|b: Seq<Seq<char>>| #[trigger]
            branches.contains(b) && goes_on(b, segs, name);
        lemma_goes_on(b, segs, name);
        assert(is_next_step(branches, segs, name));
    }
    if foreign_dirs(foreign, segs).contains(name) {
        let f = choose|f: Seq<char>| #[trigger]
            foreign.contains_key(f) && split(f, '/').len() > segs.len() + 1 && segs.push(
                name,
            ).is_prefix_of(split(f, '/'));
        lemma_goes_on(split(f, '/'), segs, name);
    }
    if is_foreign(foreign, segs, name) {
        let f = choose|f: Seq<char>| #[trigger]
            foreign.contains_key(f) && split(f, '/') == segs.push(name);
        assert(segs.push(name) =~= split(f, '/').subrange(0, segs.len() + 1int));
        lemma_goes_on(split(f, '/'), segs, name);
    }
    if exists|f: Seq<char>| #[trigger] foreign.contains_key(f) && goes_on(split(f, '/'), segs, name) {
        let f = choose|f: Seq<char>| #[trigger]
            foreign.contains_key(f) && goes_on(split(f, '/'), segs, name);
        lemma_goes_on(split(f, '/'), segs, name);
        assert(foreign_dirs(foreign, segs).contains(name) || is_foreign(foreign, segs, name));
    }
}

proof fn lemma_listed_names(
    names: Seq<Seq<char>>,
    tree: TreeView,
    dirid: u64,
    segs: Seq<Seq<char>>,
    branches: Set<Seq<Seq<char>>>,
    foreign: Map<Seq<char>, Seq<u8>>,
)
    requires
        are_listed(names, tree, dirid, segs, branches, foreign),
    ensures
        in_order(ref_names(tree, dirid, segs, branches, foreign)) == names,
{
    let set = ref_names(tree, dirid, segs, branches, foreign);
    assert forall|x: Seq<char>| #[trigger] names.contains(x) <==> set.contains(x) by {
        lemma_listed_name(tree, dirid, segs, branches, foreign, x);
    }
    lemma_in_order(names, set);
}

proof fn lemma_dropped(tree: TreeView, dirid: u64, names: Seq<Seq<char>>, wall: NfsTime)
    requires
        tree.wf(),
        tree.nodes.contains_key(dirid),
        forall|i: int|
            0 <= i < names.len() ==> tree.child(dirid, #[trigger] names[i]) != Some(dirid),
    ensures
        ({
            let after = dropped(tree, dirid, names, wall);
            &&& after.wf()
            &&& after.kind(dirid) == tree.kind(dirid)
            &&& after.next_id == tree.next_id
            &&& forall|n: Seq<char>| #[trigger]
                after.child(dirid, n) == if names.contains(n) {
                    None
                } else {
                    tree.child(dirid, n)
                }
            &&& forall|n: Seq<char>|
                (#[trigger] after.child(dirid, n)) matches Some(id) ==> after.kind(id) == tree.kind(
                    id,
                )
        }),
    decreases names.len(),
{
    if names.len() > 0 {
        let shorter = names.drop_last();
        assert forall|i: int| 0 <= i < shorter.len() implies tree.child(
            dirid,
            #[trigger] shorter[i],
        ) != Some(dirid) by {
            assert(shorter[i] == names[i]);
        }
        lemma_dropped(tree, dirid, shorter, wall);
        let before = dropped(tree, dirid, shorter, wall);
        let last = names.last();
        assert(names[names.len() - 1] == last);
        let after = before.without_child(dirid, last, wall);
        before.lemma_without_child(dirid, last, wall);
        assert(before.child(dirid, last) != Some(dirid));
        assert(before.nodes.contains_key(dirid));
        assert(after.nodes.contains_key(dirid));
        assert forall|n: Seq<char>| #[trigger] after.child(dirid, n) == if names.contains(n) {
            None
        } else {
            tree.child(dirid, n)
        } by {
            assert(names =~= shorter.push(last));
            assert(names.contains(n) <==> shorter.contains(n) || n == last) by {
                if shorter.contains(n) {
                    let i = choose|i: int| 0 <= i < shorter.len() && shorter[i] == n;
                    assert(names[i] == n);
                }
                if names.contains(n) && n != last {
                    let i = choose|i: int| 0 <= i < names.len() && names[i] == n;
                    assert(shorter[i] == n);
                }
            }
        }
        assert forall|n: Seq<char>|
            (#[trigger] after.child(dirid, n)) matches Some(id) implies after.kind(
            after.child(dirid, n).unwrap(),
        ) == tree.kind(after.child(dirid, n).unwrap()) by {
            let id = after.child(dirid, n).unwrap();
            assert(n != last);
            assert(before.child(dirid, n) == Some(id));
            assert(before.links(dirid, n));
            if before.child(dirid, last) is Some {
                assert(before.links(dirid, last));
            }
        }
    }
}

/// What a name of a `refs` directory has become once it is listed.
pub open spec fn is_entered(
    tree: TreeView,
    owner: (u32, u32),
    started: NfsTime,
    after: TreeView,
    dirid: u64,
    links: Map<Seq<char>, Seq<u8>>,
    entry: ListedView,
    name: Seq<char>,
) -> bool {
    let id = entry.fileid;
    &&& entry.name == name
    &&& id != dirid && after.kind(id) != Some(KindView::Disk) && (links.contains_key(name) || !(
    after.kind(id) matches Some(KindView::ForeignWorktree { .. }))) ==> attributes(
        after,
        owner,
        started,
        id,
    ) == match entry.attr {
        ListedAttrView::Known(attr) => AttrStepView::Done(Ok(attr)),
        ListedAttrView::OnDisk { path, fallback } => AttrStepView::OnDisk(path),
    }
    &&& after.child(dirid, name) == Some(id)
    &&& tree.child(dirid, name) is Some ==> tree.child(dirid, name) == Some(id)
    &&& tree.child(dirid, name) is None ==> !tree.nodes.contains_key(id)
    &&& if links.contains_key(name) {
        &&& after.kind(id) == Some(KindView::ForeignWorktree { target: links[name] })
        &&& entry.attr matches ListedAttrView::Known(attr) && {
            &&& attr.ftype == FileType::Link
            &&& attr.fileid == id
            &&& attr.size == links[name].len() as u64
        }
    } else {
        &&& after.kind(id) == if tree.child(dirid, name) is Some {
            tree.kind(id)
        } else {
            Some(KindView::RefPath)
        }
        &&& match entry.attr {
            ListedAttrView::Known(attr) => {
                &&& attr.ftype == FileType::Directory
                &&& attr.fileid == id
            },
            ListedAttrView::OnDisk { path, fallback } => {
                &&& fallback matches Some(attr) && attr.ftype == FileType::Directory
                    && attr.fileid == id
                &&& after.kind(id) matches Some(kind) && (kind is Worktree || kind is Disk)
                &&& after.kind(id) matches Some(KindView::Worktree { root }) ==> path == root
            },
        }
        &&& after.kind(id) matches Some(KindView::Worktree { .. }) ==> entry.attr is OnDisk
    }
}

#[verifier::rlimit(40)]
proof fn lemma_entered(
    tree: TreeView,
    owner: (u32, u32),
    started: NfsTime,
    dirid: u64,
    names: Seq<Seq<char>>,
    links: Map<Seq<char>, Seq<u8>>,
    wall: NfsTime,
)
    requires
        tree.wf(),
        tree.nodes.contains_key(dirid),
        tree.next_id + names.len() <= u64::MAX,
        names.no_duplicates(),
    ensures
        ({
            let (after, entries) = refs_entered(tree, owner, started, dirid, names, links, wall);
            &&& after.wf()
            &&& after.nodes.contains_key(dirid)
            &&& tree.next_id <= after.next_id <= tree.next_id + names.len()
            &&& entries.len() == names.len()
            &&& forall|i: int|
                0 <= i < names.len() ==> is_entered(
                    tree,
                    owner,
                    started,
                    after,
                    dirid,
                    links,
                    #[trigger] entries[i],
                    names[i],
                )
            &&& forall|n: Seq<char>|
                !names.contains(n) ==> {
                    &&& #[trigger] after.child(dirid, n) == tree.child(dirid, n)
                    &&& tree.child(dirid, n) matches Some(id) ==> after.kind(id) == tree.kind(id)
                }
        }),
    decreases names.len(),
{
    if names.len() > 0 {
        let shorter = names.drop_last();
        assert forall|i: int, j: int| 0 <= i < j < shorter.len() implies shorter[i] != shorter[j] by {
            assert(shorter[i] == names[i] && shorter[j] == names[j]);
        }
        lemma_entered(tree, owner, started, dirid, shorter, links, wall);
        let (before, entries) = refs_entered(tree, owner, started, dirid, shorter, links, wall);
        let name = names.last();
        assert(names[names.len() - 1] == name);
        assert(!shorter.contains(name)) by {
            if shorter.contains(name) {
                let i = choose|i: int| 0 <= i < shorter.len() && shorter[i] == name;
                assert(names[i] == name);
            }
        }
        assert(before.child(dirid, name) == tree.child(dirid, name));
        let id = before.child_id(dirid, name);
        assert(dirid < before.next_id);
        assert(!before.nodes.contains_key(before.next_id));
        assert(!tree.nodes.contains_key(before.next_id));
        let kind = if links.contains_key(name) {
            KindView::ForeignWorktree { target: links[name] }
        } else {
            KindView::RefPath
        };
        before.lemma_with_child(dirid, name, kind, wall);
        let added = before.with_child(dirid, name, kind, wall);
        added.lemma_with_kind(id, kind);
        let (after, entry) = ref_entered(before, owner, started, dirid, name, links, wall);
        let all = refs_entered(tree, owner, started, dirid, names, links, wall).1;
        assert(all == entries.push(entry));
        assert(after.nodes.contains_key(dirid));
        assert forall|n: Seq<char>| n != name implies {
            &&& #[trigger] after.child(dirid, n) == before.child(dirid, n)
            &&& before.child(dirid, n) matches Some(other) ==> after.kind(other) == before.kind(
                other,
            ) && (other != dirid ==> after.nodes[other].mtime == before.nodes[other].mtime)
        } by {
            if before.child(dirid, n) is Some {
                assert(before.links(dirid, n));
                if before.child(dirid, name) is Some {
                    assert(before.links(dirid, name));
                }
            }
        }
        law_places(after, id);
        assert(is_entered(tree, owner, started, after, dirid, links, entry, name));
        assert forall|i: int| 0 <= i < names.len() implies is_entered(
            tree,
            owner,
            started,
            after,
            dirid,
            links,
            #[trigger] all[i],
            names[i],
        ) by {
            if i < shorter.len() {
                assert(all[i] == entries[i]);
                assert(shorter[i] == names[i]);
                assert(is_entered(tree, owner, started, before, dirid, links, entries[i], names[i]));
                assert(names[i] != name);
                assert(after.child(dirid, names[i]) == before.child(dirid, names[i]));
                law_places(after, entries[i].fileid);
                law_places(before, entries[i].fileid);
            }
        }
        assert forall|n: Seq<char>| !names.contains(n) implies {
            &&& #[trigger] after.child(dirid, n) == tree.child(dirid, n)
            &&& tree.child(dirid, n) matches Some(other) ==> after.kind(other) == tree.kind(other)
        } by {
            assert(n != name);
            assert(!shorter.contains(n)) by {
                if shorter.contains(n) {
                    let i = choose|i: int| 0 <= i < shorter.len() && shorter[i] == n;
                    assert(names[i] == n);
                }
            }
            assert(after.child(dirid, n) == before.child(dirid, n));
        }
    }
}

/// The attributes of a listed entry: those it came with, or what was found for
/// it, or else its fallback.
pub open spec fn shown_attr(entry: ListedView, found: Option<FileAttr>) -> Option<FileAttr> {
    if entry.attr is Known {
        Some(entry.attr->Known_0)
    } else if found is Some {
        found
    } else {
        entry.attr->fallback
    }
}

/// What was found for an entry, if anything.
pub open spec fn found_at(found: Seq<Option<FileAttr>>, i: int) -> Option<FileAttr> {
    if 0 <= i < found.len() {
        found[i]
    } else {
        None
    }
}

/// A listing holds, in their order, the entries for which there are attributes,
/// and no others.
pub proof fn law_entries_with_attributes_are_shown(
    entries: Seq<ListedView>,
    found: Seq<Option<FileAttr>>,
)
    ensures
        ({
            let list = settled_entries(entries, found);
            &&& list.len() <= entries.len()
            &&& (forall|i: int|
                0 <= i < entries.len() ==> shown_attr(#[trigger] entries[i], found_at(found, i)) is Some)
                ==> list.len() == entries.len() && forall|i: int|
                0 <= i < entries.len() ==> #[trigger] list[i] == (EntryView {
                    fileid: entries[i].fileid,
                    name: entries[i].name,
                    attr: shown_attr(entries[i], found_at(found, i)).unwrap(),
                })
            &&& forall|i: int|
                0 <= i < entries.len() && shown_attr(
                    #[trigger] entries[i],
                    found_at(found, i),
                ) is Some ==> list.contains(
                    EntryView {
                        fileid: entries[i].fileid,
                        name: entries[i].name,
                        attr: shown_attr(entries[i], found_at(found, i)).unwrap(),
                    },
                )
            &&& forall|k: int|
                0 <= k < list.len() ==> exists|i: int|
                    {
                        &&& 0 <= i < entries.len()
                        &&& (#[trigger] entries[i]).name == (#[trigger] list[k]).name
                        &&& entries[i].fileid == list[k].fileid
                        &&& shown_attr(entries[i], found_at(found, i)) == Some(list[k].attr)
                    }
        }),
    decreases entries.len(),
{
    if entries.len() > 0 {
        let shorter = entries.drop_last();
        law_entries_with_attributes_are_shown(shorter, found);
        let before = settled_entries(shorter, found);
        let list = settled_entries(entries, found);
        let n = entries.len() - 1;
        let attr = shown_attr(entries[n], found_at(found, n));
        if (forall|i: int|
            0 <= i < entries.len() ==> shown_attr(#[trigger] entries[i], found_at(found, i)) is Some) {
            assert forall|i: int| 0 <= i < shorter.len() implies shown_attr(
                #[trigger] shorter[i],
                found_at(found, i),
            ) is Some by {
                assert(shorter[i] == entries[i]);
            }
            assert(shown_attr(entries[n], found_at(found, n)) is Some);
            assert forall|i: int| 0 <= i < entries.len() implies #[trigger] list[i] == (EntryView {
                fileid: entries[i].fileid,
                name: entries[i].name,
                attr: shown_attr(entries[i], found_at(found, i)).unwrap(),
            }) by {
                if i < n {
                    assert(list[i] == before[i]);
                    assert(shorter[i] == entries[i]);
                }
            }
        }
        assert forall|i: int|
            0 <= i < entries.len() && shown_attr(
                #[trigger] entries[i],
                found_at(found, i),
            ) is Some implies list.contains(
            EntryView {
                fileid: entries[i].fileid,
                name: entries[i].name,
                attr: shown_attr(entries[i], found_at(found, i)).unwrap(),
            },
        ) by {
            let e = EntryView {
                fileid: entries[i].fileid,
                name: entries[i].name,
                attr: shown_attr(entries[i], found_at(found, i)).unwrap(),
            };
            if i < n {
                assert(shorter[i] == entries[i]);
                assert(before.contains(e));
                let k = choose|k: int| 0 <= k < before.len() && before[k] == e;
                assert(list[k] == e);
            } else {
                assert(list[before.len() as int] == e);
            }
        }
        assert forall|k: int| 0 <= k < list.len() implies exists|i: int|
            {
                &&& 0 <= i < entries.len()
                &&& (#[trigger] entries[i]).name == (#[trigger] list[k]).name
                &&& entries[i].fileid == list[k].fileid
                &&& shown_attr(entries[i], found_at(found, i)) == Some(list[k].attr)
            } by {
            if k < before.len() {
                assert(list[k] == before[k]);
                let i = choose|i: int|
                    {
                        &&& 0 <= i < shorter.len()
                        &&& (#[trigger] shorter[i]).name == before[k].name
                        &&& shorter[i].fileid == before[k].fileid
                        &&& shown_attr(shorter[i], found_at(found, i)) == Some(before[k].attr)
                    };
                assert(entries[i] == shorter[i]);
            } else {
                assert(entries[n].name == list[k].name);
            }
        }
    }
}

/// Whether a place in the `refs` subtree is to be listed name by name: it is a
/// virtual directory, it is known what leads there, and it is no branch itself,
/// neither of the remote nor one that is checked out elsewhere.
pub open spec fn is_virtual_place(
    state: StateView,
    dirid: u64,
    context: ContextView,
    foreign: Map<Seq<char>, Seq<u8>>,
    branches: Set<Seq<Seq<char>>>,
) -> bool {
    &&& state.tree.wf()
    &&& state.tree.kind(dirid) matches Some(kind) && (kind is RefsRoot || kind is RefPath)
    &&& state.tree.refs_context(dirid) == Some(context)
    &&& !foreign.contains_key(join(context.segs, '/'))
    &&& !branches.contains(context.segs)
}

/// Whether an entry of a listing tells of a name in a `refs` directory what it
/// has become: a symlink to where the branch is checked out elsewhere; or what
/// hung there before, a worktree or a directory; or else a new directory. Its
/// attributes are those that the name has by itself, or that were found on disk.
pub open spec fn tells_of(
    tree: TreeView,
    owner: (u32, u32),
    started: NfsTime,
    found: Option<FileAttr>,
    after: TreeView,
    dirid: u64,
    segs: Seq<Seq<char>>,
    foreign: Map<Seq<char>, Seq<u8>>,
    entry: EntryView,
    name: Seq<char>,
) -> bool {
    let id = entry.fileid;
    let was_link = tree.child(dirid, name) matches Some(old) && tree.kind(old) matches Some(
        KindView::ForeignWorktree { .. },
    );
    &&& entry.name == name
    &&& after.child(dirid, name) == Some(id)
    &&& tree.child(dirid, name) is Some ==> tree.child(dirid, name) == Some(id)
    &&& forall|f: Seq<char>| #[trigger]
        foreign.contains_key(f) && split(f, '/') == segs.push(name) ==> {
            &&& after.kind(id) == Some(KindView::ForeignWorktree { target: foreign[f] })
            &&& entry.attr.ftype == FileType::Link
            &&& entry.attr.fileid == id
        }
    &&& id != dirid ==> (attributes(after, owner, started, id) matches AttrStepView::Done(Ok(attr))
        ==> entry.attr == attr)
    &&& (after.kind(id) matches Some(KindView::Worktree { .. })) && found is Some ==> entry.attr
        == found.unwrap()
    &&& !is_foreign(foreign, segs, name) ==> {
        &&& !was_link
        &&& tree.child(dirid, name) is Some ==> after.kind(id) == tree.kind(id)
        &&& tree.child(dirid, name) is None ==> after.kind(id) == Some(KindView::RefPath)
        &&& after.kind(id) == Some(KindView::RefPath) ==> entry.attr.ftype == FileType::Directory
            && entry.attr.fileid == id
    }
}

/// A directory of the `refs` subtree lists exactly the names that branches go
/// on by, that worktrees hang there under, and that branches checked out
/// elsewhere go on by, in their order, each under the number that a lookup of
/// it finds.
#[verifier::rlimit(40)]
pub proof fn law_refs_are_listed(
    cfg: &Config,
    state: StateView,
    owner: (u32, u32),
    started: NfsTime,
    request: PageRequest,
    now: u128,
    wall: NfsTime,
    context: ContextView,
    foreign: Map<Seq<char>, Seq<u8>>,
    branches: Set<Seq<Seq<char>>>,
    names: Seq<Seq<char>>,
    found: Seq<Option<FileAttr>>,
    later: u128,
    wall2: NfsTime,
)
    requires
        is_virtual_place(state, request.dirid, context, foreign, branches),
        are_known(cfg, state, (context.org, context.repo), foreign, branches, now),
        are_listed(names, state.tree, request.dirid, context.segs, branches, foreign),
        names.len() > 0 || context.segs.len() == 0,
        state.tree.next_id + names.len() <= u64::MAX,
        request.start_after == 0,
        request.max_entries == 0,
    ensures
        ({
            let (after, next) = readdir_started(cfg, state, owner, started, request, now, wall);
            &&& same_memory(state, after)
            &&& next matches ReaddirNextView::Wait(NeedView::Attributes(wanted), stage) && {
                let (done, end) = readdir_continued(
                    cfg,
                    after,
                    owner,
                    started,
                    stage,
                    EventView::Attributes(found),
                    later,
                    wall2,
                );
                &&& done == after
                &&& end matches ReaddirNextView::Done(Ok((list, true))) && {
                    &&& list.len() == names.len()
                    &&& wanted.len() == names.len()
                    &&& forall|i: int|
                        0 <= i < names.len() ==> match after.tree.kind((#[trigger] list[i]).fileid) {
                            Some(KindView::Worktree { root }) => wanted[i] == Some(
                                (list[i].fileid, root),
                            ),
                            Some(KindView::Disk) => true,
                            _ => wanted[i] is None,
                        }
                    &&& forall|i: int|
                        0 <= i < names.len() ==> tells_of(
                            state.tree,
                            owner,
                            started,
                            found_at(found, i),
                            after.tree,
                            request.dirid,
                            context.segs,
                            foreign,
                            #[trigger] list[i],
                            names[i],
                        )
                }
            }
        }),
{
    let tree = state.tree;
    let dirid = request.dirid;
    let segs = context.segs;
    let links = foreign_links(foreign, segs);
    lemma_listed_names(names, tree, dirid, segs, branches, foreign);
    lemma_somewhere(names, tree, dirid, segs, branches, foreign);
    let stale = stale_links(tree, dirid, links);
    let all = children_in_order(tree, dirid);
    let is_stale = |name: Seq<char>| is_stale_link(tree, dirid, name, links);
    assert forall|i: int| 0 <= i < stale.len() implies tree.child(dirid, #[trigger] stale[i])
        != Some(dirid) by {
        lemma_filter_contains(all, is_stale, stale[i]);
        assert(stale.contains(stale[i]));
        assert(is_stale(stale[i]));
    }
    lemma_dropped(tree, dirid, stale, wall);
    let less = dropped(tree, dirid, stale, wall);
    assert forall|n: Seq<char>| names.contains(n) implies !#[trigger] stale.contains(n) by {
        lemma_filter_contains(all, is_stale, n);
        lemma_listed_name(tree, dirid, segs, branches, foreign, n);
    }
    lemma_no_duplicates(names);
    lemma_entered(less, owner, started, dirid, names, links, wall);
    let (last, entries) = refs_entered(less, owner, started, dirid, names, links, wall);
    law_entries_with_attributes_are_shown(entries, found);
    assert forall|i: int| 0 <= i < entries.len() implies shown_attr(
        #[trigger] entries[i],
        found_at(found, i),
    ) is Some by {
        assert(is_entered(less, owner, started, last, dirid, links, entries[i], names[i]));
    }
    let list = settled_entries(entries, found);
    let wanted = wanted_paths(entries);
    assert forall|i: int| 0 <= i < names.len() implies match last.kind(
        (#[trigger] list[i]).fileid,
    ) {
        Some(KindView::Worktree { root }) => wanted[i] == Some((list[i].fileid, root)),
        Some(KindView::Disk) => true,
        _ => wanted[i] is None,
    } by {
        assert(is_entered(less, owner, started, last, dirid, links, entries[i], names[i]));
    }
    assert forall|i: int| 0 <= i < names.len() implies tells_of(
        tree,
        owner,
        started,
        found_at(found, i),
        last,
        dirid,
        segs,
        foreign,
        #[trigger] list[i],
        names[i],
    ) by {
        let name = names[i];
        let id = entries[i].fileid;
        assert(is_entered(less, owner, started, last, dirid, links, entries[i], name));
        assert(names.contains(name));
        assert(!stale.contains(name));
        assert(less.child(dirid, name) == tree.child(dirid, name));
        lemma_listed_name(tree, dirid, segs, branches, foreign, name);
        assert forall|f: Seq<char>| #[trigger]
            foreign.contains_key(f) && split(f, '/') == segs.push(name) implies {
            &&& last.kind(id) == Some(KindView::ForeignWorktree { target: foreign[f] })
            &&& list[i].attr.ftype == FileType::Link
            &&& list[i].attr.fileid == id
        } by {
            lemma_join_split(f, '/');
            assert(is_foreign(foreign, segs, name));
        }
    }
}

/// A listing of a directory of the `refs` subtree takes out the symlinks to
/// worktrees that are gone; whatever else is not listed hangs there as before.
#[verifier::rlimit(40)]
pub proof fn law_stale_links_are_taken_out(
    cfg: &Config,
    state: StateView,
    owner: (u32, u32),
    started: NfsTime,
    request: PageRequest,
    now: u128,
    wall: NfsTime,
    context: ContextView,
    foreign: Map<Seq<char>, Seq<u8>>,
    branches: Set<Seq<Seq<char>>>,
    names: Seq<Seq<char>>,
    children: Seq<Seq<char>>,
    name: Seq<char>,
)
    requires
        is_virtual_place(state, request.dirid, context, foreign, branches),
        are_known(cfg, state, (context.org, context.repo), foreign, branches, now),
        are_listed(names, state.tree, request.dirid, context.segs, branches, foreign),
        names.len() > 0 || context.segs.len() == 0,
        state.tree.next_id + names.len() <= u64::MAX,
        ascending(children),
        forall|n: Seq<char>| #[trigger]
            children.contains(n) <==> state.tree.child(request.dirid, n) is Some,
        !is_listed(state.tree, request.dirid, context.segs, branches, foreign, name),
    ensures
        ({
            let tree = state.tree;
            let after = readdir_started(cfg, state, owner, started, request, now, wall).0.tree;
            let is_gone = (tree.child(request.dirid, name) matches Some(id) && tree.kind(
                id,
            ) matches Some(KindView::ForeignWorktree { .. })) && !is_foreign(
                foreign,
                context.segs,
                name,
            );
            &&& is_gone ==> after.child(request.dirid, name) is None
            &&& !is_gone ==> {
                &&& after.child(request.dirid, name) == tree.child(request.dirid, name)
                &&& tree.child(request.dirid, name) matches Some(id) ==> after.kind(id)
                    == tree.kind(id)
            }
        }),
{
    let tree = state.tree;
    let dirid = request.dirid;
    let segs = context.segs;
    let links = foreign_links(foreign, segs);
    lemma_listed_names(names, tree, dirid, segs, branches, foreign);
    lemma_somewhere(names, tree, dirid, segs, branches, foreign);
    let dom = tree.nodes[dirid].children.dom();
    assert forall|n: Seq<char>| #[trigger] children.contains(n) <==> dom.contains(n) by {
        assert(children.contains(n) <==> tree.child(dirid, n) is Some);
    }
    lemma_in_order(children, dom);
    let stale = stale_links(tree, dirid, links);
    let is_stale = |n: Seq<char>| is_stale_link(tree, dirid, n, links);
    assert forall|i: int| 0 <= i < stale.len() implies tree.child(dirid, #[trigger] stale[i])
        != Some(dirid) by {
        lemma_filter_contains(children, is_stale, stale[i]);
        assert(stale.contains(stale[i]));
        assert(is_stale(stale[i]));
    }
    lemma_dropped(tree, dirid, stale, wall);
    let less = dropped(tree, dirid, stale, wall);
    lemma_no_duplicates(names);
    lemma_entered(less, owner, started, dirid, names, links, wall);
    lemma_filter_contains(children, is_stale, name);
    lemma_listed_name(tree, dirid, segs, branches, foreign, name);
    assert(!names.contains(name));
    assert(children.contains(name) <==> tree.child(dirid, name) is Some);
    assert(less.child(dirid, name) == if stale.contains(name) {
        None
    } else {
        tree.child(dirid, name)
    });
}

proof fn lemma_no_duplicates(names: Seq<Seq<char>>)
    requires
        ascending(names),
    ensures
        names.no_duplicates(),
{
    assert forall|i: int, j: int| 0 <= i < j < names.len() implies names[i] != names[j] by {
        if names[i] == names[j] {
            lemma_ascending_unique(names, i, j);
        }
    }
}

proof fn lemma_somewhere(
    names: Seq<Seq<char>>,
    tree: TreeView,
    dirid: u64,
    segs: Seq<Seq<char>>,
    branches: Set<Seq<Seq<char>>>,
    foreign: Map<Seq<char>, Seq<u8>>,
)
    requires
        are_listed(names, tree, dirid, segs, branches, foreign),
        names.len() > 0 || segs.len() == 0,
    ensures
        !is_nowhere(tree, dirid, segs, branches, foreign),
{
    if segs.len() > 0 {
        let name = names[0];
        assert(names.contains(name));
        lemma_listed_name(tree, dirid, segs, branches, foreign, name);
        let set = ref_names(tree, dirid, segs, branches, foreign);
        assert(set.contains(name));
        if is_next_step(branches, segs, name) {
            let b = choose|b: Seq<Seq<char>>| #[trigger]
                branches.contains(b) && segs.push(name).is_prefix_of(b);
            lemma_next_step(b, segs, name);
            assert(is_ref_path(branches, segs));
        }
    }
}

/// Every worktree that hangs in a directory of the `refs` subtree is in its
/// listing, under the number of the worktree, whether or not the remote has the
/// branch.
pub proof fn law_worktrees_are_listed(
    cfg: &Config,
    state: StateView,
    owner: (u32, u32),
    started: NfsTime,
    request: PageRequest,
    now: u128,
    wall: NfsTime,
    context: ContextView,
    foreign: Map<Seq<char>, Seq<u8>>,
    branches: Set<Seq<Seq<char>>>,
    names: Seq<Seq<char>>,
    found: Seq<Option<FileAttr>>,
    later: u128,
    wall2: NfsTime,
    name: Seq<char>,
    id: u64,
)
    requires
        is_virtual_place(state, request.dirid, context, foreign, branches),
        are_known(cfg, state, (context.org, context.repo), foreign, branches, now),
        are_listed(names, state.tree, request.dirid, context.segs, branches, foreign),
        state.tree.next_id + names.len() <= u64::MAX,
        request.start_after == 0,
        request.max_entries == 0,
        state.tree.child(request.dirid, name) == Some(id),
        state.tree.kind(id) matches Some(KindView::Worktree { .. }),
    ensures
        ({
            let (after, next) = readdir_started(cfg, state, owner, started, request, now, wall);
            next matches ReaddirNextView::Wait(NeedView::Attributes(_), stage) && readdir_continued(
                cfg,
                after,
                owner,
                started,
                stage,
                EventView::Attributes(found),
                later,
                wall2,
            ).1 matches ReaddirNextView::Done(Ok((list, true))) && exists|i: int|
                0 <= i < list.len() && (#[trigger] list[i]).name == name && list[i].fileid == id
        }),
{
    assert(is_listed(state.tree, request.dirid, context.segs, branches, foreign, name));
    assert(names.contains(name));
    let i = choose|i: int| 0 <= i < names.len() && names[i] == name;
    law_refs_are_listed(
        cfg,
        state,
        owner,
        started,
        request,
        now,
        wall,
        context,
        foreign,
        branches,
        names,
        found,
        later,
        wall2,
    );
    let (after, next) = readdir_started(cfg, state, owner, started, request, now, wall);
    if let ReaddirNextView::Wait(_, stage) = next {
        let end = readdir_continued(
            cfg,
            after,
            owner,
            started,
            stage,
            EventView::Attributes(found),
            later,
            wall2,
        ).1;
        if let ReaddirNextView::Done(Ok((list, true))) = end {
            assert(tells_of(
                state.tree,
                owner,
                started,
                found_at(found, i),
                after.tree,
                request.dirid,
                context.segs,
                foreign,
                list[i],
                names[i],
            ));
            assert(list[i].name == name && list[i].fileid == id);
        }
    }
}

/// The entries of a listing of a `refs` directory hold every worktree that hangs
/// in it, whatever the remote lists and whatever is checked out elsewhere, as
/// soon as its names have an order to be listed in.
pub proof fn law_entries_hold_every_worktree(
    state: StateView,
    owner: (u32, u32),
    started: NfsTime,
    dirid: u64,
    context: ContextView,
    foreign: Map<Seq<char>, Seq<u8>>,
    branches: Set<Seq<Seq<char>>>,
    wall: NfsTime,
    after: StateView,
    entries: Seq<ListedView>,
    name: Seq<char>,
    id: u64,
)
    requires
        state.tree.wf(),
        is_refs_dir(state.tree, dirid),
        names_have_order(state.tree, dirid, context, foreign, branches),
        refs_listed(state, owner, started, dirid, context, foreign, branches, wall) == (
            after,
            RefsListingView::Entries(entries),
        ),
        state.tree.child(dirid, name) == Some(id),
        state.tree.kind(id) matches Some(KindView::Worktree { .. }),
    ensures
        after.tree.child(dirid, name) == Some(id),
        exists|i: int|
            0 <= i < entries.len() && (#[trigger] entries[i]).name == name && entries[i].fileid == id,
{
    let tree = state.tree;
    let segs = context.segs;
    let links = foreign_links(foreign, segs);
    let set = ref_names(tree, dirid, segs, branches, foreign);
    let names = in_order(set);
    lemma_listed_name(tree, dirid, segs, branches, foreign, name);
    assert(is_listed(tree, dirid, segs, branches, foreign, name));
    assert(names.contains(name));
    let stale = stale_links(tree, dirid, links);
    let all = children_in_order(tree, dirid);
    let is_stale = |n: Seq<char>| is_stale_link(tree, dirid, n, links);
    assert forall|i: int| 0 <= i < stale.len() implies tree.child(dirid, #[trigger] stale[i])
        != Some(dirid) by {
        lemma_filter_contains(all, is_stale, stale[i]);
        assert(stale.contains(stale[i]));
        assert(is_stale(stale[i]));
    }
    lemma_dropped(tree, dirid, stale, wall);
    let less = dropped(tree, dirid, stale, wall);
    lemma_filter_contains(all, is_stale, name);
    assert(!stale.contains(name));
    assert(less.child(dirid, name) == Some(id));
    lemma_no_duplicates(names);
    lemma_entered(less, owner, started, dirid, names, links, wall);
    let i = choose|i: int| 0 <= i < names.len() && names[i] == name;
    assert(is_entered(less, owner, started, after.tree, dirid, links, entries[i], names[i]));
}

/// A branch that was made is in the listing of its directory right afterwards,
/// under the number that it was given.
pub proof fn law_made_branches_are_in_the_listing(
    cfg: &Config,
    state: StateView,
    task: RefsTaskView,
    root: Seq<u8>,
    now: u128,
    wall: NfsTime,
    owner: (u32, u32),
    started: NfsTime,
    context: ContextView,
    foreign: Map<Seq<char>, Seq<u8>>,
    branches: Set<Seq<Seq<char>>>,
    later: NfsTime,
    made: StateView,
    id: u64,
    after: StateView,
    entries: Seq<ListedView>,
)
    requires
        state.tree.wf(),
        state.tree.next_id < u64::MAX,
        is_refs_dir(state.tree, task.dirid),
        state.tree.child(task.dirid, task.name) is None,
        mkdir_continued(
            cfg,
            state,
            MkdirStageView::Fork(task),
            EventView::CheckedOut(Ok(root)),
            now,
            wall,
        ) == (made, MkdirNextView::Done(Ok((id, root)))),
        names_have_order(made.tree, task.dirid, context, foreign, branches),
        refs_listed(made, owner, started, task.dirid, context, foreign, branches, later) == (
            after,
            RefsListingView::Entries(entries),
        ),
    ensures
        exists|i: int|
            0 <= i < entries.len() && (#[trigger] entries[i]).name == task.name
                && entries[i].fileid == id,
{
    assert(task.dirid < state.tree.next_id);
    state.tree.lemma_with_child(task.dirid, task.name, KindView::Worktree { root }, wall);
    law_entries_hold_every_worktree(
        made,
        owner,
        started,
        task.dirid,
        context,
        foreign,
        branches,
        later,
        after,
        entries,
        task.name,
        id,
    );
}

/// A branch that was made is among the names that its directory lists from then
/// on, whatever the remote lists and whatever is checked out elsewhere.
pub proof fn law_made_branches_are_listed(
    state: StateView,
    task: RefsTaskView,
    root: Seq<u8>,
    now: u128,
    wall: NfsTime,
    segs: Seq<Seq<char>>,
    branches: Set<Seq<Seq<char>>>,
    foreign: Map<Seq<char>, Seq<u8>>,
)
    requires
        state.tree.wf(),
        state.tree.next_id < u64::MAX,
        is_refs_dir(state.tree, task.dirid),
        state.tree.child(task.dirid, task.name) is None,
    ensures
        ({
            let (after, id) = branch_made(state, task, root, now, wall);
            &&& hangs(after.tree, task.dirid, task.name, id, KindView::Worktree { root })
            &&& is_listed(after.tree, task.dirid, segs, branches, foreign, task.name)
            &&& ref_names(after.tree, task.dirid, segs, branches, foreign).contains(task.name)
        }),
{
    let after = branch_made(state, task, root, now, wall).0;
    assert(task.dirid < state.tree.next_id);
    lemma_listed_name(after.tree, task.dirid, segs, branches, foreign, task.name);
}

/// A place that is itself a branch of the remote is checked out, under the name
/// that its steps make, and from then on listed as the directory that it is on
/// disk. One that is checked out elsewhere is a symlink and no directory. One
/// that no branch leads to does not exist. None of that changes anything before
/// the branch is checked out.
pub proof fn law_places_that_are_not_listed(
    cfg: &Config,
    state: StateView,
    owner: (u32, u32),
    started: NfsTime,
    request: PageRequest,
    now: u128,
    wall: NfsTime,
    context: ContextView,
    foreign: Map<Seq<char>, Seq<u8>>,
    branches: Set<Seq<Seq<char>>>,
    root: Seq<u8>,
    error: GitErrorView,
    later: u128,
    wall2: NfsTime,
)
    requires
        state.tree.kind(request.dirid) matches Some(kind) && (kind is RefsRoot || kind is RefPath),
        state.tree.refs_context(request.dirid) == Some(context),
        are_known(cfg, state, (context.org, context.repo), foreign, branches, now),
    ensures
        ({
            let (after, next) = readdir_started(cfg, state, owner, started, request, now, wall);
            let elsewhere = foreign.contains_key(join(context.segs, '/'));
            let nowhere = {
                &&& context.segs.len() > 0
                &&& forall|b: Seq<Seq<char>>| #[trigger]
                    branches.contains(b) ==> !context.segs.is_prefix_of(b)
                &&& forall|name: Seq<char>|
                    (#[trigger] state.tree.child(request.dirid, name)) matches Some(id) ==> !(
                    state.tree.kind(id) matches Some(KindView::Worktree { .. }))
                &&& forall|f: Seq<char>| #[trigger]
                    foreign.contains_key(f) ==> !context.segs.is_prefix_of(split(f, '/'))
            };
            &&& elsewhere ==> after == state && next == ReaddirNextView::Done(Err(Status::NotDir))
            &&& !elsewhere && branches.contains(context.segs) ==> {
                &&& after == state
                &&& next matches ReaddirNextView::Wait(need, stage) && {
                    let (done, listing) = readdir_continued(
                        cfg,
                        state,
                        owner,
                        started,
                        stage,
                        EventView::CheckedOut(Ok(root)),
                        later,
                        wall2,
                    );
                    &&& need == (NeedView::CheckOut {
                        org: context.org,
                        repo: context.repo,
                        branch: join(context.segs, '/'),
                    })
                    &&& done.tree.kind(request.dirid) == Some(KindView::Worktree { root })
                    &&& done.wt_refresh == state.wt_refresh.insert(request.dirid, later)
                    &&& listing == ReaddirNextView::Wait(
                        NeedView::List(root),
                        ReaddirStageView::List(request, root),
                    )
                    &&& readdir_continued(
                        cfg,
                        state,
                        owner,
                        started,
                        stage,
                        EventView::CheckedOut(Err(error)),
                        later,
                        wall2,
                    ) == (state, ReaddirNextView::Done(Err(materialize_status(error))))
                }
            }
            &&& !elsewhere && nowhere ==> after == state && next == ReaddirNextView::Done(
                Err(Status::NoEnt),
            )
        }),
{
    let segs = context.segs;
    let tree = state.tree;
    let dirid = request.dirid;
    if branches.contains(segs) {
        assert(segs =~= segs.subrange(0, segs.len() as int));
    }
    if forall|f: Seq<char>| #[trigger]
        foreign.contains_key(f) ==> !segs.is_prefix_of(split(f, '/')) {
        assert forall|name: Seq<char>| !#[trigger] foreign_links(foreign, segs).contains_key(name) by {
            if is_foreign(foreign, segs, name) {
                let f = choose|f: Seq<char>| #[trigger]
                    foreign.contains_key(f) && split(f, '/') == segs.push(name);
                lemma_next_step(split(f, '/'), segs, name);
            }
        }
        assert forall|name: Seq<char>| !#[trigger] foreign_dirs(foreign, segs).contains(name) by {
            if foreign_dirs(foreign, segs).contains(name) {
                let f = choose|f: Seq<char>| #[trigger]
                    foreign.contains_key(f) && split(f, '/').len() > segs.len() + 1 && segs.push(
                        name,
                    ).is_prefix_of(split(f, '/'));
                lemma_next_step(split(f, '/'), segs, name);
            }
        }
        assert(foreign_links(foreign, segs) =~= Map::<Seq<char>, Seq<u8>>::empty());
        assert(foreign_dirs(foreign, segs) =~= Set::<Seq<char>>::empty());
    }
    if forall|name: Seq<char>|
        (#[trigger] tree.child(dirid, name)) matches Some(id) ==> !(tree.kind(id) matches Some(
            KindView::Worktree { .. },
        )) {
        assert forall|name: Seq<char>| !#[trigger] is_local(tree, dirid, name) by {
            let c = tree.child(dirid, name);
        }
    }
}

/// A directory that is not there is stale, and so is one that has lost its
/// place; a symlink is no directory.
pub proof fn law_listings_of_no_directories(
    cfg: &Config,
    state: StateView,
    owner: (u32, u32),
    started: NfsTime,
    request: PageRequest,
    now: u128,
    wall: NfsTime,
)
    ensures
        ({
            let dirid = request.dirid;
            let result = readdir_started(cfg, state, owner, started, request, now, wall);
            let stale = (state, ReaddirNextView::Done(Err(Status::Stale)));
            match state.tree.kind(dirid) {
                None => result == stale,
                Some(KindView::RefsRoot) | Some(KindView::RefPath) => state.tree.refs_context(
                    dirid,
                ) is None ==> result == stale,
                Some(KindView::Worktree { .. }) | Some(KindView::Disk) => state.tree.disk_path(
                    dirid,
                ) is None ==> result == stale,
                Some(KindView::ForeignWorktree { .. }) => result == (
                    state,
                    ReaddirNextView::Done(Err(Status::NotDir)),
                ),
                _ => true,
            }
        }),
{
}

/// A directory inside a worktree is listed where it is on disk, after a refresh
/// of the worktree where one is due, whatever comes of that.
pub proof fn law_directories_on_disk_are_listed_there(
    cfg: &Config,
    state: StateView,
    owner: (u32, u32),
    started: NfsTime,
    request: PageRequest,
    now: u128,
    wall: NfsTime,
    path: Seq<u8>,
    root: u64,
    event: EventView,
    later: u128,
    wall2: NfsTime,
)
    requires
        state.tree.kind(request.dirid) matches Some(kind) && (kind is Worktree || kind is Disk),
        state.tree.disk_path(request.dirid) == Some(path),
        state.tree.worktree_root(request.dirid) == Some(root),
    ensures
        ({
            let (after, next) = readdir_started(cfg, state, owner, started, request, now, wall);
            let list = ReaddirNextView::Wait(
                NeedView::List(path),
                ReaddirStageView::List(request, path),
            );
            let fresh = state.wt_refresh.contains_key(root) && age(state.wt_refresh[root], now)
                < cfg.branch_ttl;
            &&& fresh ==> (after, next) == (state, list)
            &&& !fresh ==> {
                &&& after == (StateView {
                    wt_refresh: state.wt_refresh.insert(root, now),
                    ..state
                })
                &&& match state.tree.refs_context(root) {
                    Some(c) => next matches ReaddirNextView::Wait(need, stage) && {
                        &&& need == NeedView::Refresh(
                            RefreshView { org: c.org, repo: c.repo, branch: join(c.segs, '/') },
                        )
                        &&& readdir_continued(
                            cfg,
                            after,
                            owner,
                            started,
                            stage,
                            event,
                            later,
                            wall2,
                        ) == (after, list)
                    },
                    None => next == list,
                }
            }
        }),
{
}

/// Whether one of the files has a name.
pub open spec fn is_among(files: Seq<Vec<u8>>, name: Seq<char>) -> bool {
    exists|k: int| 0 <= k < files.len() && (#[trigger] files[k])@ == utf8(name)
}

proof fn lemma_file_names(files: Seq<Vec<u8>>)
    ensures
        file_names(files).len() <= files.len(),
        forall|name: Seq<char>| #[trigger]
            file_names(files).contains(name) <==> is_among(files, name),
        (forall|i: int, j: int|
            0 <= i < j < files.len() ==> (#[trigger] files[i])@ != (#[trigger] files[j])@)
            ==> file_names(files).no_duplicates(),
    decreases files.len(),
{
    if files.len() > 0 {
        let shorter = files.drop_last();
        lemma_file_names(shorter);
        let before = file_names(shorter);
        let n = files.len() - 1;
        let all = file_names(files);
        assert forall|name: Seq<char>| #[trigger] all.contains(name) <==> is_among(files, name) by {
            law_names_are_spelled(name, files[n]@);
            if all.contains(name) {
                let j = choose|j: int| 0 <= j < all.len() && all[j] == name;
                if j < before.len() {
                    assert(before[j] == name);
                    assert(before.contains(name));
                    let k = choose|k: int| 0 <= k < shorter.len() && (#[trigger] shorter[k])@ == utf8(name);
                    assert(files[k]@ == utf8(name));
                } else {
                    assert(files[n]@ == utf8(name));
                }
            }
            if is_among(files, name) {
                let k = choose|k: int| 0 <= k < files.len() && (#[trigger] files[k])@ == utf8(name);
                if k < n {
                    assert(shorter[k]@ == utf8(name));
                    assert(before.contains(name));
                    let j = choose|j: int| 0 <= j < before.len() && before[j] == name;
                    assert(all[j] == name);
                } else {
                    assert(all[before.len() as int] == name);
                }
            }
        }
        if forall|i: int, j: int|
            0 <= i < j < files.len() ==> (#[trigger] files[i])@ != (#[trigger] files[j])@ {
            assert forall|i: int, j: int| 0 <= i < j < shorter.len() implies (
            #[trigger] shorter[i])@ != (#[trigger] shorter[j])@ by {
                assert(files[i]@ != files[j]@);
            }
            if let Some(name) = name_in(files[n]@) {
                law_names_are_spelled(name, files[n]@);
                assert(!before.contains(name)) by {
                    if before.contains(name) {
                        let k = choose|k: int|
                            0 <= k < shorter.len() && (#[trigger] shorter[k])@ == utf8(name);
                        assert(files[k]@ != files[n]@);
                    }
                }
                assert forall|i: int, j: int| 0 <= i < j < all.len() implies all[i] != all[j] by {
                    if j < before.len() {
                        assert(before[i] != before[j]);
                    } else {
                        assert(before.contains(before[i]));
                    }
                }
            }
        }
    }
}

proof fn lemma_sorted(names: Seq<Seq<char>>)
    ensures
        sorted(names).len() == names.len(),
        forall|name: Seq<char>| #[trigger] sorted(names).contains(name) <==> names.contains(name),
        forall|i: int, j: int|
            0 <= i < j < names.len() ==> no_later(
                #[trigger] sorted(names)[i],
                #[trigger] sorted(names)[j],
            ),
        names.no_duplicates() ==> sorted(names).no_duplicates(),
{
    broadcast use vstd::seq_lib::group_to_multiset_ensures;

    let leq = |a: Seq<char>, b: Seq<char>| no_later(a, b);
    lemma_names_are_ordered();
    names.lemma_sort_by_ensures(leq);
    let s = sorted(names);
    assert(s.to_multiset() == names.to_multiset());
    assert(s.len() == s.to_multiset().len());
    assert forall|name: Seq<char>| #[trigger] s.contains(name) <==> names.contains(name) by {
        assert(s.contains(name) <==> s.to_multiset().count(name) > 0);
        assert(names.contains(name) <==> names.to_multiset().count(name) > 0);
    }
    assert forall|i: int, j: int| 0 <= i < j < names.len() implies no_later(
        #[trigger] s[i],
        #[trigger] s[j],
    ) by {
        assert(leq(s[i], s[j]));
    }
    if names.no_duplicates() {
        names.lemma_multiset_has_no_duplicates();
        s.lemma_multiset_has_no_duplicates_conv();
    }
}

#[verifier::rlimit(40)]
proof fn lemma_entered_files(
    tree: TreeView,
    dirid: u64,
    dir: Seq<u8>,
    names: Seq<Seq<char>>,
    wall: NfsTime,
)
    requires
        tree.wf(),
        tree.nodes.contains_key(dirid),
        tree.next_id + names.len() <= u64::MAX,
    ensures
        ({
            let (after, entries) = files_entered(tree, dirid, dir, names, wall);
            &&& forall|i: int|
                0 <= i < names.len() ==> (#[trigger] entries[i]).attr == (ListedAttrView::OnDisk {
                    path: path_join(dir, utf8(names[i])),
                    fallback: None,
                })
            &&& forall|i: int|
                0 <= i < names.len() ==> after.kind((#[trigger] entries[i]).fileid) == match tree.child(
                    dirid,
                    names[i],
                ) {
                    Some(old) => tree.kind(old),
                    None => Some(KindView::Disk),
                }
            &&& forall|x: u64| #[trigger]
                tree.nodes.contains_key(x) ==> after.nodes.contains_key(x) && after.kind(x)
                    == tree.kind(x) && (x != dirid ==> after.nodes[x] == tree.nodes[x])
            &&& tree.next_id <= after.next_id
            &&& forall|n: Seq<char>| (#[trigger] after.child(dirid, n)) matches Some(id) ==> tree.child(dirid, n) == Some(
                id,
            ) || id >= tree.next_id && after.kind(id) == Some(KindView::Disk)
        }),
    decreases names.len(),
{
    if names.len() > 0 {
        let shorter = names.drop_last();
        lemma_entered_files(tree, dirid, dir, shorter, wall);
        lemma_files_entered(tree, dirid, dir, shorter, wall);
        let (before, entries) = files_entered(tree, dirid, dir, shorter, wall);
        let name = names.last();
        let (after, all) = files_entered(tree, dirid, dir, names, wall);
        assert(dirid < before.next_id);
        assert(!before.nodes.contains_key(before.next_id));
        assert(after == before.with_child(dirid, name, KindView::Disk, wall));
        assert forall|n: Seq<char>|
            (#[trigger] after.child(dirid, n)) matches Some(id) implies tree.child(dirid, n)
            == after.child(dirid, n) || after.child(dirid, n).unwrap() >= tree.next_id
            && after.kind(after.child(dirid, n).unwrap()) == Some(KindView::Disk) by {
            let b = before.child(dirid, n);
            if b is Some {
                assert(before.links(dirid, n));
            }
        }
        assert forall|i: int| 0 <= i < names.len() implies after.kind((#[trigger] all[i]).fileid)
            == match tree.child(dirid, names[i]) {
            Some(old) => tree.kind(old),
            None => Some(KindView::Disk),
        } by {
            if i < shorter.len() {
                assert(all[i] == entries[i]);
                assert(shorter[i] == names[i]);
                assert(before.child(dirid, names[i]) == Some(entries[i].fileid));
                assert(before.links(dirid, names[i]));
            } else {
                let b = before.child(dirid, name);
                let t = tree.child(dirid, name);
                if t is Some {
                    assert(b == t);
                    assert(tree.links(dirid, name));
                }
            }
        }
        assert forall|i: int| 0 <= i < names.len() implies (#[trigger] all[i]).attr == (
        ListedAttrView::OnDisk { path: path_join(dir, utf8(names[i])), fallback: None }) by {
            if i < shorter.len() {
                assert(all[i] == entries[i]);
                assert(shorter[i] == names[i]);
            }
        }
    }
}

/// A directory on disk lists every file in it whose name is text, and nothing
/// else, in the order of the names, each once, at its path in the directory;
/// what hung there before keeps its number, and the rest hangs there as files
/// from then on.
#[verifier::rlimit(40)]
pub proof fn law_files_are_listed(
    cfg: &Config,
    state: StateView,
    owner: (u32, u32),
    started: NfsTime,
    request: PageRequest,
    dir: Seq<u8>,
    files: Seq<Vec<u8>>,
    now: u128,
    wall: NfsTime,
)
    requires
        state.tree.wf(),
        state.tree.nodes.contains_key(request.dirid),
        state.tree.next_id + files.len() <= u64::MAX,
        forall|i: int, j: int|
            0 <= i < j < files.len() ==> (#[trigger] files[i])@ != (#[trigger] files[j])@,
    ensures
        ({
            let (after, next) = readdir_continued(
                cfg,
                state,
                owner,
                started,
                ReaddirStageView::List(request, dir),
                EventView::Listed(Ok(files)),
                now,
                wall,
            );
            &&& same_memory(state, after)
            &&& forall|x: u64| #[trigger]
                state.tree.nodes.contains_key(x) && x != request.dirid
                    ==> after.tree.nodes.contains_key(x) && after.tree.nodes[x]
                    == state.tree.nodes[x]
            &&& next matches ReaddirNextView::Wait(
                NeedView::Attributes(wanted),
                ReaddirStageView::Attributes(asked, entries),
            ) && {
                &&& asked == request
                &&& wanted.len() == entries.len()
                &&& forall|i: int|
                    0 <= i < entries.len() ==> {
                        let e = #[trigger] entries[i];
                        let path = path_join(dir, utf8(e.name));
                        &&& e.attr == (ListedAttrView::OnDisk { path, fallback: None })
                        &&& wanted[i] == Some((e.fileid, path))
                        &&& after.tree.child(request.dirid, e.name) == Some(e.fileid)
                        &&& match state.tree.child(request.dirid, e.name) {
                            Some(old) => e.fileid == old && after.tree.kind(old)
                                == state.tree.kind(old),
                            None => after.tree.kind(e.fileid) == Some(KindView::Disk),
                        }
                        &&& is_among(files, e.name)
                    }
                &&& forall|i: int, j: int|
                    0 <= i < j < entries.len() ==> name_before(
                        (#[trigger] entries[i]).name,
                        (#[trigger] entries[j]).name,
                    )
                &&& forall|name: Seq<char>| #[trigger]
                    is_among(files, name) ==> exists|i: int|
                        0 <= i < entries.len() && (#[trigger] entries[i]).name == name
            }
        }),
{
    let tree = state.tree;
    let dirid = request.dirid;
    let texts = file_names(files);
    lemma_file_names(files);
    lemma_sorted(texts);
    let names = sorted(texts);
    lemma_files_entered(tree, dirid, dir, names, wall);
    lemma_entered_files(tree, dirid, dir, names, wall);
    let (last, entries) = files_entered(tree, dirid, dir, names, wall);
    assert forall|i: int, j: int| 0 <= i < j < entries.len() implies name_before(
        (#[trigger] entries[i]).name,
        (#[trigger] entries[j]).name,
    ) by {
        assert(entries[i].name == names[i] && entries[j].name == names[j]);
        assert(no_later(names[i], names[j]));
        assert(names[i] != names[j]);
    }
    assert forall|i: int| 0 <= i < entries.len() implies is_among(
        files,
        (#[trigger] entries[i]).name,
    ) by {
        assert(entries[i].name == names[i]);
        assert(names.contains(names[i]));
        assert(texts.contains(names[i]));
    }
    assert forall|name: Seq<char>| #[trigger] is_among(files, name) implies exists|i: int|
        0 <= i < entries.len() && (#[trigger] entries[i]).name == name by {
        assert(texts.contains(name));
        assert(names.contains(name));
        let i = choose|i: int| 0 <= i < names.len() && names[i] == name;
        assert(entries[i].name == name);
    }
}

proof fn lemma_filter_ascends(names: Seq<Seq<char>>, keep: spec_fn(Seq<char>) -> bool)
    requires
        ascending(names),
    ensures
        ascending(names.filter(keep)),
    decreases names.len(),
{
    reveal(Seq::filter);
    if names.len() > 0 {
        let shorter = names.drop_last();
        assert forall|i: int, j: int| 0 <= i < j < shorter.len() implies name_before(
            #[trigger] shorter[i],
            #[trigger] shorter[j],
        ) by {
            assert(name_before(names[i], names[j]));
        }
        lemma_filter_ascends(shorter, keep);
        let before = shorter.filter(keep);
        let all = names.filter(keep);
        assert forall|i: int, j: int| 0 <= i < j < all.len() implies name_before(
            #[trigger] all[i],
            #[trigger] all[j],
        ) by {
            if j < before.len() {
                assert(name_before(before[i], before[j]));
            } else {
                assert(before.contains(before[i]));
                lemma_filter_contains(shorter, keep, before[i]);
                let k = choose|k: int| 0 <= k < shorter.len() && shorter[k] == before[i];
                assert(name_before(names[k], names[names.len() - 1]));
            }
        }
    }
}

/// A directory above the `refs` subtree lists its children in the order of
/// their names, each under its number; the root only those organisations in
/// which there is something. They are all directories, with the attributes that
/// they have by themselves.
#[verifier::rlimit(40)]
pub proof fn law_virtual_directories_are_listed(
    cfg: &Config,
    state: StateView,
    owner: (u32, u32),
    started: NfsTime,
    request: PageRequest,
    now: u128,
    wall: NfsTime,
    all: Seq<Seq<char>>,
)
    requires
        state.tree.kind(request.dirid) matches Some(kind) && (kind is Root || kind is Org
            || kind is Repo),
        ascending(all),
        forall|name: Seq<char>| #[trigger]
            all.contains(name) <==> state.tree.child(request.dirid, name) is Some,
        request.start_after == 0,
        request.max_entries == 0,
    ensures
        ({
            let tree = state.tree;
            let (after, next) = readdir_started(cfg, state, owner, started, request, now, wall);
            &&& after == state
            &&& next matches ReaddirNextView::Done(Ok((list, true))) && {
                &&& forall|i: int, j: int|
                    0 <= i < j < list.len() ==> name_before(
                        (#[trigger] list[i]).name,
                        (#[trigger] list[j]).name,
                    )
                &&& forall|i: int|
                    0 <= i < list.len() ==> {
                        let e = #[trigger] list[i];
                        &&& tree.child(request.dirid, e.name) == Some(e.fileid)
                        &&& e.attr.ftype == FileType::Directory
                        &&& e.attr.fileid == e.fileid
                        &&& (tree.kind(e.fileid) matches Some(kind) && (kind is Org || kind is Repo
                            || kind is RefsRoot)) ==> attributes(
                            tree,
                            owner,
                            started,
                            e.fileid,
                        ) == AttrStepView::Done(Ok(e.attr))
                        &&& tree.kind(request.dirid) == Some(KindView::Root) ==> exists|
                            below: Seq<char>,
                        | (#[trigger] tree.child(e.fileid, below)) is Some
                    }
                &&& forall|name: Seq<char>, id: u64, below: Seq<char>|
                    {
                        &&& #[trigger] tree.child(request.dirid, name) == Some(id)
                        &&& tree.kind(request.dirid) != Some(KindView::Root) || (
                        #[trigger] tree.child(id, below)) is Some
                    } ==> exists|i: int|
                        0 <= i < list.len() && (#[trigger] list[i]).name == name
            }
        }),
{
    let tree = state.tree;
    let dirid = request.dirid;
    let children = tree.nodes[dirid].children;
    assert forall|x: Seq<char>| #[trigger] all.contains(x) <==> children.dom().contains(x) by {
        assert(all.contains(x) <==> tree.child(dirid, x) is Some);
    }
    lemma_in_order(all, children.dom());
    let keep = |name: Seq<char>| shows_in_root(tree, children[name]);
    let names = shown(tree, dirid);
    lemma_filter_ascends(all, keep);
    let entries = dir_entries(tree, owner, started, dirid, names);
    law_entries_with_attributes_are_shown(entries, Seq::empty());
    let list = settled_entries(entries, Seq::empty());
    assert(list.len() == names.len());
    assert forall|i: int, j: int| 0 <= i < j < list.len() implies name_before(
        (#[trigger] list[i]).name,
        (#[trigger] list[j]).name,
    ) by {
        assert(name_before(names[i], names[j]));
    }
    assert forall|i: int| 0 <= i < list.len() implies {
        let e = #[trigger] list[i];
        &&& tree.child(dirid, e.name) == Some(e.fileid)
        &&& e.attr.ftype == FileType::Directory
        &&& e.attr.fileid == e.fileid
        &&& (tree.kind(e.fileid) matches Some(kind) && (kind is Org || kind is Repo
            || kind is RefsRoot)) ==> attributes(tree, owner, started, e.fileid)
            == AttrStepView::Done(Ok(e.attr))
        &&& tree.kind(dirid) == Some(KindView::Root) ==> exists|below: Seq<char>|
            (#[trigger] tree.child(e.fileid, below)) is Some
    } by {
        assert(list[i].name == names[i]);
        assert(names.contains(names[i]));
        lemma_filter_contains(all, keep, names[i]);
        assert(all.contains(names[i]));
        if tree.kind(dirid) == Some(KindView::Root) {
            assert(keep(names[i]));
            let id = list[i].fileid;
            let inner = tree.nodes[id].children;
            assert(shows_in_root(tree, id));
            if forall|below: Seq<char>| (#[trigger] tree.child(id, below)) is None {
                assert forall|below: Seq<char>| !#[trigger] inner.contains_key(below) by {
                    assert(tree.child(id, below) is None);
                }
                assert(inner =~= Map::<Seq<char>, u64>::empty());
            }
        }
    }
    assert forall|name: Seq<char>, id: u64, below: Seq<char>|
        {
            &&& #[trigger] tree.child(dirid, name) == Some(id)
            &&& tree.kind(dirid) != Some(KindView::Root) || (#[trigger] tree.child(
                id,
                below,
            )) is Some
        } implies exists|i: int| 0 <= i < list.len() && (#[trigger] list[i]).name == name by {
        assert(all.contains(name));
        if tree.kind(dirid) == Some(KindView::Root) {
            assert(tree.nodes[id].children.contains_key(below));
            assert(keep(name));
            lemma_filter_contains(all, keep, name);
        }
        assert(names.contains(name));
        let i = choose|i: int| 0 <= i < names.len() && names[i] == name;
        assert(list[i].name == name);
    }
}

/// A page starts right after the entry that it is to start after, goes on with
/// the listing, is as long as it may be, and says whether the listing ends with
/// it.
pub proof fn law_pages(entries: Seq<EntryView>, place: int, max_entries: nat)
    requires
        numbers_are_distinct(entries),
        0 <= place <= entries.len(),
    ensures
        ({
            let start_after = if place == 0 {
                0
            } else {
                entries[place - 1].fileid
            };
            let (part, end) = page(entries, start_after, max_entries);
            let left = entries.len() - place;
            &&& part.len() == if max_entries == 0 || left <= max_entries {
                left
            } else {
                max_entries as int
            }
            &&& forall|i: int| 0 <= i < part.len() ==> #[trigger] part[i] == entries[place + i]
            &&& end <==> place + part.len() == entries.len()
        }),
{
    if place > 0 {
        lemma_upto(entries, place - 1);
        assert(entries[place - 1].fileid != 0);
    }
}

/// What is not known, a listing in the `refs` subtree asks for: the foreign
/// worktrees first, and then the branches. A repository that was found missing a
/// moment ago is not asked about again. Nothing changes meanwhile.
pub proof fn law_listing_asks(
    cfg: &Config,
    state: StateView,
    owner: (u32, u32),
    started: NfsTime,
    request: PageRequest,
    now: u128,
    wall: NfsTime,
    context: ContextView,
)
    requires
        state.tree.kind(request.dirid) matches Some(kind) && (kind is RefsRoot || kind is RefPath),
        state.tree.refs_context(request.dirid) == Some(context),
    ensures
        ({
            let (org, repo) = (context.org, context.repo);
            let foreign = state.foreign[(org, repo)].worktrees;
            let (after, next) = readdir_started(cfg, state, owner, started, request, now, wall);
            if !knows_worktrees(cfg, state, (org, repo), now) {
                &&& after == state
                &&& next matches ReaddirNextView::Wait(need, _) && need == (NeedView::Worktrees {
                    org,
                    repo,
                })
            } else if foreign.contains_key(join(context.segs, '/')) {
                after == state && next == ReaddirNextView::Done(Err(Status::NotDir))
            } else {
                !knows_branches(cfg, state, (org, repo), now) ==> {
                    &&& after == state
                    &&& if knows_absence(cfg, state, (org, repo), now) {
                        next == ReaddirNextView::Done(Err(Status::NoEnt))
                    } else {
                        next matches ReaddirNextView::Wait(need, _) && need == (NeedView::Heads {
                            org,
                            repo,
                        })
                    }
                }
            }
        }),
{
}

/// A listing that had to ask for the foreign worktrees goes on as if they had
/// been known when it started.
pub proof fn law_listing_goes_on_with_worktrees(
    cfg: &Config,
    state: StateView,
    owner: (u32, u32),
    started: NfsTime,
    request: PageRequest,
    now: u128,
    wall: NfsTime,
    org: Seq<char>,
    repo: Seq<char>,
    stage: ReaddirStageView,
    list: Seq<(Seq<char>, Seq<u8>)>,
)
    requires
        readdir_started(cfg, state, owner, started, request, now, wall) == (
            state,
            ReaddirNextView::Wait(NeedView::Worktrees { org, repo }, stage),
        ),
        cfg.branch_ttl > 0,
    ensures
        readdir_continued(
            cfg,
            state,
            owner,
            started,
            stage,
            EventView::Worktrees(list),
            now,
            wall,
        ) == readdir_started(
            cfg,
            StateView {
                foreign: state.foreign.insert(
                    (org, repo),
                    ForeignView { worktrees: foreign_in(cfg, org, repo, list), listed: now },
                ),
                ..state
            },
            owner,
            started,
            request,
            now,
            wall,
        ),
{
    let key = (org, repo);
    let foreign = foreign_in(cfg, org, repo, list);
    let known = StateView {
        foreign: state.foreign.insert(key, ForeignView { worktrees: foreign, listed: now }),
        ..state
    };
    assert(known_foreign(cfg, known, key, now) == Some(foreign));
}

/// A listing that had to ask for the branches goes on as if they had been known
/// when it started, from whomever they came; where nobody knows them, the
/// repository is missing from then on.
pub proof fn law_listing_goes_on_with_branches(
    cfg: &Config,
    state: StateView,
    owner: (u32, u32),
    started: NfsTime,
    request: PageRequest,
    now: u128,
    wall: NfsTime,
    org: Seq<char>,
    repo: Seq<char>,
    stage: ReaddirStageView,
    remote: Option<Seq<Seq<char>>>,
    local: Option<Seq<Seq<char>>>,
)
    requires
        state.tree.wf(),
        readdir_started(cfg, state, owner, started, request, now, wall) == (
            state,
            ReaddirNextView::Wait(NeedView::Heads { org, repo }, stage),
        ),
        cfg.branch_ttl > 0,
    ensures
        ({
            let key = (org, repo);
            let event = EventView::Heads { remote, local };
            let (done, next) = readdir_continued(
                cfg,
                state,
                owner,
                started,
                stage,
                event,
                now,
                wall,
            );
            let known = told(state, key, remote, local, now, wall);
            let (want, next_known) = readdir_started(cfg, known, owner, started, request, now, wall);
            if is_anything_told(state, key, remote, local) {
                &&& next == next_known
                &&& done == (StateView { tries: done.tries, ..want })
                &&& remote is Some ==> done == want
            } else {
                &&& next == ReaddirNextView::Done(Err(Status::NoEnt))
                &&& done == (StateView {
                    missing_repos: state.missing_repos.insert(key, now),
                    ..state
                })
            }
        }),
{
    let key = (org, repo);
    law_told_branches_are_known(cfg, state, key, remote, local, now, wall, request.dirid);
    let known = told(state, key, remote, local, now, wall);
    assert(known.tree.kind(request.dirid) == state.tree.kind(request.dirid));
}

/// A directory that cannot be read is answered as the failure to read it; an
/// answer that does not come is an I/O error, except for a refresh. Neither
/// changes anything.
pub proof fn law_listings_fail(
    cfg: &Config,
    state: StateView,
    owner: (u32, u32),
    started: NfsTime,
    request: PageRequest,
    stage: ReaddirStageView,
    path: Seq<u8>,
    kind: IoErrorKind,
    now: u128,
    wall: NfsTime,
)
    ensures
        readdir_continued(
            cfg,
            state,
            owner,
            started,
            ReaddirStageView::List(request, path),
            EventView::Listed(Err(kind)),
            now,
            wall,
        ) == (state, ReaddirNextView::Done(Err(io_status(kind)))),
        !(stage is Refresh) ==> readdir_continued(
            cfg,
            state,
            owner,
            started,
            stage,
            EventView::Failed,
            now,
            wall,
        ) == (state, ReaddirNextView::Done(Err(Status::Io))),
{
}

/// Names are listed in the order of their bytes: one comes before another
/// exactly if it has the smaller byte where the two first differ, or ends there.
pub proof fn law_order_of_names(a: Seq<u8>, b: Seq<u8>)
    ensures
        bytes_before(a, b) <==> exists|k: int| #[trigger] parts_at(a, b, k),
    decreases a.len(),
{
    if a.len() > 0 && b.len() > 0 && a[0] == b[0] {
        let (x, y) = (a.drop_first(), b.drop_first());
        law_order_of_names(x, y);
        if exists|k: int| #[trigger] parts_at(x, y, k) {
            let k = choose|k: int| #[trigger] parts_at(x, y, k);
            assert forall|i: int| 0 <= i < k + 1 implies #[trigger] a[i] == b[i] by {
                if i > 0 {
                    assert(x[i - 1] == y[i - 1]);
                }
            }
            assert(parts_at(a, b, k + 1));
        }
        if exists|k: int| #[trigger] parts_at(a, b, k) {
            let k = choose|k: int| #[trigger] parts_at(a, b, k);
            assert(k > 0);
            assert forall|i: int| 0 <= i < k - 1 implies #[trigger] x[i] == y[i] by {
                assert(a[i + 1] == b[i + 1]);
            }
            assert(parts_at(x, y, k - 1));
        }
    } else if bytes_before(a, b) {
        assert(parts_at(a, b, 0));
    } else if exists|k: int| #[trigger] parts_at(a, b, k) {
        let k = choose|k: int| #[trigger] parts_at(a, b, k);
        if k > 0 {
            assert(a[0] == b[0]);
        }
    }
}

/// Whether two byte strings agree up to a place and the first ends there or has
/// the smaller byte.
pub open spec fn parts_at(a: Seq<u8>, b: Seq<u8>, k: int) -> bool {
    &&& 0 <= k < b.len()
    &&& k <= a.len()
    &&& forall|i: int| 0 <= i < k ==> #[trigger] a[i] == b[i]
    &&& k == a.len() || a[k] < b[k]
}

} // verus!
