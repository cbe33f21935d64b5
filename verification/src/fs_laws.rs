//! What holds of the filesystem across requests.

use crate::caches::{cached_answer, learned, TrieAnswerView};
use crate::changes::{branch_made, branch_removed, disk_target, is_refs_dir};
use crate::component::{is_valid_component, is_valid_disk_name};
use crate::config::{lemma_step_component, Config};
use crate::fs::{path_of, scanned, with_repo, CachedRepo};
use crate::fspath::{components, lemma_join_components, lemma_name_components};
use crate::lookup::{
    leaf_ready, looked_up, lookup_on_disk, probed, trie_looked_up, LookupStepView, ProbeView,
    TrieStepView,
};
use crate::names::{in_order, is_in_order, lemma_filter_all, lemma_in_order};
use crate::node::{State, StateView};
use crate::protocol::{name_in, numbers_are_distinct, EntryView, FileAttr, Status};
use crate::readdir::{
    files_entered, lemma_filter_contains, refs_entered, settled_entries, shown, shows_in_root,
    ListedView,
};
use crate::task::{DiskTaskView, RefsTaskView};
use crate::text::{join, lemma_join_split, lossy, split, utf8};
use crate::tree::{KindView, NfsTime, ROOT_ID, TreeView};
use crate::tree_laws::file_names_are_valid;
use crate::trie::{branch_steps, is_ref_path};
use vstd::prelude::*;
use vstd::string::*;

verus! {

/// A lookup that fails at its first step changes nothing.
pub proof fn law_failed_lookup_changes_nothing(
    state: StateView,
    dirid: u64,
    filename: Seq<u8>,
    wall: NfsTime,
)
    ensures
        looked_up(state, dirid, filename, wall).1 matches LookupStepView::Done(Err(_))
            ==> looked_up(state, dirid, filename, wall).0 == state,
{
}

/// Looking a name up again gives the same number and changes nothing.
pub proof fn law_lookup_is_repeatable(
    state: StateView,
    dirid: u64,
    filename: Seq<u8>,
    wall: NfsTime,
    later: NfsTime,
)
    requires
        state.tree.wf(),
        state.tree.next_id < u64::MAX,
    ensures
        ({
            let (after, step) = looked_up(state, dirid, filename, wall);
            step matches LookupStepView::Done(Ok(_)) ==> looked_up(after, dirid, filename, later)
                == (after, step)
        }),
{
    assert(forall|id: u64| #[trigger]
        state.tree.nodes.contains_key(id) ==> id < state.tree.next_id);
}

/// Git is asked only about names that can be parts of a repository or branch
/// name; what file managers probe for never leaves the machine.
pub proof fn law_only_valid_names_reach_git(
    state: StateView,
    dirid: u64,
    filename: Seq<u8>,
    wall: NfsTime,
)
    ensures
        match looked_up(state, dirid, filename, wall).1 {
            LookupStepView::Probe(task) => name_in(filename) == Some(task.name)
                && is_valid_component(task.name),
            LookupStepView::Refs(task) => name_in(filename) == Some(task.name)
                && is_valid_component(task.name),
            _ => true,
        },
{
}

/// What is looked up or changed in a directory on disk lies directly in it:
/// its path is the directory's with one more step.
pub proof fn law_disk_requests_stay_in_the_directory(tree: TreeView, dirid: u64, name: Seq<char>)
    ensures
        lookup_on_disk(tree, dirid, name) matches LookupStepView::OnDisk(task) ==> {
            &&& tree.disk_path(dirid) is Some
            &&& components(task.path) == components(tree.disk_path(dirid).unwrap()).push(utf8(name))
        },
        disk_target(tree, dirid, name) matches Ok(task) ==> {
            &&& tree.disk_path(dirid) is Some
            &&& components(task.path) == components(tree.disk_path(dirid).unwrap()).push(utf8(name))
        },
{
    if is_valid_disk_name(name) {
        if let Some(dir) = tree.disk_path(dirid) {
            lemma_step_component(name);
            lemma_name_components(utf8(name));
            lemma_join_components(dir, utf8(name));
            assert(components(dir) + seq![utf8(name)] =~= components(dir).push(utf8(name)));
        }
    }
}

/// Virtual directories cannot be written: whatever asks for the real path of
/// one gets its error.
pub proof fn law_virtual_nodes_have_no_path(tree: TreeView, id: u64, err: Status, name: Seq<char>)
    requires
        tree.wf(),
        tree.kind(id) matches Some(kind) && !(kind is Worktree || kind is Disk),
    ensures
        path_of(tree, id, err) == Err::<Seq<u8>, Status>(err),
        is_valid_disk_name(name) ==> disk_target(tree, id, name) == Err::<DiskTaskView, Status>(
            Status::RoFs,
        ),
{
}

/// A name that a lookup can be about in the `refs` subtree.
pub open spec fn is_plain_name(filename: Seq<u8>, name: Seq<char>) -> bool {
    &&& name_in(filename) == Some(name)
    &&& name != "."@
    &&& name != ".."@
}

/// A branch that was checked out for a lookup is found from then on, as the
/// worktree it is, unless it is the directory itself that was looked up in.
pub proof fn law_checked_out_branch_is_found(
    state: StateView,
    task: RefsTaskView,
    root: Seq<u8>,
    now: u128,
    wall: NfsTime,
    filename: Seq<u8>,
    later: NfsTime,
)
    requires
        state.tree.wf(),
        state.tree.next_id < u64::MAX,
        is_refs_dir(state.tree, task.dirid),
        task.existing == state.tree.child(task.dirid, task.name),
        task.existing != Some(task.dirid),
        is_plain_name(filename, task.name),
    ensures
        ({
            let (after, id) = leaf_ready(state, task, root, now, wall);
            {
                &&& after.tree.kind(id) == Some(KindView::Worktree { root })
                &&& after.wt_refresh[id] == now
                &&& looked_up(after, task.dirid, filename, later) == (
                    after,
                    LookupStepView::Refresh(id),
                )
            }
        }),
{
    let tree = state.tree;
    assert(tree.nodes.contains_key(task.dirid));
    if let Some(id) = task.existing {
        assert(tree.links(task.dirid, task.name));
    }
}

/// A branch that was made is found from then on, as the worktree it is.
pub proof fn law_made_branch_is_found(
    state: StateView,
    task: RefsTaskView,
    root: Seq<u8>,
    now: u128,
    wall: NfsTime,
    filename: Seq<u8>,
    later: NfsTime,
)
    requires
        state.tree.wf(),
        state.tree.next_id < u64::MAX,
        is_refs_dir(state.tree, task.dirid),
        state.tree.child(task.dirid, task.name) is None,
        is_plain_name(filename, task.name),
    ensures
        ({
            let (after, id) = branch_made(state, task, root, now, wall);
            {
                &&& after.tree.kind(id) == Some(KindView::Worktree { root })
                &&& looked_up(after, task.dirid, filename, later) == (
                    after,
                    LookupStepView::Refresh(id),
                )
            }
        }),
{
    let tree = state.tree;
    assert(tree.nodes.contains_key(task.dirid));
    assert(task.dirid < tree.next_id);
}

/// A deleted branch leaves nothing behind: its node is gone, and neither the
/// cached branches nor the cached worktrees of the repository are used again.
pub proof fn law_removed_branch_is_forgotten(
    cfg: &Config,
    state: StateView,
    task: RefsTaskView,
    wall: NfsTime,
    now: u128,
)
    requires
        state.tree.wf(),
    ensures
        ({
            let after = branch_removed(state, task, wall);
            &&& after.tree.child(task.dirid, task.name) is None
            &&& !after.foreign.contains_key(task.key())
            &&& !(cached_answer(cfg, after, task.key(), now) matches TrieAnswerView::Known(Ok(_)))
            &&& state.tree.child(task.dirid, task.name) matches Some(id) ==> {
                &&& !after.tree.nodes.contains_key(id)
                &&& !after.wt_refresh.contains_key(id)
            }
        }),
{
}

/// The root lists exactly the organisations under which there is something.
pub proof fn law_root_lists_validated_organisations(state: &State, name: Seq<char>)
    requires
        state.wf(),
    ensures
        shown(state@.tree, ROOT_ID).contains(name) <==> (state@.tree.child(
            ROOT_ID,
            name,
        ) matches Some(id) && shows_in_root(state@.tree, id)),
{
    let tree = state@.tree;
    state.lemma_wf();
    state.lemma_children_in_order(ROOT_ID);
    let children = tree.nodes[ROOT_ID].children;
    let all = in_order(children.dom());
    assert(is_in_order(all, children.dom()));
    lemma_filter_contains(all, |n: Seq<char>| shows_in_root(tree, children[n]), name);
    assert(all.contains(name) <==> children.dom().contains(name));
}

/// An organisation that was only looked up does not show up in the root; once
/// a repository under it is validated, it does.
pub proof fn law_organisations_appear_when_validated(
    state: StateView,
    name: Seq<char>,
    filename: Seq<u8>,
    wall: NfsTime,
    repo: Seq<char>,
    later: NfsTime,
)
    requires
        state.tree.wf(),
        state.tree.next_id < u64::MAX - 2,
        is_plain_name(filename, name),
        is_valid_component(name),
        state.tree.child(ROOT_ID, name) is None,
    ensures
        ({
            let (after, step) = looked_up(state, ROOT_ID, filename, wall);
            step matches LookupStepView::Done(Ok(id)) && {
                &&& after.tree.child(ROOT_ID, name) == Some(id)
                &&& !shows_in_root(after.tree, id)
                &&& shows_in_root(
                    probed(after, ProbeView { dirid: id, org: name, name: repo }, later).0.tree,
                    id,
                )
            }
        }),
{
    let tree = state.tree;
    let (after, step) = looked_up(state, ROOT_ID, filename, wall);
    let id = tree.next_id;
    assert(!tree.nodes.contains_key(id));
    let t1 = after.tree;
    assert(t1.nodes[id].children == Map::<Seq<char>, u64>::empty());
    let t2 = t1.with_child(id, repo, KindView::Repo, later);
    let repo_id = t1.child_id(id, repo);
    assert(t2.nodes[id].children.contains_key(repo));
    let t3 = t2.with_child(repo_id, "refs"@, KindView::RefsRoot, later);
    assert(t3.nodes[id].children.contains_key(repo));
    let t4 = t3.touched(ROOT_ID, later);
    assert(t4.nodes[id].children.contains_key(repo));
}

/// What entering files in a directory leaves: every name leads to the number
/// in its entry, and what was there before is still there.
pub proof fn lemma_files_entered(
    tree: TreeView,
    dirid: u64,
    dir: Seq<u8>,
    names: Seq<Seq<char>>,
    wall: NfsTime,
)
    requires
        tree.wf(),
        tree.nodes.contains_key(dirid),
        tree.next_id + names.len() <= u64::MAX,
    ensures
        ({
            let (after, entries) = files_entered(tree, dirid, dir, names, wall);
            &&& after.wf()
            &&& after.nodes.contains_key(dirid)
            &&& after.next_id <= tree.next_id + names.len()
            &&& entries.len() == names.len()
            &&& forall|i: int|
                0 <= i < names.len() ==> (#[trigger] entries[i]).name == names[i] && after.child(
                    dirid,
                    names[i],
                ) == Some(entries[i].fileid)
            &&& forall|name: Seq<char>| (#[trigger] tree.child(dirid, name)) is Some ==> after.child(
                dirid,
                name,
            ) == tree.child(dirid, name)
        }),
    decreases names.len(),
{
    if names.len() > 0 {
        let shorter = names.drop_last();
        lemma_files_entered(tree, dirid, dir, shorter, wall);
        let (before, entries) = files_entered(tree, dirid, dir, shorter, wall);
        let name = names.last();
        assert(dirid < before.next_id);
        before.lemma_with_child(dirid, name, KindView::Disk, wall);
        let after = before.with_child(dirid, name, KindView::Disk, wall);
        assert(!before.nodes.contains_key(before.next_id));
        assert forall|n: Seq<char>| (#[trigger] before.child(dirid, n)) is Some implies after.child(
            dirid,
            n,
        ) == before.child(dirid, n) by {}
        assert(after.child(dirid, name) == Some(before.child_id(dirid, name)));
        let all = files_entered(tree, dirid, dir, names, wall).1;
        assert forall|i: int| 0 <= i < names.len() implies (#[trigger] all[i]).name == names[i]
            && after.child(dirid, names[i]) == Some(all[i].fileid) by {
            if i < shorter.len() {
                assert(all[i] == entries[i]);
                assert(shorter[i] == names[i]);
                assert(before.child(dirid, names[i]) is Some);
            }
        }
        assert forall|n: Seq<char>| (#[trigger] tree.child(dirid, n)) is Some implies after.child(
            dirid,
            n,
        ) == tree.child(dirid, n) by {
            assert(before.child(dirid, n) is Some);
        }
    }
}

/// Files keep their numbers: listing a directory again gives the same entries
/// and changes nothing.
pub proof fn law_listed_files_keep_their_numbers(
    tree: TreeView,
    dirid: u64,
    dir: Seq<u8>,
    names: Seq<Seq<char>>,
    wall: NfsTime,
    later: NfsTime,
)
    requires
        tree.wf(),
        tree.nodes.contains_key(dirid),
        tree.next_id + names.len() <= u64::MAX,
    ensures
        ({
            let (after, entries) = files_entered(tree, dirid, dir, names, wall);
            files_entered(after, dirid, dir, names, later) == (after, entries)
        }),
{
    lemma_files_entered(tree, dirid, dir, names, wall);
    let (after, entries) = files_entered(tree, dirid, dir, names, wall);
    lemma_same_files(tree, after, dirid, dir, names, wall, later);
    assert(names.take(names.len() as int) =~= names);
}

proof fn lemma_same_files(
    tree: TreeView,
    after: TreeView,
    dirid: u64,
    dir: Seq<u8>,
    names: Seq<Seq<char>>,
    wall: NfsTime,
    later: NfsTime,
)
    requires
        tree.wf(),
        tree.nodes.contains_key(dirid),
        tree.next_id + names.len() <= u64::MAX,
        forall|i: int|
            0 <= i < names.len() ==> after.child(dirid, #[trigger] names[i]) == files_entered(
                tree,
                dirid,
                dir,
                names,
                wall,
            ).0.child(dirid, names[i]),
    ensures
        files_entered(after, dirid, dir, names, later) == (
            after,
            files_entered(tree, dirid, dir, names, wall).1,
        ),
    decreases names.len(),
{
    if names.len() > 0 {
        let shorter = names.drop_last();
        let (before, entries) = files_entered(tree, dirid, dir, shorter, wall);
        let whole = files_entered(tree, dirid, dir, names, wall).0;
        lemma_files_entered(tree, dirid, dir, shorter, wall);
        lemma_files_entered(tree, dirid, dir, names, wall);
        assert(!before.nodes.contains_key(before.next_id));
        assert forall|i: int| 0 <= i < shorter.len() implies after.child(
            dirid,
            #[trigger] shorter[i],
        ) == before.child(dirid, shorter[i]) by {
            assert(shorter[i] == names[i]);
            assert(entries[i].name == shorter[i]);
            assert(before.child(dirid, shorter[i]) is Some);
            assert(whole.child(dirid, shorter[i]) == before.child(dirid, shorter[i]));
        }
        lemma_same_files(tree, after, dirid, dir, shorter, wall, later);
        let name = names[names.len() - 1];
        assert(name == names.last());
        assert(whole.child(dirid, name) == Some(before.child_id(dirid, name)));
        assert(after.child(dirid, name) == Some(before.child_id(dirid, name)));
    }
}

/// Whether no two entries have the same number, and none has zero.
pub open spec fn listed_numbers_are_distinct(entries: Seq<ListedView>) -> bool {
    &&& forall|i: int| 0 <= i < entries.len() ==> (#[trigger] entries[i]).fileid != 0
    &&& forall|i: int, j: int|
        0 <= i < j < entries.len() ==> (#[trigger] entries[i]).fileid != (
        #[trigger] entries[j]).fileid
}

/// The entries of different names under one directory have different numbers.
proof fn lemma_children_are_distinct(
    tree: TreeView,
    dirid: u64,
    names: Seq<Seq<char>>,
    entries: Seq<ListedView>,
)
    requires
        tree.wf(),
        names.no_duplicates(),
        entries.len() == names.len(),
        forall|i: int|
            0 <= i < names.len() ==> tree.child(dirid, names[i]) == Some((#[trigger] entries[i]).fileid),
    ensures
        listed_numbers_are_distinct(entries),
{
    assert forall|i: int| 0 <= i < entries.len() implies (#[trigger] entries[i]).fileid != 0 by {
        assert(tree.links(dirid, names[i]));
    }
    assert forall|i: int, j: int| 0 <= i < j < entries.len() implies (#[trigger] entries[i]).fileid != (
    #[trigger] entries[j]).fileid by {
        assert(tree.links(dirid, names[i]));
        assert(tree.links(dirid, names[j]));
        assert(names[i] != names[j]);
    }
}

/// The files of a directory are listed under different numbers, so that a
/// listing can be continued after any of them.
pub proof fn law_listed_files_are_distinct(
    tree: TreeView,
    dirid: u64,
    dir: Seq<u8>,
    names: Seq<Seq<char>>,
    wall: NfsTime,
    found: Seq<Option<FileAttr>>,
)
    requires
        tree.wf(),
        tree.nodes.contains_key(dirid),
        tree.next_id + names.len() <= u64::MAX,
        names.no_duplicates(),
    ensures
        numbers_are_distinct(
            settled_entries(files_entered(tree, dirid, dir, names, wall).1, found),
        ),
{
    lemma_files_entered(tree, dirid, dir, names, wall);
    let (after, entries) = files_entered(tree, dirid, dir, names, wall);
    assert forall|i: int| 0 <= i < names.len() implies after.child(dirid, names[i]) == Some(
        (#[trigger] entries[i]).fileid,
    ) by {
        assert(entries[i].name == names[i]);
    }
    lemma_children_are_distinct(after, dirid, names, entries);
    lemma_settled_distinct(entries, found);
}

proof fn lemma_settled_distinct(entries: Seq<ListedView>, found: Seq<Option<FileAttr>>)
    requires
        listed_numbers_are_distinct(entries),
    ensures
        numbers_are_distinct(settled_entries(entries, found)),
        forall|e: EntryView| #[trigger]
            settled_entries(entries, found).contains(e) ==> exists|i: int|
                0 <= i < entries.len() && (#[trigger] entries[i]).fileid == e.fileid,
    decreases entries.len(),
{
    if entries.len() > 0 {
        let shorter = entries.drop_last();
        assert forall|i: int, j: int| 0 <= i < j < shorter.len() implies (#[trigger] shorter[i]).fileid
            != (#[trigger] shorter[j]).fileid by {
            assert(entries[i].fileid != entries[j].fileid);
        }
        assert forall|i: int| 0 <= i < shorter.len() implies (#[trigger] shorter[i]).fileid != 0 by {
            assert(entries[i].fileid != 0);
        }
        lemma_settled_distinct(shorter, found);
        let before = settled_entries(shorter, found);
        let all = settled_entries(entries, found);
        let n = entries.len() - 1;
        assert forall|e: EntryView| #[trigger] all.contains(e) implies exists|i: int|
            0 <= i < entries.len() && (#[trigger] entries[i]).fileid == e.fileid by {
            let k = choose|k: int| 0 <= k < all.len() && all[k] == e;
            if k < before.len() {
                assert(before[k] == e);
                assert(before.contains(e));
                let i = choose|i: int| 0 <= i < shorter.len() && (#[trigger] shorter[i]).fileid
                    == e.fileid;
                assert(entries[i].fileid == e.fileid);
            } else {
                assert(entries[n].fileid == e.fileid);
            }
        }
        assert forall|i: int, j: int| 0 <= i < j < all.len() implies (#[trigger] all[i]).fileid != (
        #[trigger] all[j]).fileid by {
            if j < before.len() {
                assert(before[i].fileid != before[j].fileid);
            } else {
                assert(before.contains(before[i]));
                let k = choose|k: int| 0 <= k < shorter.len() && (#[trigger] shorter[k]).fileid
                    == before[i].fileid;
                assert(entries[k].fileid != entries[n].fileid);
            }
        }
        assert forall|i: int| 0 <= i < all.len() implies (#[trigger] all[i]).fileid != 0 by {
            if i < before.len() {
                assert(before[i].fileid != 0);
            } else {
                assert(entries[n].fileid != 0);
            }
        }
    }
}

/// What entering the names of a `refs` directory leaves: every name leads to
/// the number in its entry.
proof fn lemma_refs_entered(
    tree: TreeView,
    owner: (u32, u32),
    started: NfsTime,
    dirid: u64,
    names: Seq<Seq<char>>,
    links: Map<Seq<char>, Seq<u8>>,
    wall: NfsTime,
)
    requires
        tree.wf(),
        tree.nodes.contains_key(dirid),
        tree.next_id + names.len() <= u64::MAX,
    ensures
        ({
            let (after, entries) = refs_entered(tree, owner, started, dirid, names, links, wall);
            &&& after.wf()
            &&& after.nodes.contains_key(dirid)
            &&& after.next_id <= tree.next_id + names.len()
            &&& entries.len() == names.len()
            &&& forall|i: int|
                0 <= i < names.len() ==> (#[trigger] entries[i]).name == names[i] && after.child(
                    dirid,
                    names[i],
                ) == Some(entries[i].fileid)
        }),
    decreases names.len(),
{
    if names.len() > 0 {
        let shorter = names.drop_last();
        lemma_refs_entered(tree, owner, started, dirid, shorter, links, wall);
        let (before, entries) = refs_entered(tree, owner, started, dirid, shorter, links, wall);
        let name = names.last();
        let id = before.child_id(dirid, name);
        assert(dirid < before.next_id);
        assert(!before.nodes.contains_key(before.next_id));
        let kind = if links.contains_key(name) {
            KindView::ForeignWorktree { target: links[name] }
        } else {
            KindView::RefPath
        };
        before.lemma_with_child(dirid, name, kind, wall);
        let added = before.with_child(dirid, name, kind, wall);
        added.lemma_with_kind(id, kind);
        let after = refs_entered(tree, owner, started, dirid, names, links, wall).0;
        assert forall|n: Seq<char>| (#[trigger] before.child(dirid, n)) is Some implies after.child(
            dirid,
            n,
        ) == before.child(dirid, n) by {}
        assert(after.child(dirid, name) == Some(id));
        let all = refs_entered(tree, owner, started, dirid, names, links, wall).1;
        assert forall|i: int| 0 <= i < names.len() implies (#[trigger] all[i]).name == names[i]
            && after.child(dirid, names[i]) == Some(all[i].fileid) by {
            if i < shorter.len() {
                assert(all[i] == entries[i]);
                assert(shorter[i] == names[i]);
                assert(before.child(dirid, names[i]) is Some);
            }
        }
    }
}

/// The names of a `refs` directory are listed under different numbers, and
/// each number is what a lookup of the name finds.
pub proof fn law_listed_refs_are_distinct(
    tree: TreeView,
    owner: (u32, u32),
    started: NfsTime,
    dirid: u64,
    names: Seq<Seq<char>>,
    links: Map<Seq<char>, Seq<u8>>,
    wall: NfsTime,
    found: Seq<Option<FileAttr>>,
)
    requires
        tree.wf(),
        tree.nodes.contains_key(dirid),
        tree.next_id + names.len() <= u64::MAX,
        names.no_duplicates(),
    ensures
        ({
            let (after, entries) = refs_entered(tree, owner, started, dirid, names, links, wall);
            &&& forall|i: int|
                0 <= i < names.len() ==> (#[trigger] entries[i]).name == names[i] && after.child(
                    dirid,
                    names[i],
                ) == Some(entries[i].fileid)
            &&& numbers_are_distinct(settled_entries(entries, found))
        }),
{
    lemma_refs_entered(tree, owner, started, dirid, names, links, wall);
    let (after, entries) = refs_entered(tree, owner, started, dirid, names, links, wall);
    assert forall|i: int| 0 <= i < names.len() implies after.child(dirid, names[i]) == Some(
        (#[trigger] entries[i]).fileid,
    ) by {
        assert(entries[i].name == names[i]);
    }
    lemma_children_are_distinct(after, dirid, names, entries);
    lemma_settled_distinct(entries, found);
}

/// Names inside worktrees stay ones that a file can have: entering something
/// under such a name keeps that, and so does a rename to one, and nothing else
/// gives a node inside a worktree its name.
pub proof fn law_file_names_stay_valid(
    tree: TreeView,
    dirid: u64,
    name: Seq<char>,
    kind: KindView,
    to: u64,
    to_name: Seq<char>,
    wall: NfsTime,
    id: u64,
    org: Seq<char>,
    repo: Seq<char>,
)
    requires
        tree.wf(),
        file_names_are_valid(tree),
        tree.next_id < u64::MAX,
    ensures
        !(kind is Disk) || is_valid_disk_name(name) ==> file_names_are_valid(
            tree.with_child(dirid, name, kind, wall),
        ),
        file_names_are_valid(tree.without_child(dirid, name, wall)),
        is_valid_disk_name(to_name) ==> file_names_are_valid(
            tree.renamed(dirid, name, to, to_name, wall),
        ),
        file_names_are_valid(tree.touched(id, wall)),
        !(kind is Disk) ==> file_names_are_valid(tree.with_kind(id, kind)),
        file_names_are_valid(tree.refs_touched(org, repo, wall)),
{
    let added = tree.with_child(dirid, name, kind, wall);
    assert forall|x: u64| #[trigger]
        added.nodes.contains_key(x) && added.nodes[x].kind is Disk && (!(kind is Disk)
            || is_valid_disk_name(name)) implies is_valid_disk_name(added.nodes[x].name) by {
        if x != tree.next_id || tree.child(dirid, name) is Some {
            assert(tree.nodes.contains_key(x));
        }
    }
    let less = tree.without_child(dirid, name, wall);
    assert forall|x: u64| #[trigger]
        less.nodes.contains_key(x) && less.nodes[x].kind is Disk implies is_valid_disk_name(
        less.nodes[x].name,
    ) by {
        assert(tree.nodes.contains_key(x));
    }
    let moved = tree.renamed(dirid, name, to, to_name, wall);
    assert forall|x: u64| #[trigger]
        moved.nodes.contains_key(x) && moved.nodes[x].kind is Disk && is_valid_disk_name(
            to_name,
        ) implies is_valid_disk_name(moved.nodes[x].name) by {
        let middle = tree.without_child(to, to_name, wall);
        tree.lemma_without_child(to, to_name, wall);
        if let Some(c) = middle.child(dirid, name) {
            assert(middle.links(dirid, name));
        }
        assert(middle.nodes.contains_key(x));
        assert(tree.nodes.contains_key(x));
    }
    let touched = tree.touched(id, wall);
    assert forall|x: u64| #[trigger]
        touched.nodes.contains_key(x) && touched.nodes[x].kind is Disk implies is_valid_disk_name(
        touched.nodes[x].name,
    ) by {
        assert(tree.nodes.contains_key(x));
    }
    let turned = tree.with_kind(id, kind);
    assert forall|x: u64| #[trigger]
        turned.nodes.contains_key(x) && turned.nodes[x].kind is Disk && !(kind is Disk) implies is_valid_disk_name(
        turned.nodes[x].name,
    ) by {
        assert(tree.nodes.contains_key(x));
    }
    let refs = tree.refs_touched(org, repo, wall);
    assert forall|x: u64| #[trigger]
        refs.nodes.contains_key(x) && refs.nodes[x].kind is Disk implies is_valid_disk_name(
        refs.nodes[x].name,
    ) by {
        assert(tree.nodes.contains_key(x));
    }
}

/// The root starts empty.
pub proof fn law_root_starts_empty(now: NfsTime)
    ensures
        shown(TreeView::bare_root(now), ROOT_ID) == Seq::<Seq<char>>::empty(),
{
    let none = Seq::<Seq<char>>::empty();
    let tree = TreeView::bare_root(now);
    let children = tree.nodes[ROOT_ID].children;
    assert(is_in_order(none, children.dom()));
    lemma_in_order(none, children.dom());
    let keep = |name: Seq<char>| shows_in_root(tree, children[name]);
    reveal(Seq::filter);
    assert(none.filter(keep) =~= none);
}

/// Adding a child leaves every other link as it was.
proof fn lemma_links_stay(
    tree: TreeView,
    parent: u64,
    name: Seq<char>,
    kind: KindView,
    now: NfsTime,
    id: u64,
    other: Seq<char>,
)
    requires
        tree.wf(),
        tree.next_id < u64::MAX,
        tree.child(id, other) is Some,
    ensures
        tree.with_child(parent, name, kind, now).child(id, other) == tree.child(id, other),
{
    assert(id < tree.next_id);
}

/// Whether a repository is in the tree, with its `refs` directory, and its
/// organisation shows up in the root.
pub open spec fn has_repo(tree: TreeView, org: Seq<char>, repo: Seq<char>) -> bool {
    &&& tree.child(ROOT_ID, org) matches Some(o)
    &&& shows_in_root(tree, o)
    &&& tree.child(o, repo) matches Some(r)
    &&& tree.child(r, "refs"@) is Some
}

proof fn lemma_repo_stays(
    tree: TreeView,
    parent: u64,
    name: Seq<char>,
    kind: KindView,
    now: NfsTime,
    org: Seq<char>,
    repo: Seq<char>,
)
    requires
        tree.wf(),
        tree.next_id < u64::MAX,
        has_repo(tree, org, repo),
    ensures
        has_repo(tree.with_child(parent, name, kind, now), org, repo),
{
    let after = tree.with_child(parent, name, kind, now);
    let o = tree.child(ROOT_ID, org).unwrap();
    let r = tree.child(o, repo).unwrap();
    lemma_links_stay(tree, parent, name, kind, now, ROOT_ID, org);
    lemma_links_stay(tree, parent, name, kind, now, o, repo);
    lemma_links_stay(tree, parent, name, kind, now, r, "refs"@);
    assert(after.nodes[o].children.contains_key(repo));
}

/// Entering a repository puts it there and keeps the others.
proof fn lemma_with_repo(
    tree: TreeView,
    org: Seq<char>,
    repo: Seq<char>,
    now: NfsTime,
)
    requires
        tree.wf(),
        tree.next_id + 3 < u64::MAX,
    ensures
        with_repo(tree, org, repo, now).wf(),
        with_repo(tree, org, repo, now).next_id <= tree.next_id + 3,
        has_repo(with_repo(tree, org, repo, now), org, repo),
        forall|o: Seq<char>, r: Seq<char>| #[trigger]
            has_repo(tree, o, r) ==> has_repo(with_repo(tree, org, repo, now), o, r),
{
    assert(tree.nodes.contains_key(ROOT_ID));
    let o = tree.child_id(ROOT_ID, org);
    tree.lemma_with_child(ROOT_ID, org, KindView::Org, now);
    let t1 = tree.with_child(ROOT_ID, org, KindView::Org, now);
    if tree.nodes.contains_key(tree.next_id) {
        assert(tree.next_id < tree.next_id);
    }
    assert(t1.child(ROOT_ID, org) == Some(o));
    assert(t1.links(ROOT_ID, org));
    let r = t1.child_id(o, repo);
    t1.lemma_with_child(o, repo, KindView::Repo, now);
    let t2 = t1.with_child(o, repo, KindView::Repo, now);
    if t1.nodes.contains_key(t1.next_id) {
        assert(t1.next_id < t1.next_id);
    }
    assert(t2.child(o, repo) == Some(r));
    lemma_links_stay(t1, o, repo, KindView::Repo, now, ROOT_ID, org);
    assert(t2.links(o, repo));
    t2.lemma_with_child(r, "refs"@, KindView::RefsRoot, now);
    let t3 = t2.with_child(r, "refs"@, KindView::RefsRoot, now);
    if t2.nodes.contains_key(t2.next_id) {
        assert(t2.next_id < t2.next_id);
    }
    lemma_links_stay(t2, r, "refs"@, KindView::RefsRoot, now, ROOT_ID, org);
    lemma_links_stay(t2, r, "refs"@, KindView::RefsRoot, now, o, repo);
    assert(t3.nodes[o].children.contains_key(repo));
    assert(t3.child(r, "refs"@) is Some);
    assert forall|a: Seq<char>, b: Seq<char>| #[trigger] has_repo(tree, a, b) implies has_repo(
        with_repo(tree, org, repo, now),
        a,
        b,
    ) by {
        lemma_repo_stays(tree, ROOT_ID, org, KindView::Org, now, a, b);
        lemma_repo_stays(t1, o, repo, KindView::Repo, now, a, b);
        lemma_repo_stays(t2, r, "refs"@, KindView::RefsRoot, now, a, b);
    }
}

/// Repositories that earlier runs have cloned are there after a restart: each
/// `.git` directory found in the cache is in the tree, and its organisation
/// shows up in the root.
pub proof fn law_cached_repositories_are_listed(
    tree: TreeView,
    found: Seq<CachedRepo>,
    now: NfsTime,
    i: int,
    repo: Seq<char>,
)
    requires
        tree.wf(),
        tree.next_id + 3 * found.len() < u64::MAX,
        0 <= i < found.len(),
        lossy(found[i].file@) == repo + ".git"@,
    ensures
        has_repo(scanned(tree, found, now), lossy(found[i].org@), repo),
{
    lemma_scanned(tree, found, now);
    let file = lossy(found[i].file@);
    assert(file.take(file.len() - ".git"@.len()) =~= repo);
    assert(".git"@ =~= file.subrange(repo.len() as int, file.len() as int));
}

proof fn lemma_scanned(tree: TreeView, found: Seq<CachedRepo>, now: NfsTime)
    requires
        tree.wf(),
        tree.next_id + 3 * found.len() < u64::MAX,
    ensures
        scanned(tree, found, now).wf(),
        scanned(tree, found, now).next_id <= tree.next_id + 3 * found.len(),
        forall|i: int|
            0 <= i < found.len() && ".git"@.is_suffix_of(lossy((#[trigger] found[i]).file@))
                ==> has_repo(
                scanned(tree, found, now),
                lossy(found[i].org@),
                lossy(found[i].file@).take(lossy(found[i].file@).len() - ".git"@.len()),
            ),
    decreases found.len(),
{
    if found.len() > 0 {
        let shorter = found.drop_last();
        lemma_scanned(tree, shorter, now);
        let before = scanned(tree, shorter, now);
        let after = scanned(tree, found, now);
        let last = found[found.len() - 1];
        assert(last == found.last());
        let file = lossy(last.file@);
        if ".git"@.is_suffix_of(file) {
            lemma_with_repo(before, lossy(last.org@), file.take(file.len() - ".git"@.len()), now);
        }
        assert forall|i: int|
            0 <= i < found.len() && ".git"@.is_suffix_of(
                lossy((#[trigger] found[i]).file@),
            ) implies has_repo(
            after,
            lossy(found[i].org@),
            lossy(found[i].file@).take(lossy(found[i].file@).len() - ".git"@.len()),
        ) by {
            if i < shorter.len() {
                assert(shorter[i] == found[i]);
            }
        }
    }
}

/// A repository that the remote does not acknowledge is a missing file, no
/// other error.
pub proof fn law_missing_repositories_are_missing_files(
    cfg: &Config,
    state: StateView,
    key: (Seq<char>, Seq<char>),
    remote: Option<Seq<Seq<char>>>,
    local: Option<Seq<Seq<char>>>,
    now: u128,
    wall: NfsTime,
)
    ensures
        cached_answer(cfg, state, key, now) matches TrieAnswerView::Known(Err(status)) ==> status
            == Status::NoEnt,
        learned(state, key, remote, local, now, wall).1 matches Err(status) ==> status
            == Status::NoEnt,
{
}

/// Every branch can be reached by its name, step by step: each step on the way
/// to a branch is a directory, and the last one is the branch, checked out
/// under the name that its steps make.
pub proof fn law_branches_are_reachable(
    cfg: &Config,
    state: StateView,
    task: RefsTaskView,
    branches: Set<Seq<Seq<char>>>,
    branch: Seq<Seq<char>>,
    wall: NfsTime,
)
    requires
        branches.contains(branch),
        task.segs().is_prefix_of(branch),
        !branches.contains(task.parent.segs),
    ensures
        ({
            let step = trie_looked_up(cfg, state, task, branches, wall).1;
            if branches.contains(task.segs()) {
                step == TrieStepView::Leaf { task, branch: join(task.segs(), '/') }
            } else {
                step is Done
            }
        }),
        task.segs() == branch ==> branches.contains(task.segs()),
{
    assert(is_ref_path(branches, task.segs()));
}

/// A branch name without empty pieces is what its steps make, so git is asked
/// for a branch under the name that it listed.
pub proof fn law_branch_names_round_trip(name: Seq<char>)
    requires
        forall|i: int| 0 <= i < split(name, '/').len() ==> (#[trigger] split(name, '/')[i]).len() > 0,
    ensures
        join(branch_steps(name), '/') == name,
{
    lemma_filter_all(split(name, '/'), |piece: Seq<char>| piece.len() > 0);
    lemma_join_split(name, '/');
}

} // verus!
