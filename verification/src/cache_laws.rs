//! How long what is known stays known, and what becomes of what is learned.

use crate::caches::{
    cached_answer, foreign_in, has_below, is_fresh, known_foreign, learned, refresh_due, with_foreign,
    RefreshView, TrieAnswerView,
};
use crate::config::{Config, Protocol};
use crate::fspath::components;
use crate::node::{ForeignView, ListingView, StateView};
use crate::protocol::Status;
use crate::text::join;
use crate::tree::{lemma_same_links, NfsTime};
use crate::tree_laws::{extends, law_paths_depend_on_ancestors};
use crate::trie::{branch_set, branch_steps, is_next_step, is_ref_path, law_joined_steps};
use vstd::prelude::*;

verus! {

/// How old something is; a clock that runs backwards counts as standing still.
pub open spec fn age(at: u128, now: u128) -> int {
    if now < at {
        0
    } else {
        now - at
    }
}

/// Something is fresh exactly as long as it is younger than its time to live.
pub proof fn law_freshness(at: u128, now: u128, ttl: u128)
    ensures
        is_fresh(at, now, ttl) <==> age(at, now) < ttl,
{
}

/// Whether the foreign worktrees of a repository were listed a moment ago.
pub open spec fn knows_worktrees(
    cfg: &Config,
    state: StateView,
    key: (Seq<char>, Seq<char>),
    now: u128,
) -> bool {
    state.foreign.contains_key(key) && age(state.foreign[key].listed, now) < cfg.branch_ttl
}

/// Whether the branches of a repository were listed a moment ago.
pub open spec fn knows_branches(
    cfg: &Config,
    state: StateView,
    key: (Seq<char>, Seq<char>),
    now: u128,
) -> bool {
    state.tries.contains_key(key) && age(state.tries[key].fetched, now) < cfg.branch_ttl
}

/// Whether a repository was found missing a moment ago.
pub open spec fn knows_absence(
    cfg: &Config,
    state: StateView,
    key: (Seq<char>, Seq<char>),
    now: u128,
) -> bool {
    state.missing_repos.contains_key(key) && age(state.missing_repos[key], now) < cfg.negative_ttl
}

/// The cached branches of a repository are used exactly as long as they are
/// younger than the time to live of listings, its absence exactly as long as
/// there are no such branches and it is younger than its own time to live, and
/// the cached foreign worktrees exactly as long as they are younger than the
/// time to live of listings.
pub proof fn law_caches_expire(
    cfg: &Config,
    state: StateView,
    key: (Seq<char>, Seq<char>),
    now: u128,
)
    ensures
        ({
            let listed = state.tries.contains_key(key) && age(state.tries[key].fetched, now)
                < cfg.branch_ttl;
            let missing = state.missing_repos.contains_key(key) && age(
                state.missing_repos[key],
                now,
            ) < cfg.negative_ttl;
            let known = state.foreign.contains_key(key) && age(state.foreign[key].listed, now)
                < cfg.branch_ttl;
            &&& listed ==> cached_answer(cfg, state, key, now) == TrieAnswerView::Known(
                Ok(state.tries[key].branches),
            )
            &&& !listed && missing ==> cached_answer(cfg, state, key, now)
                == TrieAnswerView::Known(Err(Status::NoEnt))
            &&& !listed && !missing ==> cached_answer(cfg, state, key, now)
                == TrieAnswerView::Query
            &&& known ==> known_foreign(cfg, state, key, now) == Some(
                state.foreign[key].worktrees,
            )
            &&& !known ==> known_foreign(cfg, state, key, now) is None
        }),
{
}

/// What the remote lists becomes the branches of the repository, and nothing
/// else: a path is a branch exactly if it is made of the steps of a listed
/// name. They are cached from now on, the repository no longer counts as
/// missing, and nothing else that is remembered changes.
pub proof fn law_listed_branches_are_learned(
    state: StateView,
    key: (Seq<char>, Seq<char>),
    names: Seq<Seq<char>>,
    local: Option<Seq<Seq<char>>>,
    now: u128,
    wall: NfsTime,
)
    ensures
        ({
            let (after, result) = learned(state, key, Some(names), local, now, wall);
            &&& result matches Ok(branches) && {
                &&& forall|path: Seq<Seq<char>>| #[trigger]
                    branches.contains(path) <==> exists|i: int|
                        0 <= i < names.len() && path == branch_steps(#[trigger] names[i])
                &&& after.tries == state.tries.insert(
                    key,
                    (ListingView { branches, fetched: now }),
                )
            }
            &&& after.missing_repos == state.missing_repos.remove(key)
            &&& after.foreign == state.foreign
            &&& after.wt_refresh == state.wt_refresh
            &&& after.default_branches == state.default_branches
            &&& after.tree.next_id == state.tree.next_id
            &&& after.tree.nodes.dom() == state.tree.nodes.dom()
            &&& forall|id: u64| #[trigger]
                state.tree.nodes.contains_key(id) ==> {
                    let a = after.tree.nodes[id];
                    let b = state.tree.nodes[id];
                    &&& a.parent == b.parent
                    &&& a.name == b.name
                    &&& a.kind == b.kind
                    &&& a.children == b.children
                }
        }),
{
    let after = learned(state, key, Some(names), local, now, wall).0;
    assert(after.tree.nodes.dom() =~= state.tree.nodes.dom());
}

/// Where the remote lists nothing, the branches that are known stay; where none
/// are, those that were last fetched count and are cached; and only where there
/// are none either, the repository counts as missing from now on.
pub proof fn law_unreachable_remotes(
    state: StateView,
    key: (Seq<char>, Seq<char>),
    local: Seq<Seq<char>>,
    fetched: Option<Seq<Seq<char>>>,
    now: u128,
    wall: NfsTime,
)
    ensures
        state.tries.contains_key(key) ==> learned(state, key, None, fetched, now, wall) == (
            state,
            Ok::<Set<Seq<Seq<char>>>, Status>(state.tries[key].branches),
        ),
        !state.tries.contains_key(key) ==> ({
            let (after, result) = learned(state, key, None, Some(local), now, wall);
            &&& result matches Ok(branches) && {
                &&& forall|path: Seq<Seq<char>>| #[trigger]
                    branches.contains(path) <==> exists|i: int|
                        0 <= i < local.len() && path == branch_steps(#[trigger] local[i])
                &&& after == (StateView {
                    tries: state.tries.insert(key, (ListingView { branches, fetched: now })),
                    ..state
                })
            }
        }),
        !state.tries.contains_key(key) ==> learned(state, key, None, None, now, wall) == (
            StateView { missing_repos: state.missing_repos.insert(key, now), ..state },
            Err::<Set<Seq<Seq<char>>>, Status>(Status::NoEnt),
        ),
{
}

/// A name of plain steps is a branch exactly if a listed name has these steps;
/// a listed name is a branch by its own steps. Towards a branch leads every
/// leading part of it, and every step of it is a next step after what comes
/// before.
pub proof fn law_branch_paths(
    names: Seq<Seq<char>>,
    steps: Seq<Seq<char>>,
    more: Seq<Seq<char>>,
    branches: Set<Seq<Seq<char>>>,
    name: Seq<char>,
)
    requires
        forall|i: int|
            0 <= i < steps.len() ==> (#[trigger] steps[i]).len() > 0 && !steps[i].contains('/'),
    ensures
        names.contains(join(steps, '/')) ==> branch_set(names).contains(steps),
        branch_set(names).contains(steps) ==> exists|i: int|
            0 <= i < names.len() && branch_steps(#[trigger] names[i]) == steps,
        is_ref_path(branches, more) <==> more.len() == 0 || exists|b: Seq<Seq<char>>|
            {
                &&& #[trigger] branches.contains(b)
                &&& more.len() <= b.len()
                &&& forall|i: int| 0 <= i < more.len() ==> #[trigger] more[i] == b[i]
            },
        is_next_step(branches, more, name) <==> exists|b: Seq<Seq<char>>|
            {
                &&& #[trigger] branches.contains(b)
                &&& more.len() < b.len()
                &&& b[more.len() as int] == name
                &&& forall|i: int| 0 <= i < more.len() ==> #[trigger] more[i] == b[i]
            },
{
    if names.contains(join(steps, '/')) {
        law_joined_steps(steps);
        let i = choose|i: int| 0 <= i < names.len() && names[i] == join(steps, '/');
        assert(branch_steps(names[i]) == steps);
    }
    if is_ref_path(branches, more) && more.len() > 0 {
        let b = choose|b: Seq<Seq<char>>| #[trigger] branches.contains(b) && more.is_prefix_of(b);
        assert forall|i: int| 0 <= i < more.len() implies #[trigger] more[i] == b[i] by {
            assert(b.subrange(0, more.len() as int)[i] == more[i]);
        }
    }
    if exists|b: Seq<Seq<char>>|
        {
            &&& #[trigger] branches.contains(b)
            &&& more.len() <= b.len()
            &&& forall|i: int| 0 <= i < more.len() ==> #[trigger] more[i] == b[i]
        } {
        let b = choose|b: Seq<Seq<char>>|
            {
                &&& #[trigger] branches.contains(b)
                &&& more.len() <= b.len()
                &&& forall|i: int| 0 <= i < more.len() ==> #[trigger] more[i] == b[i]
            };
        assert(more =~= b.subrange(0, more.len() as int));
    }
    let longer = more.push(name);
    if is_next_step(branches, more, name) {
        let b = choose|b: Seq<Seq<char>>| #[trigger] branches.contains(b) && longer.is_prefix_of(b);
        assert(b.subrange(0, longer.len() as int)[more.len() as int] == name);
        assert forall|i: int| 0 <= i < more.len() implies #[trigger] more[i] == b[i] by {
            assert(b.subrange(0, longer.len() as int)[i] == longer[i]);
        }
    }
    if exists|b: Seq<Seq<char>>|
        {
            &&& #[trigger] branches.contains(b)
            &&& more.len() < b.len()
            &&& b[more.len() as int] == name
            &&& forall|i: int| 0 <= i < more.len() ==> #[trigger] more[i] == b[i]
        } {
        let b = choose|b: Seq<Seq<char>>|
            {
                &&& #[trigger] branches.contains(b)
                &&& more.len() < b.len()
                &&& b[more.len() as int] == name
                &&& forall|i: int| 0 <= i < more.len() ==> #[trigger] more[i] == b[i]
            };
        assert(longer =~= b.subrange(0, longer.len() as int));
    }
}

/// A branch counts as checked out elsewhere exactly if git lists a worktree for
/// it that is not the cache's own, and the last such worktree is where it is.
/// Listing them is remembered, and changes nothing else.
#[verifier::spinoff_prover]
#[verifier::rlimit(40)]
pub proof fn law_listed_worktrees_are_foreign(
    cfg: &Config,
    org: Seq<char>,
    repo: Seq<char>,
    list: Seq<(Seq<char>, Seq<u8>)>,
    branch: Seq<char>,
    state: StateView,
    now: u128,
)
    ensures
        ({
            let own = components(cfg.worktree(org, repo, branch));
            let foreign = foreign_in(cfg, org, repo, list);
            &&& foreign.contains_key(branch) <==> exists|i: int|
                0 <= i < list.len() && (#[trigger] list[i]).0 == branch && components(list[i].1) != own
            &&& forall|i: int|
                {
                    &&& 0 <= i < list.len()
                    &&& (#[trigger] list[i]).0 == branch
                    &&& components(list[i].1) != own
                    &&& forall|j: int|
                        i < j < list.len() && (#[trigger] list[j]).0 == branch ==> components(
                            list[j].1,
                        ) == own
                } ==> foreign[branch] == list[i].1
            &&& with_foreign(state, (org, repo), foreign, now) == (StateView {
                foreign: state.foreign.insert(
                    (org, repo),
                    (ForeignView { worktrees: foreign, listed: now }),
                ),
                ..state
            })
        }),
    decreases list.len(),
{
    let own = components(cfg.worktree(org, repo, branch));
    if list.len() > 0 {
        let shorter = list.drop_last();
        let n = list.len() - 1;
        law_listed_worktrees_are_foreign(cfg, org, repo, shorter, branch, state, now);
        let before = foreign_in(cfg, org, repo, shorter);
        let foreign = foreign_in(cfg, org, repo, list);
        if before.contains_key(branch) {
            let i = choose|i: int|
                0 <= i < shorter.len() && (#[trigger] shorter[i]).0 == branch && components(
                    shorter[i].1,
                ) != own;
            assert(list[i] == shorter[i]);
        }
        assert(list[n] == list.last());
        assert forall|i: int|
            0 <= i < list.len() && (#[trigger] list[i]).0 == branch && components(list[i].1)
                != own implies foreign.contains_key(branch) by {
            if i < n {
                assert(shorter[i] == list[i]);
            }
        }
        assert forall|i: int|
            {
                &&& 0 <= i < list.len()
                &&& (#[trigger] list[i]).0 == branch
                &&& components(list[i].1) != own
                &&& forall|j: int|
                    i < j < list.len() && (#[trigger] list[j]).0 == branch ==> components(
                        list[j].1,
                    ) == own
            } implies foreign[branch] == list[i].1 by {
            if i < n {
                assert(shorter[i] == list[i]);
                assert forall|j: int| i < j < shorter.len() && (#[trigger] shorter[j]).0
                    == branch implies components(shorter[j].1) == own by {
                    assert(list[j] == shorter[j]);
                }
                assert(before[branch] == list[i].1);
                if list[n].0 == branch {
                    assert(components(list[n].1) == own);
                }
            }
        }
    }
}

/// Something below a branch is checked out elsewhere exactly if the name of a
/// foreign branch is the name, a slash, and more.
pub proof fn law_below(foreign: Map<Seq<char>, Seq<u8>>, branch: Seq<char>)
    ensures
        has_below(foreign, branch) <==> exists|more: Seq<char>| #[trigger]
            foreign.contains_key(branch + seq!['/'] + more),
{
    let p = branch + seq!['/'];
    if has_below(foreign, branch) {
        let k = choose|k: Seq<char>| #[trigger] foreign.contains_key(k) && p.is_prefix_of(k);
        let more = k.skip(p.len() as int);
        assert(p =~= k.subrange(0, p.len() as int));
        assert(k =~= p + more);
        assert(foreign.contains_key(branch + seq!['/'] + more));
    }
    if exists|more: Seq<char>| #[trigger] foreign.contains_key(branch + seq!['/'] + more) {
        let more = choose|more: Seq<char>| #[trigger]
            foreign.contains_key(branch + seq!['/'] + more);
        let k = branch + seq!['/'] + more;
        assert(p =~= k.subrange(0, p.len() as int));
    }
}

/// A refresh is due exactly if the node is in a worktree whose last refresh is
/// older than the time to live of listings, or unknown; it is about the branch
/// that the worktree's place in the tree spells, and it is noted at once under
/// the worktree. Nothing else changes.
pub proof fn law_refreshes_are_due(cfg: &Config, state: StateView, id: u64, now: u128)
    ensures
        ({
            let (after, due) = refresh_due(cfg, state, id, now);
            match state.tree.worktree_root(id) {
                None => due is None && after == state,
                Some(root) => if state.wt_refresh.contains_key(root) && age(
                    state.wt_refresh[root],
                    now,
                ) < cfg.branch_ttl {
                    due is None && after == state
                } else {
                    &&& after == (StateView {
                        wt_refresh: state.wt_refresh.insert(root, now),
                        ..state
                    })
                    &&& match state.tree.refs_context(root) {
                        Some(c) => due == Some(
                            RefreshView { org: c.org, repo: c.repo, branch: join(c.segs, '/') },
                        ),
                        None => due is None,
                    }
                },
            }
        }),
{
}

/// The URL of a repository names the host, then the organisation, then the
/// repository, in the form of the protocol; on one host two repositories have
/// the same URL only if they are the same.
pub proof fn law_urls(
    cfg: &Config,
    org: Seq<char>,
    repo: Seq<char>,
    org2: Seq<char>,
    repo2: Seq<char>,
)
    requires
        !org.contains('/'),
        !org2.contains('/'),
    ensures
        cfg.url(org, repo) == match cfg.protocol {
            Protocol::Https => "https://"@ + cfg.host@ + "/"@,
            Protocol::Ssh => "git@"@ + cfg.host@ + ":"@,
        } + (org + "/"@ + repo + ".git"@),
        cfg.url(org, repo) == cfg.url(org2, repo2) <==> org == org2 && repo == repo2,
{
    let start = match cfg.protocol {
        Protocol::Https => "https://"@ + cfg.host@ + "/"@,
        Protocol::Ssh => "git@"@ + cfg.host@ + ":"@,
    };
    let a = org + "/"@ + repo + ".git"@;
    let b = org2 + "/"@ + repo2 + ".git"@;
    assert(cfg.url(org, repo) =~= start + a);
    assert(cfg.url(org2, repo2) =~= start + b);
    if start + a == start + b {
        assert(a =~= (start + a).skip(start.len() as int));
        assert(b =~= (start + b).skip(start.len() as int));
        reveal_strlit("/");
        reveal_strlit(".git");
        assert("/"@ =~= seq!['/']);
        assert(org.len() == org2.len()) by {
            if org.len() < org2.len() {
                assert(a[org.len() as int] == '/');
                assert(b[org.len() as int] == org2[org.len() as int]);
            }
            if org2.len() < org.len() {
                assert(b[org2.len() as int] == '/');
                assert(a[org2.len() as int] == org[org2.len() as int]);
            }
        }
        assert(org =~= a.take(org.len() as int));
        assert(org2 =~= b.take(org2.len() as int));
        let k = org.len() as int + 1;
        assert(repo =~= a.subrange(k, a.len() - 4));
        assert(repo2 =~= b.subrange(k, b.len() - 4));
    }
}

/// The state once it has been heard what the remote lists of a repository, or
/// what was last fetched from it: as that is learned; but where the remote lists
/// nothing and branches are known, those count as listed just now.
pub open spec fn told(
    state: StateView,
    key: (Seq<char>, Seq<char>),
    remote: Option<Seq<Seq<char>>>,
    local: Option<Seq<Seq<char>>>,
    now: u128,
    wall: NfsTime,
) -> StateView {
    if remote is None && state.tries.contains_key(key) {
        StateView {
            tries: state.tries.insert(
                key,
                ListingView { branches: state.tries[key].branches, fetched: now },
            ),
            ..state
        }
    } else {
        learned(state, key, remote, local, now, wall).0
    }
}

/// Whether anybody knows the branches of a repository.
pub open spec fn is_anything_told(
    state: StateView,
    key: (Seq<char>, Seq<char>),
    remote: Option<Seq<Seq<char>>>,
    local: Option<Seq<Seq<char>>>,
) -> bool {
    remote is Some || local is Some || state.tries.contains_key(key)
}

/// What is told is known: branches are learned exactly if somebody knows them,
/// they are those that a request finds right afterwards, and places in the tree
/// stay what they are.
pub proof fn law_told_branches_are_known(
    cfg: &Config,
    state: StateView,
    key: (Seq<char>, Seq<char>),
    remote: Option<Seq<Seq<char>>>,
    local: Option<Seq<Seq<char>>>,
    now: u128,
    wall: NfsTime,
    id: u64,
)
    requires
        state.tree.wf(),
        state.tree.nodes.contains_key(id),
        cfg.branch_ttl > 0,
    ensures
        ({
            let (heard, result) = learned(state, key, remote, local, now, wall);
            let after = told(state, key, remote, local, now, wall);
            &&& result is Ok <==> is_anything_told(state, key, remote, local)
            &&& result is Err ==> result == Err::<Set<Seq<Seq<char>>>, Status>(Status::NoEnt)
                && heard == (StateView {
                missing_repos: state.missing_repos.insert(key, now),
                ..state
            })
            &&& result is Ok ==> cached_answer(cfg, after, key, now) == TrieAnswerView::Known(
                result,
            )
            &&& heard == (StateView { tries: heard.tries, ..after })
            &&& after.foreign == state.foreign
            &&& after.default_branches == state.default_branches
            &&& after.wt_refresh == state.wt_refresh
            &&& after.tree.next_id == state.tree.next_id
            &&& after.tree.nodes.dom() == state.tree.nodes.dom()
            &&& after.tree.nodes[id].parent == state.tree.nodes[id].parent
            &&& after.tree.nodes[id].name == state.tree.nodes[id].name
            &&& after.tree.refs_context(id) == state.tree.refs_context(id)
            &&& after.tree.disk_path(id) == state.tree.disk_path(id)
            &&& forall|name: Seq<char>| #[trigger]
                after.tree.child(id, name) == state.tree.child(id, name)
            &&& forall|x: u64| #[trigger] after.tree.kind(x) == state.tree.kind(x)
        }),
{
    let after = told(state, key, remote, local, now, wall);
    assert(after.tree.nodes.dom() =~= state.tree.nodes.dom());
    lemma_same_links(state.tree, after.tree);
    assert(extends(state.tree, after.tree));
    law_paths_depend_on_ancestors(state.tree, after.tree, id);
}

} // verus!
