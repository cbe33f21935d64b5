//! Configuration of one served host and the layout of its on-disk cache.

use crate::fspath::{
    components, is_component, lemma_join_components, lemma_name_components, path_join, DOT, FsPath,
    SEPARATOR,
};
use crate::text::{
    lemma_ascii_contains, lemma_join_split, lemma_utf8_ascii, lemma_utf8_injective, split, split_all,
    texts, utf8,
};
use vstd::prelude::*;
use vstd::string::*;

verus! {

/// Nanoseconds in a second.
pub const SECOND: u128 = 1_000_000_000;

/// How long a branch listing is trusted where nothing else is asked for.
pub const DEFAULT_BRANCH_TTL: u128 = 30_000_000_000;

/// How long the absence of a repository is remembered.
pub const DEFAULT_NEGATIVE_TTL: u128 = 60_000_000_000;

/// Transport used to reach the git remote.
#[derive(Clone, Copy, Debug, PartialEq, Eq, Structural)]
pub enum Protocol {
    /// `https://<host>/<org>/<repo>.git`, with git's credential helpers.
    Https,
    /// `git@<host>:<org>/<repo>.git`, with SSH keys or an agent.
    Ssh,
}

/// Runtime configuration for one served host.
#[derive(Debug)]
pub struct Config {
    /// Host name, such as `github.com`.
    pub host: String,
    pub protocol: Protocol,
    /// Root of the on-disk cache holding bare repositories and worktrees.
    pub cache_root: FsPath,
    /// How long a branch listing is trusted before it is queried again, in
    /// nanoseconds.
    pub branch_ttl: u128,
    /// How long the absence of a repository is remembered, in nanoseconds.
    pub negative_ttl: u128,
}

/// The path reached by descending through `names` from `p`.
pub open spec fn path_join_all(p: Seq<u8>, names: Seq<Seq<char>>) -> Seq<u8>
    decreases names.len(),
{
    if names.len() == 0 {
        p
    } else {
        path_join(path_join_all(p, names.drop_last()), utf8(names.last()))
    }
}

/// The user's cache directory as `dirs::cache_dir` reports it, as raw bytes.
/// It depends on the environment of the process, so nothing is claimed of the
/// result.
#[verifier::external_body]
fn user_cache_dir() -> (r: Option<Vec<u8>>) {
    match dirs::cache_dir() {
        Some(dir) => Some(dir.into_os_string().into_encoded_bytes()),
        None => None,
    }
}

/// The cache root below the user's cache directory, or below `temp_dir` where
/// the user has none.
pub fn cache_root_below(cache_dir: Option<FsPath>, temp_dir: &FsPath) -> (r: FsPath)
    ensures
        r@ == path_join(
            match cache_dir {
                Some(dir) => dir@,
                None => temp_dir@,
            },
            utf8("treeportfs"@),
        ),
{
    match cache_dir {
        Some(dir) => dir.join("treeportfs"),
        None => temp_dir.join("treeportfs"),
    }
}

/// The cache root that is used where none is asked for: a directory of the
/// user's cache directory, or of `temp_dir` where the user has none.
pub fn default_cache_root(temp_dir: &FsPath) -> (r: FsPath)
    ensures
        exists|dir: Seq<u8>| r@ == #[trigger] path_join(dir, utf8("treeportfs"@)),
{
    let cache_dir = match user_cache_dir() {
        Some(bytes) => Some(FsPath::from_bytes(bytes)),
        None => None,
    };
    cache_root_below(cache_dir, temp_dir)
}

impl Config {
    /// The path of the bare repository of `org/repo`.
    pub open spec fn bare_repo(&self, org: Seq<char>, repo: Seq<char>) -> Seq<u8> {
        path_join_all(self.cache_root@, seq![self.host@, "repos"@, org, repo + ".git"@])
    }

    /// The path of the worktree of a branch: one directory per step of the
    /// branch name.
    pub open spec fn worktree(&self, org: Seq<char>, repo: Seq<char>, branch: Seq<char>) -> Seq<u8> {
        path_join_all(
            path_join_all(self.cache_root@, seq![self.host@, "worktrees"@, org, repo]),
            split(branch, '/'),
        )
    }

    /// The URL of `org/repo` on the host.
    pub open spec fn url(&self, org: Seq<char>, repo: Seq<char>) -> Seq<char> {
        match self.protocol {
            Protocol::Https => "https://"@ + self.host@ + "/"@ + org + "/"@ + repo + ".git"@,
            Protocol::Ssh => "git@"@ + self.host@ + ":"@ + org + "/"@ + repo + ".git"@,
        }
    }

    /// The configuration for `host` with every default in place. `temp_dir`
    /// is where the cache goes when the user has no cache directory.
    pub fn new(host: &str, temp_dir: &FsPath) -> (r: Config)
        ensures
            r.host@ == host@,
            r.protocol == Protocol::Https,
            exists|dir: Seq<u8>| r.cache_root@ == #[trigger] path_join(dir, utf8("treeportfs"@)),
            r.branch_ttl == 30 * SECOND,
            r.negative_ttl == 60 * SECOND,
    {
        Config {
            host: host.to_owned(),
            protocol: Protocol::Https,
            cache_root: default_cache_root(temp_dir),
            branch_ttl: DEFAULT_BRANCH_TTL,
            negative_ttl: DEFAULT_NEGATIVE_TTL,
        }
    }

    /// The directory that holds the bare repositories, by organisation.
    pub fn repos_dir(&self) -> (r: FsPath)
        ensures
            r@ == path_join_all(self.cache_root@, seq![self.host@, "repos"@]),
    {
        proof {
            reveal_with_fuel(path_join_all, 3);
            let names = seq![self.host@, "repos"@];
            assert(names.drop_last() =~= seq![self.host@]);
        }
        self.cache_root.join(self.host.as_str()).join("repos")
    }

    /// Bare (partial-clone) repository for `org/repo`.
    pub fn bare_repo_path(&self, org: &str, repo: &str) -> (r: FsPath)
        ensures
            r@ == self.bare_repo(org@, repo@),
    {
        let mut file = repo.to_owned();
        file.append(".git");
        proof {
            reveal_with_fuel(path_join_all, 5);
            let names = seq![self.host@, "repos"@, org@, repo@ + ".git"@];
            assert(names.drop_last() =~= seq![self.host@, "repos"@, org@]);
            assert(names.drop_last().drop_last() =~= seq![self.host@, "repos"@]);
            assert(names.drop_last().drop_last().drop_last() =~= seq![self.host@]);
        }
        self.cache_root.join(self.host.as_str()).join("repos").join(org).join(file.as_str())
    }

    /// Materialized worktree for a branch. Branch names may contain `/`
    /// (`feature/foo`); each step becomes a nested directory.
    pub fn worktree_path(&self, org: &str, repo: &str, branch: &str) -> (r: FsPath)
        ensures
            r@ == self.worktree(org@, repo@, branch@),
    {
        let mut p = self.cache_root.join(self.host.as_str()).join("worktrees").join(org).join(repo);
        let ghost base = p@;
        proof {
            reveal_with_fuel(path_join_all, 5);
            let names = seq![self.host@, "worktrees"@, org@, repo@];
            assert(names.drop_last() =~= seq![self.host@, "worktrees"@, org@]);
            assert(names.drop_last().drop_last() =~= seq![self.host@, "worktrees"@]);
            assert(names.drop_last().drop_last().drop_last() =~= seq![self.host@]);
            assert(base == path_join_all(self.cache_root@, names));
        }
        let steps = split_all(branch, 47u8);
        let ghost all = split(branch@, '/');
        let mut i: usize = 0;
        while i < steps.len()
            invariant
                i <= steps@.len(),
                texts(steps@) == all,
                p@ == path_join_all(base, all.take(i as int)),
            decreases steps@.len() - i,
        {
            proof {
                let next = all.take(i + 1);
                assert(next.drop_last() =~= all.take(i as int));
                assert(next.last() == texts(steps@)[i as int]);
            }
            p = p.join(steps[i]);
            i = i + 1;
        }
        assert(all.take(all.len() as int) =~= all);
        p
    }

    /// The URL that git is given for `org/repo`.
    pub fn remote_url(&self, org: &str, repo: &str) -> (r: String)
        ensures
            r@ == self.url(org@, repo@),
    {
        let mut url = match self.protocol {
            Protocol::Https => "https://".to_owned(),
            Protocol::Ssh => "git@".to_owned(),
        };
        url.append(self.host.as_str());
        match self.protocol {
            Protocol::Https => {
                url.append("/");
            },
            Protocol::Ssh => {
                url.append(":");
            },
        }
        url.append(org);
        url.append("/");
        url.append(repo);
        url.append(".git");
        url
    }
}

impl Clone for Config {
    fn clone(&self) -> (r: Config)
        ensures
            r.host@ == self.host@,
            r.protocol == self.protocol,
            r.cache_root@ == self.cache_root@,
            r.branch_ttl == self.branch_ttl,
            r.negative_ttl == self.negative_ttl,
    {
        Config {
            host: self.host.clone(),
            protocol: self.protocol,
            cache_root: self.cache_root.clone(),
            branch_ttl: self.branch_ttl,
            negative_ttl: self.negative_ttl,
        }
    }
}

/// A name that stands for exactly one step of a path.
pub open spec fn is_step(name: Seq<char>) -> bool {
    &&& name.len() > 0
    &&& name != seq!['.']
    &&& !name.contains('/')
}

/// A branch name in which every piece between slashes is a step.
pub open spec fn is_plain_branch(branch: Seq<char>) -> bool {
    forall|i: int| 0 <= i < split(branch, '/').len() ==> is_step(#[trigger] split(branch, '/')[i])
}

/// The bytes of a list of names.
pub open spec fn utf8_all(names: Seq<Seq<char>>) -> Seq<Seq<u8>> {
    Seq::new(names.len(), |i: int| utf8(names[i]))
}

/// A step is one component of a path.
pub proof fn lemma_step_component(name: Seq<char>)
    requires
        is_step(name),
    ensures
        is_component(utf8(name)),
        !utf8(name).contains(SEPARATOR),
{
    lemma_ascii_contains(name, '/');
    lemma_utf8_ascii('.');
    if utf8(name).len() == 0 {
        assert(utf8(name) =~= utf8(Seq::<char>::empty()));
        lemma_utf8_injective(name, Seq::<char>::empty());
    }
    if utf8(name) == seq![DOT] {
        assert(utf8(name) =~= utf8(seq!['.']));
        lemma_utf8_injective(name, seq!['.']);
    }
}

/// Descending through steps adds one component per step.
pub proof fn lemma_join_all_components(p: Seq<u8>, names: Seq<Seq<char>>)
    requires
        forall|i: int| 0 <= i < names.len() ==> is_step(#[trigger] names[i]),
    ensures
        components(path_join_all(p, names)) == components(p) + utf8_all(names),
    decreases names.len(),
{
    if names.len() == 0 {
        assert(components(p) + utf8_all(names) =~= components(p));
    } else {
        let init = names.drop_last();
        assert forall|i: int| 0 <= i < init.len() implies is_step(#[trigger] init[i]) by {
            assert(init[i] == names[i]);
        }
        lemma_join_all_components(p, init);
        let last = names.last();
        assert(is_step(names[names.len() - 1]));
        lemma_step_component(last);
        lemma_name_components(utf8(last));
        lemma_join_components(path_join_all(p, init), utf8(last));
        assert(components(p) + utf8_all(init) + seq![utf8(last)] =~= components(p) + utf8_all(names));
    }
}

proof fn lemma_join_all_concat(p: Seq<u8>, a: Seq<Seq<char>>, b: Seq<Seq<char>>)
    ensures
        path_join_all(p, a + b) == path_join_all(path_join_all(p, a), b),
    decreases b.len(),
{
    if b.len() == 0 {
        assert(a + b =~= a);
    } else {
        lemma_join_all_concat(p, a, b.drop_last());
        assert((a + b).drop_last() =~= a + b.drop_last());
    }
}

impl Config {
    /// Everything kept for the host lies below this directory.
    pub open spec fn host_dir(&self) -> Seq<u8> {
        path_join(self.cache_root@, utf8(self.host@))
    }

    /// A worktree lies below the host directory, under `worktrees`, the
    /// organisation, the repository and then the steps of the branch name.
    pub proof fn law_worktree_components(&self, org: Seq<char>, repo: Seq<char>, branch: Seq<char>)
        requires
            is_step(org),
            is_step(repo),
            is_plain_branch(branch),
        ensures
            components(self.worktree(org, repo, branch)) == components(self.host_dir()) + utf8_all(
                seq!["worktrees"@, org, repo] + split(branch, '/'),
            ),
    {
        reveal_strlit("worktrees");
        let names = seq![self.host@, "worktrees"@, org, repo];
        let tail = seq!["worktrees"@, org, repo];
        assert(names =~= seq![self.host@] + tail);
        lemma_join_all_concat(self.cache_root@, seq![self.host@], tail);
        reveal_with_fuel(path_join_all, 2);
        assert(seq![self.host@].drop_last() =~= Seq::<Seq<char>>::empty());
        assert(path_join_all(self.cache_root@, seq![self.host@]) == self.host_dir());
        lemma_join_all_concat(self.host_dir(), tail, split(branch, '/'));
        assert(is_step("worktrees"@)) by {
            assert("worktrees"@.len() == 9);
        }
        let all = tail + split(branch, '/');
        assert forall|i: int| 0 <= i < all.len() implies is_step(#[trigger] all[i]) by {
            if i >= 3 {
                assert(all[i] == split(branch, '/')[i - 3]);
            }
        }
        lemma_join_all_components(self.host_dir(), all);
    }

    /// A bare repository lies below the host directory, under `repos`, the
    /// organisation and the repository.
    pub proof fn law_bare_components(&self, org: Seq<char>, repo: Seq<char>)
        requires
            is_step(org),
            !repo.contains('/'),
        ensures
            components(self.bare_repo(org, repo)) == components(self.host_dir()) + utf8_all(
                seq!["repos"@, org, repo + ".git"@],
            ),
    {
        reveal_strlit("repos");
        reveal_strlit(".git");
        let file = repo + ".git"@;
        let names = seq![self.host@, "repos"@, org, file];
        let tail = seq!["repos"@, org, file];
        assert(names =~= seq![self.host@] + tail);
        lemma_join_all_concat(self.cache_root@, seq![self.host@], tail);
        reveal_with_fuel(path_join_all, 2);
        assert(seq![self.host@].drop_last() =~= Seq::<Seq<char>>::empty());
        assert(path_join_all(self.cache_root@, seq![self.host@]) == self.host_dir());
        assert(is_step("repos"@)) by {
            assert("repos"@.len() == 5);
        }
        assert(is_step(file)) by {
            assert(file.len() >= 4);
            if file.contains('/') {
                let k = choose|k: int| 0 <= k < file.len() && file[k] == '/';
                if k < repo.len() {
                    assert(repo[k] == '/');
                } else {
                    assert(".git"@[k - repo.len()] == '/');
                }
            }
        }
        lemma_join_all_components(self.host_dir(), tail);
    }

    /// Mapping repositories to bare repositories is collision-free: one lies
    /// inside another, or is it, exactly if both are of the same repository.
    pub proof fn law_bare_repositories_distinct(
        &self,
        org: Seq<char>,
        repo: Seq<char>,
        org2: Seq<char>,
        repo2: Seq<char>,
    )
        requires
            is_step(org),
            !repo.contains('/'),
            is_step(org2),
            !repo2.contains('/'),
        ensures
            components(self.bare_repo(org, repo)).is_prefix_of(
                components(self.bare_repo(org2, repo2)),
            ) <==> org == org2 && repo == repo2,
    {
        self.law_bare_components(org, repo);
        self.law_bare_components(org2, repo2);
        let host = components(self.host_dir());
        let a = seq!["repos"@, org, repo + ".git"@];
        let b = seq!["repos"@, org2, repo2 + ".git"@];
        let outer = components(self.bare_repo(org, repo));
        let inner = components(self.bare_repo(org2, repo2));
        if outer.is_prefix_of(inner) {
            assert forall|i: int| 0 <= i < 3 implies a[i] == b[i] by {
                assert(outer[host.len() + i] == inner[host.len() + i]);
                assert(utf8_all(a)[i] == utf8_all(b)[i]);
                lemma_utf8_injective(a[i], b[i]);
            }
            assert(a[1] == org && b[1] == org2);
            assert(a[2] == repo + ".git"@ && b[2] == repo2 + ".git"@);
            assert(repo =~= a[2].take(repo.len() as int));
            assert(repo2 =~= b[2].take(repo2.len() as int));
        }
        if org == org2 && repo == repo2 {
            assert(outer =~= inner.subrange(0, outer.len() as int));
        }
    }

    /// Mapping branches to worktrees is collision-free: two branches share a
    /// worktree exactly if they are the same branch of the same repository.
    pub proof fn law_worktrees_distinct(
        &self,
        org: Seq<char>,
        repo: Seq<char>,
        branch: Seq<char>,
        org2: Seq<char>,
        repo2: Seq<char>,
        branch2: Seq<char>,
    )
        requires
            is_step(org),
            is_step(repo),
            is_plain_branch(branch),
            is_step(org2),
            is_step(repo2),
            is_plain_branch(branch2),
        ensures
            components(self.worktree(org, repo, branch)) == components(
                self.worktree(org2, repo2, branch2),
            ) <==> org == org2 && repo == repo2 && branch == branch2,
    {
        let outer = components(self.worktree(org, repo, branch));
        if outer == components(self.worktree(org2, repo2, branch2)) {
            assert(outer =~= outer.subrange(0, outer.len() as int));
            self.law_worktree_nesting(org, repo, branch, org2, repo2, branch2);
            self.law_worktree_nesting(org2, repo2, branch2, org, repo, branch);
            assert(split(branch, '/') =~= split(branch2, '/'));
            lemma_join_split(branch, '/');
            lemma_join_split(branch2, '/');
        }
    }

    /// One worktree lies inside another, or is it, exactly if both belong to
    /// one repository and the outer branch name is a leading part of the inner
    /// one. Git's rules on ref names forbid that for two branches of a
    /// repository.
    pub proof fn law_worktree_nesting(
        &self,
        org: Seq<char>,
        repo: Seq<char>,
        branch: Seq<char>,
        org2: Seq<char>,
        repo2: Seq<char>,
        branch2: Seq<char>,
    )
        requires
            is_step(org),
            is_step(repo),
            is_plain_branch(branch),
            is_step(org2),
            is_step(repo2),
            is_plain_branch(branch2),
        ensures
            components(self.worktree(org, repo, branch)).is_prefix_of(
                components(self.worktree(org2, repo2, branch2)),
            ) <==> {
                &&& org == org2
                &&& repo == repo2
                &&& split(branch, '/').is_prefix_of(split(branch2, '/'))
            },
    {
        self.law_worktree_components(org, repo, branch);
        self.law_worktree_components(org2, repo2, branch2);
        let host = components(self.host_dir());
        let x = split(branch, '/');
        let y = split(branch2, '/');
        let a = seq!["worktrees"@, org, repo] + x;
        let b = seq!["worktrees"@, org2, repo2] + y;
        let inner = components(self.worktree(org2, repo2, branch2));
        let outer = components(self.worktree(org, repo, branch));
        if outer.is_prefix_of(inner) {
            assert forall|i: int| 0 <= i < a.len() implies a[i] == b[i] by {
                assert(outer[host.len() + i] == inner[host.len() + i]);
                assert(utf8_all(a)[i] == utf8_all(b)[i]);
                lemma_utf8_injective(a[i], b[i]);
            }
            assert(a[1] == org && b[1] == org2);
            assert(a[2] == repo && b[2] == repo2);
            assert(a.len() <= b.len());
            assert forall|i: int| 0 <= i < x.len() implies x[i] == y[i] by {
                assert(a[i + 3] == b[i + 3]);
            }
            assert(x =~= y.subrange(0, x.len() as int));
        }
        if org == org2 && repo == repo2 && x.is_prefix_of(y) {
            assert forall|i: int| 0 <= i < a.len() implies a[i] == b[i] by {
                if i >= 3 {
                    assert(x[i - 3] == y.subrange(0, x.len() as int)[i - 3]);
                }
            }
            assert forall|i: int| 0 <= i < outer.len() implies outer[i] == inner[i] by {
                if i >= host.len() {
                    assert(utf8_all(a)[i - host.len()] == utf8_all(b)[i - host.len()]);
                }
            }
            assert(outer =~= inner.subrange(0, outer.len() as int));
        }
    }

    /// No worktree lies inside a bare repository and none holds one.
    pub proof fn law_bare_apart_from_worktrees(
        &self,
        org: Seq<char>,
        repo: Seq<char>,
        org2: Seq<char>,
        repo2: Seq<char>,
        branch2: Seq<char>,
    )
        requires
            is_step(org),
            !repo.contains('/'),
            is_step(org2),
            is_step(repo2),
            is_plain_branch(branch2),
        ensures
            !components(self.bare_repo(org, repo)).is_prefix_of(
                components(self.worktree(org2, repo2, branch2)),
            ),
            !components(self.worktree(org2, repo2, branch2)).is_prefix_of(
                components(self.bare_repo(org, repo)),
            ),
    {
        self.law_bare_components(org, repo);
        self.law_worktree_components(org2, repo2, branch2);
        reveal_strlit("repos");
        reveal_strlit("worktrees");
        let host = components(self.host_dir());
        let a = seq!["repos"@, org, repo + ".git"@];
        let b = seq!["worktrees"@, org2, repo2] + split(branch2, '/');
        let n = host.len() as int;
        assert(components(self.bare_repo(org, repo))[n] == utf8_all(a)[0]);
        assert(components(self.worktree(org2, repo2, branch2))[n] == utf8_all(b)[0]);
        if utf8(a[0]) == utf8(b[0]) {
            lemma_utf8_injective(a[0], b[0]);
            assert("repos"@.len() == "worktrees"@.len());
        }
    }
}

} // verus!
