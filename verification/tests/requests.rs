use std::collections::BTreeSet;
use treeportfs::action::{GitError, IoErrorKind};
use treeportfs::caches::{creation_err, fresh, materialize_err};
use treeportfs::changes::{AttrStep, LinkStep};
use treeportfs::config::{Config, Protocol, SECOND};
use treeportfs::fs::{CachedRepo, TreeportFs};
use treeportfs::fspath::FsPath;
use treeportfs::git::GitCache;
use treeportfs::need::{Event, Need};
use treeportfs::node::{NodeKind, State};
use treeportfs::porcelain::Checkout;
use treeportfs::protocol::{FileAttr, FileType, ReadDirResult, Status};
use treeportfs::readdir::{settle, ListedAttr, ListedEntry};
use treeportfs::serve_edit::{MkdirNext, MkdirStage, RemoveNext, RemoveStage};
use treeportfs::serve_list::{PageRequest, ReaddirNext, ReaddirStage};
use treeportfs::serve_lookup::{LookupNext, LookupStage};
use treeportfs::task::DiskTask;
use treeportfs::tree::{NfsTime, ROOT_ID};

const TTL: u128 = 30 * SECOND;

fn at(seconds: u32) -> NfsTime {
    NfsTime { seconds, nseconds: 0 }
}

fn path(text: &str) -> FsPath {
    FsPath::from_text(text)
}

fn text(p: &FsPath) -> String {
    String::from_utf8(p.as_bytes().to_vec()).unwrap()
}

/// A small world that answers what requests need.
struct World {
    fs: TreeportFs,
    heads: Option<Vec<&'static str>>,
    local: Option<Vec<&'static str>>,
    worktrees: Option<Vec<(&'static str, &'static str)>>,
    files: BTreeSet<String>,
    log: Vec<String>,
    now: u128,
}

impl World {
    fn new() -> World {
        World::with(&[])
    }

    fn with(found: &[(&str, &str)]) -> World {
        let git = GitCache::new(Config {
            host: "h".to_string(),
            protocol: Protocol::Https,
            cache_root: path("/c"),
            branch_ttl: TTL,
            negative_ttl: 2 * TTL,
        });
        let found: Vec<CachedRepo> = found
            .iter()
            .map(|(o, f)| CachedRepo { org: o.as_bytes().to_vec(), file: f.as_bytes().to_vec() })
            .collect();
        World {
            fs: TreeportFs::new(git, (7, 8), at(100), &found),
            heads: Some(vec!["main", "feature/x"]),
            local: None,
            worktrees: Some(vec![]),
            files: BTreeSet::new(),
            log: Vec::new(),
            now: 0,
        }
    }

    fn attr(&self, id: u64) -> FileAttr {
        FileAttr {
            ftype: FileType::Regular,
            mode: 0o600,
            nlink: 1,
            uid: 1,
            gid: 1,
            size: 3,
            used: 3,
            rdev_major: 0,
            rdev_minor: 0,
            fsid: 0,
            fileid: id,
            atime: at(1),
            mtime: at(1),
            ctime: at(1),
        }
    }

    fn answer(&mut self, need: Need) -> Event {
        fn owned(list: &[&str]) -> Vec<String> {
            list.iter().map(|s| s.to_string()).collect()
        }
        match need {
            Need::Worktrees { org, repo } => {
                self.log.push(format!("worktrees {org}/{repo}"));
                Event::Worktrees(self.worktrees.as_ref().map(|list| {
                    list.iter()
                        .map(|(b, p)| Checkout { branch: b.to_string(), path: path(p) })
                        .collect()
                }))
            }
            Need::Heads { org, repo } => {
                self.log.push(format!("heads {org}/{repo}"));
                Event::Heads {
                    remote: self.heads.as_ref().map(|l| owned(l)),
                    local: self.local.as_ref().map(|l| owned(l)),
                }
            }
            Need::CheckOut { org, repo, branch } => {
                self.log.push(format!("checkout {org}/{repo}@{branch}"));
                Event::CheckedOut(Ok(path(&format!("/w/{branch}"))))
            }
            Need::DefaultBranch { org, repo } => {
                self.log.push(format!("default {org}/{repo}"));
                Event::DefaultBranch(Some("main".to_string()))
            }
            Need::Fork { org, repo, branch, base } => {
                self.log.push(format!("fork {org}/{repo}@{branch} off {base}"));
                Event::CheckedOut(Ok(path(&format!("/w/{branch}"))))
            }
            Need::Delete { org, repo, branch } => {
                self.log.push(format!("delete {org}/{repo}@{branch}"));
                Event::Deleted(true)
            }
            Need::Refresh(task) => {
                self.log.push(format!("refresh {}/{}@{}", task.org, task.repo, task.branch));
                Event::Refreshed
            }
            Need::Exists(p) | Need::Reachable(p) => {
                self.log.push(format!("exists {}", text(&p)));
                Event::Exists(self.files.contains(&text(&p)))
            }
            Need::MakeDir(p) => {
                self.log.push(format!("mkdir {}", text(&p)));
                if self.files.insert(text(&p)) {
                    Event::Made(Ok(()))
                } else {
                    Event::Made(Err(IoErrorKind::AlreadyExists))
                }
            }
            Need::Remove(p) => {
                self.log.push(format!("rm {}", text(&p)));
                if self.files.remove(&text(&p)) {
                    Event::Removed(Ok(()))
                } else {
                    Event::Removed(Err(IoErrorKind::NotFound))
                }
            }
            Need::List(p) => {
                let dir = format!("{}/", text(&p));
                let mut names: Vec<Vec<u8>> = self
                    .files
                    .iter()
                    .rev()
                    .filter_map(|f| f.strip_prefix(&dir))
                    .filter(|f| !f.contains('/'))
                    .map(|f| f.as_bytes().to_vec())
                    .collect();
                names.push(vec![0xff]);
                Event::Listed(Ok(names))
            }
            Need::Attributes(wanted) => Event::Attributes(
                wanted
                    .iter()
                    .map(|w| match w {
                        Some((id, p)) if self.files.contains(&text(p)) => Some(self.attr(*id)),
                        _ => None,
                    })
                    .collect(),
            ),
        }
    }

    fn lookup(&mut self, dir: u64, name: &str) -> Result<u64, Status> {
        self.lookup_bytes(dir, name.as_bytes())
    }

    fn lookup_bytes(&mut self, dir: u64, name: &[u8]) -> Result<u64, Status> {
        let mut next = self.fs.lookup(dir, name, self.now, at(200));
        loop {
            match next {
                LookupNext::Done(result) => return result,
                LookupNext::Wait(need, stage) => {
                    let event = self.answer(need);
                    next = self.fs.lookup_next(stage, event, self.now, at(200));
                }
            }
        }
    }

    fn mkdir(&mut self, dir: u64, name: &str) -> Result<(u64, FsPath), Status> {
        let mut next = self.fs.mkdir(dir, name.as_bytes(), self.now);
        loop {
            match next {
                MkdirNext::Done(result) => return result,
                MkdirNext::Wait(need, stage) => {
                    let event = self.answer(need);
                    next = self.fs.mkdir_next(stage, event, self.now, at(200));
                }
            }
        }
    }

    fn remove(&mut self, dir: u64, name: &str) -> Result<(), Status> {
        let mut next = self.fs.remove(dir, name.as_bytes(), self.now);
        loop {
            match next {
                RemoveNext::Done(result) => return result,
                RemoveNext::Wait(need, stage) => {
                    let event = self.answer(need);
                    next = self.fs.remove_next(stage, event, self.now, at(200));
                }
            }
        }
    }

    fn page(&mut self, dirid: u64, start_after: u64, max_entries: usize) -> Result<ReadDirResult, Status> {
        let request = PageRequest { dirid, start_after, max_entries };
        let mut next = self.fs.readdir(request, self.now, at(200));
        loop {
            match next {
                ReaddirNext::Done(result) => return result,
                ReaddirNext::Wait(need, stage) => {
                    let event = self.answer(need);
                    next = self.fs.readdir_next(stage, event, self.now, at(200));
                }
            }
        }
    }

    fn names(&mut self, dir: u64) -> Vec<String> {
        self.page(dir, 0, 0).unwrap().entries.into_iter().map(|e| e.name).collect()
    }

    fn refs(&mut self) -> u64 {
        let org = self.lookup(ROOT_ID, "o").unwrap();
        let repo = self.lookup(org, "r").unwrap();
        let refs = self.lookup(repo, "refs").unwrap();
        self.log.clear();
        refs
    }
}

#[test]
fn the_root_starts_empty_and_shows_validated_organisations() {
    let mut w = World::new();
    assert!(w.names(ROOT_ID).is_empty());
    let org = w.lookup(ROOT_ID, "o").unwrap();
    assert!(w.names(ROOT_ID).is_empty());
    let repo = w.lookup(org, "r").unwrap();
    assert_eq!(w.log, vec!["heads o/r"]);
    assert_eq!(w.names(ROOT_ID), vec!["o"]);
    assert_eq!(w.names(org), vec!["r"]);
    assert_eq!(w.names(repo), vec!["refs"]);
}

#[test]
fn cached_repositories_are_there_after_a_restart() {
    let mut w = World::with(&[("o", "r.git"), ("o", "s.git"), ("p", "junk"), ("o", "x.git.partial")]);
    assert_eq!(w.names(ROOT_ID), vec!["o"]);
    let org = w.lookup(ROOT_ID, "o").unwrap();
    assert_eq!(w.names(org), vec!["r", "s"]);
    assert!(w.log.is_empty());
}

#[test]
fn lookups_repeat_and_dots_work() {
    let mut w = World::new();
    let a = w.lookup(ROOT_ID, "o").unwrap();
    assert_eq!(w.lookup(ROOT_ID, "o"), Ok(a));
    assert_eq!(w.lookup(a, "."), Ok(a));
    assert_eq!(w.lookup(a, ".."), Ok(ROOT_ID));
    assert_eq!(w.lookup(99, "x"), Err(Status::Stale));
    assert_eq!(w.lookup(ROOT_ID, ".DS_Store"), Err(Status::NoEnt));
    assert_eq!(w.lookup(a, "._r"), Err(Status::NoEnt));
    assert_eq!(w.lookup_bytes(ROOT_ID, &[0xff]), Err(Status::NoEnt));
    assert!(w.log.is_empty());
}

#[test]
fn missing_repositories_are_remembered_for_a_while() {
    let mut w = World::new();
    w.heads = None;
    let org = w.lookup(ROOT_ID, "o").unwrap();
    assert_eq!(w.lookup(org, "r"), Err(Status::NoEnt));
    w.now = 2 * TTL - 1;
    assert_eq!(w.lookup(org, "r"), Err(Status::NoEnt));
    assert_eq!(w.log, vec!["heads o/r"]);
    w.now = 2 * TTL;
    w.heads = Some(vec!["main"]);
    assert!(w.lookup(org, "r").is_ok());
    assert_eq!(w.log.len(), 2);
}

#[test]
fn branches_nest_and_are_checked_out_on_access() {
    let mut w = World::new();
    let refs = w.refs();
    let feature = w.lookup(refs, "feature").unwrap();
    assert_eq!(w.log, vec!["worktrees o/r"]);
    let x = w.lookup(feature, "x").unwrap();
    assert_eq!(w.log.last().unwrap(), "checkout o/r@feature/x");
    assert!(matches!(&w.fs.state.get(x).unwrap().kind, NodeKind::Worktree { root } if text(root) == "/w/feature/x"));
    w.log.clear();
    assert_eq!(w.lookup(feature, "x"), Ok(x));
    assert!(w.log.is_empty());
    w.now = TTL;
    assert_eq!(w.lookup(feature, "x"), Ok(x));
    assert_eq!(w.lookup(feature, "x"), Ok(x));
    assert_eq!(w.log, vec!["refresh o/r@feature/x"]);
}

#[test]
fn unknown_branches_may_be_local() {
    let mut w = World::new();
    let refs = w.refs();
    assert_eq!(w.lookup(refs, "mine"), Err(Status::NoEnt));
    w.files.insert("/c/h/worktrees/o/r/mine/.git".to_string());
    let id = w.lookup(refs, "mine").unwrap();
    assert!(matches!(&w.fs.state.get(id).unwrap().kind, NodeKind::Worktree { root } if text(root) == "/c/h/worktrees/o/r/mine"));
}

#[test]
fn checkout_failures_become_statuses() {
    let mut w = World::new();
    let refs = w.refs();
    for (error, status) in [
        (GitError::RepoNotFound("o/r".to_string()), Status::NoEnt),
        (GitError::BranchNotFound("o/r@main".to_string()), Status::NoEnt),
        (GitError::Io(IoErrorKind::NotFound), Status::Io),
        (GitError::CommandFailed { args: vec![], stderr: "not found".to_string() }, Status::Io),
    ] {
        assert_eq!(materialize_err(&error), status);
        let mut next = w.fs.lookup(refs, b"main", w.now, at(1));
        let mut error = Some(error);
        let result = loop {
            match next {
                LookupNext::Done(result) => break result,
                LookupNext::Wait(Need::CheckOut { .. }, stage) => {
                    next = w.fs.lookup_next(stage, Event::CheckedOut(Err(error.take().unwrap())), w.now, at(1));
                }
                LookupNext::Wait(need, stage) => {
                    let event = w.answer(need);
                    next = w.fs.lookup_next(stage, event, w.now, at(1));
                }
            }
        };
        assert_eq!(result, Err(status));
    }
}

#[test]
fn a_lookup_into_an_unmaterialized_branch_checks_it_out() {
    let mut w = World::new();
    let refs = w.refs();
    let main = w.fs.state.add_child(refs, "main", NodeKind::RefPath, at(1));
    w.files.insert("/w/main/README".to_string());
    let id = w.lookup(main, "README").unwrap();
    assert!(w.log.contains(&"checkout o/r@main".to_string()));
    assert_eq!(text(&w.fs.state.disk_path(id).unwrap()), "/w/main/README");
    let other = w.fs.state.add_child(refs, "other", NodeKind::RefPath, at(1));
    assert_eq!(w.lookup(other, "x"), Err(Status::NoEnt));
}

#[test]
fn foreign_worktrees_are_symlinks() {
    let mut w = World::new();
    w.worktrees = Some(vec![
        ("main", "/c/h/worktrees/o/r/main"),
        ("agent/fix", "/tmp/fix"),
        ("solo", "/tmp/solo"),
    ]);
    let refs = w.refs();
    let solo = w.lookup(refs, "solo").unwrap();
    assert!(matches!(w.fs.readlink(solo), LinkStep::Target(p) if text(&p) == "/tmp/solo"));
    let agent = w.lookup(refs, "agent").unwrap();
    assert!(matches!(w.fs.state.get(agent).unwrap().kind, NodeKind::RefPath));
    assert_eq!(w.names(refs), vec!["agent", "feature", "main", "solo"]);
    assert_eq!(w.names(agent), vec!["fix"]);
    assert_eq!(w.lookup(solo, "x"), Err(Status::NotDir));
    assert!(matches!(w.page(solo, 0, 0), Err(Status::NotDir)));
    w.worktrees = Some(vec![]);
    w.now = TTL;
    assert_eq!(w.names(refs), vec!["feature", "main"]);
    assert!(w.fs.state.get(solo).is_none());
    assert_eq!(w.lookup(refs, "solo"), Err(Status::NoEnt));
}

#[test]
fn a_symlink_to_a_worktree_that_is_gone_is_resolved_anew() {
    let mut w = World::new();
    w.worktrees = Some(vec![("main", "/tmp/main")]);
    let refs = w.refs();
    let link = w.lookup(refs, "main").unwrap();
    w.worktrees = None;
    w.now = TTL;
    let main = w.lookup(refs, "main").unwrap();
    assert_ne!(main, link);
    assert!(matches!(&w.fs.state.get(main).unwrap().kind, NodeKind::Worktree { .. }));
}

#[test]
fn listing_a_branch_that_is_elsewhere_is_listing_a_symlink() {
    let mut w = World::new();
    let refs = w.refs();
    let main = w.fs.state.add_child(refs, "main", NodeKind::RefPath, at(1));
    w.worktrees = Some(vec![("main", "/tmp/main")]);
    assert!(matches!(w.page(main, 0, 0), Err(Status::NotDir)));
}

#[test]
fn refs_are_listed_with_attributes() {
    let mut w = World::new();
    w.worktrees = Some(vec![("solo", "/tmp/solo")]);
    let refs = w.refs();
    w.lookup(refs, "main").unwrap();
    w.files.insert("/w/main".to_string());
    let page = w.page(refs, 0, 0).unwrap();
    assert!(page.end);
    let main = &page.entries[1];
    assert_eq!((main.name.as_str(), main.attr.ftype), ("main", FileType::Regular));
    let feature = &page.entries[0];
    assert_eq!((feature.attr.ftype, feature.attr.mode, feature.attr.nlink), (FileType::Directory, 0o755, 2));
    assert_eq!((feature.attr.uid, feature.attr.gid, feature.attr.size), (7, 8, 4096));
    assert_eq!(feature.attr.mtime, at(200));
    let solo = &page.entries[2];
    assert_eq!((solo.attr.ftype, solo.attr.mode, solo.attr.size), (FileType::Link, 0o777, 9));
    assert_eq!(solo.attr.mtime, at(100));
    w.files.clear();
    assert_eq!(w.page(refs, 0, 0).unwrap().entries[1].attr.ftype, FileType::Directory);
    let again = w.page(refs, page.entries[0].fileid, 1).unwrap();
    assert_eq!((again.entries.len(), again.entries[0].fileid, again.end), (1, page.entries[1].fileid, false));
}

#[test]
fn a_directory_of_refs_that_leads_nowhere_does_not_exist() {
    let mut w = World::new();
    let refs = w.refs();
    let gone = w.fs.state.add_child(refs, "gone", NodeKind::RefPath, at(1));
    assert!(matches!(w.page(gone, 0, 0), Err(Status::NoEnt)));
    let mut empty = World::new();
    empty.heads = Some(vec![]);
    let refs = empty.refs();
    assert!(empty.names(refs).is_empty());
}

#[test]
fn worktrees_list_their_files_and_keep_numbers() {
    let mut w = World::new();
    let refs = w.refs();
    let main = w.lookup(refs, "main").unwrap();
    for f in ["b", "a", "c"] {
        w.files.insert(format!("/w/main/{f}"));
    }
    let first = w.page(main, 0, 0).unwrap();
    let names: Vec<&str> = first.entries.iter().map(|e| e.name.as_str()).collect();
    assert_eq!(names, vec!["a", "b", "c"]);
    w.files.remove("/w/main/b");
    let second = w.page(main, 0, 0).unwrap();
    assert_eq!(second.entries[1].fileid, first.entries[2].fileid);
    let rest = w.page(main, first.entries[0].fileid, 1).unwrap();
    assert_eq!(rest.entries[0].name, "c");
    w.now = TTL;
    w.log.clear();
    w.page(main, 0, 0).unwrap();
    assert_eq!(w.log, vec!["refresh o/r@main"]);
}

#[test]
fn listing_an_unmaterialized_branch_checks_it_out() {
    let mut w = World::new();
    let refs = w.refs();
    w.names(refs);
    let main = w.fs.state.child(refs, "main").unwrap();
    w.files.insert("/w/main/a".to_string());
    assert_eq!(w.names(main), vec!["a"]);
    assert!(w.log.contains(&"checkout o/r@main".to_string()));
    assert!(matches!(&w.fs.state.get(main).unwrap().kind, NodeKind::Worktree { .. }));
}

#[test]
fn a_stale_listing_serves_while_the_remote_is_away() {
    let mut w = World::new();
    let refs = w.refs();
    let before = w.fs.state.get(refs).unwrap().mtime;
    w.heads = None;
    w.now = TTL;
    assert_eq!(w.names(refs), vec!["feature", "main"]);
    w.heads = Some(vec!["feature/x", "main"]);
    assert_eq!(w.names(refs), vec!["feature", "main"]);
    assert_eq!(w.fs.state.get(refs).unwrap().mtime, before);
    let mut cold = World::with(&[("o", "r.git")]);
    cold.heads = None;
    cold.local = Some(vec!["old"]);
    let refs = cold.refs();
    assert_eq!(cold.names(refs), vec!["old"]);
}

#[test]
fn a_changed_listing_touches_the_refs_subtree() {
    let mut w = World::new();
    let refs = w.refs();
    w.heads = Some(vec!["main"]);
    w.now = TTL;
    assert!(w.fs.trie_update("o", "r", Some(vec!["main".to_string()]), None, TTL, at(300)).is_ok());
    assert_eq!(w.fs.state.get(refs).unwrap().mtime, at(300));
    assert!(w.fs.trie_update("o", "r", Some(vec!["main".to_string()]), None, TTL, at(400)).is_ok());
    assert_eq!(w.fs.state.get(refs).unwrap().mtime, at(300));
}

#[test]
fn making_a_directory_in_refs_creates_a_branch() {
    let mut w = World::new();
    let refs = w.refs();
    let (id, root) = w.mkdir(refs, "new").unwrap();
    assert_eq!(w.log, vec!["worktrees o/r", "default o/r", "fork o/r@new off main"]);
    assert_eq!(text(&root), "/w/new");
    assert_eq!(w.lookup(refs, "new"), Ok(id));
    assert_eq!(w.mkdir(refs, "new").unwrap_err(), Status::Exist);
    assert_eq!(w.mkdir(refs, "main").unwrap_err(), Status::Exist);
    assert_eq!(w.mkdir(refs, "feature").unwrap_err(), Status::Exist);
    assert_eq!(w.mkdir(refs, ".hidden").unwrap_err(), Status::Acces);
    assert_eq!(w.mkdir(99, "x").unwrap_err(), Status::Stale);
    w.log.clear();
    w.mkdir(refs, "second").unwrap();
    assert_eq!(w.log, vec!["fork o/r@second off main"]);
}

#[test]
fn foreign_branches_cannot_be_created() {
    let mut w = World::new();
    w.worktrees = Some(vec![("agent/fix", "/tmp/fix"), ("solo", "/tmp/solo")]);
    let refs = w.refs();
    assert_eq!(w.mkdir(refs, "solo").unwrap_err(), Status::Exist);
    assert_eq!(w.mkdir(refs, "agent").unwrap_err(), Status::Exist);
}

#[test]
fn creation_failures_become_statuses() {
    let exists = GitError::CommandFailed { args: vec![], stderr: "branch 'x' already exists".to_string() };
    assert_eq!(creation_err(&exists), Status::Exist);
    let held = GitError::CommandFailed { args: vec![], stderr: "'x' is already checked out".to_string() };
    assert_eq!(creation_err(&held), Status::Exist);
    assert_eq!(creation_err(&GitError::BranchNotFound("x".to_string())), Status::Io);
    let mut w = World::new();
    let refs = w.refs();
    let task = match w.fs.mkdir(refs, b"n", 0) {
        MkdirNext::Wait(_, MkdirStage::Foreign(task)) => task,
        other => panic!("{other:?}"),
    };
    let next = w.fs.mkdir_next(MkdirStage::Fork(task), Event::CheckedOut(Err(exists)), 0, at(1));
    assert!(matches!(next, MkdirNext::Done(Err(Status::Exist))));
}

#[test]
fn directories_on_disk_are_made_and_removed() {
    let mut w = World::new();
    let refs = w.refs();
    let main = w.lookup(refs, "main").unwrap();
    let (dir, p) = w.mkdir(main, "src").unwrap();
    assert_eq!(text(&p), "/w/main/src");
    assert_eq!(w.mkdir(main, "src").unwrap_err(), Status::Exist);
    assert_eq!(w.mkdir(main, "..").unwrap_err(), Status::Acces);
    assert_eq!(w.lookup(main, "src"), Ok(dir));
    assert_eq!(w.remove(main, "src"), Ok(()));
    assert_eq!(w.remove(main, "src"), Err(Status::NoEnt));
    assert_eq!(w.lookup(main, "src"), Err(Status::NoEnt));
    assert_eq!(w.mkdir(ROOT_ID, "x").unwrap_err(), Status::RoFs);
    assert_eq!(w.remove(ROOT_ID, "x"), Err(Status::RoFs));
    assert_eq!(w.remove(main, "."), Err(Status::Acces));
}

#[test]
fn removing_in_refs_deletes_only_branches() {
    let mut w = World::new();
    w.worktrees = Some(vec![("solo", "/tmp/solo")]);
    let refs = w.refs();
    assert_eq!(w.remove(refs, "feature"), Err(Status::Acces));
    assert_eq!(w.remove(refs, "nope"), Err(Status::NoEnt));
    assert_eq!(w.remove(refs, "main"), Ok(()));
    assert_eq!(w.log.last().unwrap(), "delete o/r@main");
    assert_eq!(w.remove(refs, "solo"), Ok(()));
    let main = w.lookup(refs, "main").unwrap();
    w.log.clear();
    assert_eq!(w.remove(refs, "main"), Ok(()));
    assert_eq!(w.log, vec!["delete o/r@main"]);
    assert!(w.fs.state.get(main).is_none());
    assert!(w.fs.state.refreshed_at(main).is_none());
    w.log.clear();
    w.names(refs);
    assert_eq!(w.log, vec!["worktrees o/r", "heads o/r"]);
    assert_eq!(w.remove(99, "x"), Err(Status::Stale));
}

#[test]
fn a_deletion_that_fails_keeps_the_branch() {
    let mut w = World::new();
    let refs = w.refs();
    let main = w.lookup(refs, "main").unwrap();
    match w.fs.remove(refs, b"main", 0) {
        RemoveNext::Wait(Need::Delete { .. }, stage) => {
            let next = w.fs.remove_next(stage, Event::Deleted(false), 0, at(1));
            assert!(matches!(next, RemoveNext::Done(Err(Status::Io))));
        }
        other => panic!("{other:?}"),
    }
    assert!(w.fs.state.get(main).is_some());
}

#[test]
fn answers_to_other_questions_are_errors() {
    let mut w = World::new();
    let refs = w.refs();
    match w.fs.lookup(refs, b"main", 0, at(1)) {
        LookupNext::Wait(_, stage) => {
            assert!(matches!(stage, LookupStage::Foreign(_)));
            let next = w.fs.lookup_next(stage, Event::Failed, 0, at(1));
            assert!(matches!(next, LookupNext::Done(Err(Status::Io))));
        }
        other => panic!("{other:?}"),
    }
    match w.fs.remove(refs, b"x", 0) {
        RemoveNext::Wait(_, stage) => {
            assert!(matches!(stage, RemoveStage::Foreign(_)));
            let next = w.fs.remove_next(stage, Event::Failed, 0, at(1));
            assert!(matches!(next, RemoveNext::Done(Err(Status::Io))));
        }
        other => panic!("{other:?}"),
    }
    let request = PageRequest { dirid: refs, start_after: 0, max_entries: 0 };
    match w.fs.readdir(request, 0, at(1)) {
        ReaddirNext::Wait(_, stage) => {
            assert!(matches!(stage, ReaddirStage::Foreign(_, _)));
            let next = w.fs.readdir_next(stage, Event::Failed, 0, at(1));
            assert!(matches!(next, ReaddirNext::Done(Err(Status::Io))));
        }
        other => panic!("{other:?}"),
    }
}

#[test]
fn files_are_created_in_worktrees_only() {
    let mut w = World::new();
    let refs = w.refs();
    let main = w.lookup(refs, "main").unwrap();
    let task = w.fs.create(main, b"f").unwrap();
    assert_eq!(text(&task.path), "/w/main/f");
    let id = w.fs.add_disk_child(task.dirid, &task.name, at(1));
    assert_eq!(w.fs.add_disk_child(task.dirid, &task.name, at(2)), id);
    assert_eq!(w.fs.create(main, b"a/b").unwrap_err(), Status::Acces);
    assert_eq!(w.fs.create_exclusive(main, &[0xff]).unwrap_err(), Status::NoEnt);
    assert_eq!(w.fs.create(refs, b"f").unwrap_err(), Status::RoFs);
    assert_eq!(w.fs.create(99, b"f").unwrap_err(), Status::Stale);
    let (link, target) = w.fs.symlink(main, b"l", b"../f").unwrap();
    assert_eq!((text(&link.path).as_str(), target.as_str()), ("/w/main/l", "../f"));
    assert_eq!(w.fs.symlink(main, b"l", &[0xff]).unwrap_err(), Status::Inval);
    assert_eq!(w.fs.symlink(main, b"", &[0xff]).unwrap_err(), Status::Acces);
}

#[test]
fn single_requests_resolve_real_paths() {
    let mut w = World::new();
    let refs = w.refs();
    let main = w.lookup(refs, "main").unwrap();
    assert_eq!(text(&w.fs.read(main).unwrap()), "/w/main");
    assert_eq!(w.fs.read(refs).unwrap_err(), Status::IsDir);
    assert_eq!(w.fs.write(refs).unwrap_err(), Status::RoFs);
    assert_eq!(w.fs.setattr(ROOT_ID).unwrap_err(), Status::RoFs);
    assert_eq!(w.fs.write(99).unwrap_err(), Status::Stale);
    assert!(matches!(w.fs.readlink(refs), LinkStep::Fail(Status::Inval)));
    assert!(matches!(w.fs.readlink(main), LinkStep::OnDisk(p) if text(&p) == "/w/main"));
    assert!(matches!(w.fs.getattr(main), AttrStep::OnDisk(p) if text(&p) == "/w/main"));
    assert!(matches!(w.fs.getattr(99), AttrStep::Done(Err(Status::Stale))));
    match w.fs.getattr(ROOT_ID) {
        AttrStep::Done(Ok(a)) => assert_eq!((a.ftype, a.fileid), (FileType::Directory, ROOT_ID)),
        other => panic!("{other:?}"),
    }
}

#[test]
fn renames_on_disk_are_recorded() {
    let mut w = World::new();
    let refs = w.refs();
    let main = w.lookup(refs, "main").unwrap();
    w.files.insert("/w/main/a".to_string());
    let a = w.lookup(main, "a").unwrap();
    let task = w.fs.rename(main, b"a", main, b"b").unwrap();
    assert_eq!((text(&task.from.path), text(&task.to.path)), ("/w/main/a".to_string(), "/w/main/b".to_string()));
    w.fs.rename_done(&task, at(5));
    assert_eq!(w.lookup(main, "b"), Ok(a));
    assert_eq!(w.fs.rename(main, b"..", main, b"b").unwrap_err(), Status::Acces);
    assert_eq!(w.fs.rename(main, b"b", refs, b"b").unwrap_err(), Status::RoFs);
    assert_eq!(w.fs.rename(99, b"b", refs, b"b").unwrap_err(), Status::Stale);
    let (dir, _) = w.mkdir(main, "d").unwrap();
    let (old, _) = w.mkdir(dir, "e").unwrap();
    let inside = w.fs.rename(main, b"d", dir, b"e").unwrap();
    w.fs.rename_done(&inside, at(6));
    assert_eq!(w.fs.state.child(main, "d"), None);
    assert_eq!(w.fs.state.child(dir, "e"), Some(dir));
    assert_eq!(w.fs.state.disk_path(dir), None);
    assert!(w.fs.state.get(old).is_none());
    assert_eq!(w.lookup(main, "b"), Ok(a));
}

#[test]
fn freshness_ends_with_the_time_to_live() {
    assert!(fresh(10, 14, 5));
    assert!(!fresh(10, 15, 5));
    assert!(fresh(10, 3, 5));
    assert!(!fresh(10, 3, 0));
}

#[test]
fn entries_without_attributes_are_left_out() {
    let w = World::new();
    let listed = |id: u64, attr: ListedAttr| ListedEntry { fileid: id, name: format!("n{id}"), attr };
    let out = settle(
        vec![
            listed(1, ListedAttr::Known(w.attr(1))),
            listed(2, ListedAttr::OnDisk { path: path("/a"), fallback: None }),
            listed(3, ListedAttr::OnDisk { path: path("/b"), fallback: Some(w.attr(33)) }),
            listed(4, ListedAttr::OnDisk { path: path("/c"), fallback: None }),
        ],
        vec![None, Some(w.attr(22)), None],
    );
    let got: Vec<(u64, u64)> = out.iter().map(|e| (e.fileid, e.attr.fileid)).collect();
    assert_eq!(got, vec![(1, 1), (2, 22), (3, 33)]);
}

#[test]
fn a_scan_enters_repositories_once() {
    let mut s = State::new(at(0));
    let found: Vec<CachedRepo> = [("o", "r.git"), ("o", "r.git"), ("o", ".git")]
        .iter()
        .map(|(o, f)| CachedRepo { org: o.as_bytes().to_vec(), file: f.as_bytes().to_vec() })
        .collect();
    treeportfs::fs::scan_cache(&mut s, &found, at(1));
    let org = s.child(ROOT_ID, "o").unwrap();
    let names = &s.get(org).unwrap().children.keys;
    assert_eq!(*names, vec!["", "r"]);
}

#[test]
fn numbers_that_were_never_handed_out_are_taken_as_they_come() {
    let mut w = World::new();
    let task = DiskTask { dirid: 500, name: "f".to_string(), path: path("/w/f") };
    assert_eq!(w.fs.lookup_disk(&task, false, at(1)), Err(Status::NoEnt));
    w.fs.ensure_branch_dir(500, &path("/w"), 3);
    assert_eq!(w.fs.state.refreshed_at(500), Some(3));
    let id = w.fs.lookup_disk(&task, true, at(1)).unwrap();
    let node = w.fs.state.get(id).unwrap();
    assert_eq!((node.parent, node.name.as_str(), node.mtime), (500, "f", at(1)));
    assert!(w.fs.state.get(500).is_none());
    let mut s = State::new(at(0));
    assert_eq!(s.add_child(2, "self", NodeKind::Repo, at(1)), 2);
    assert_eq!(s.child(2, "self"), Some(2));
}
