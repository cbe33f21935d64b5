//! A lazy virtual filesystem over the branches of git repositories:
//! `<mount> / <org> / <repo> / refs / <branch...> / <files>`.
//!
//! The library decides; it neither runs git nor touches the disk. A git
//! operation asks for one action after the other ([`git`], [`upkeep`]); a
//! request to the filesystem says what it needs next ([`fs`] and the modules
//! that serve requests). Whoever drives them performs the action and hands
//! the outcome back.

pub mod text;
pub mod fspath;
pub mod component;
pub mod text_laws;
pub mod names;
pub mod config;
pub mod trie;

pub mod porcelain;
pub mod action;
pub mod git;
pub mod upkeep;
pub mod git_laws;
pub mod upkeep_laws;

pub mod tree;
pub mod tree_laws;
pub mod node;
pub mod protocol;

pub mod fs;
pub mod caches;
pub mod porcelain_laws;
pub mod cache_laws;
pub mod task;
pub mod lookup;
pub mod changes;
pub mod readdir;
pub mod fs_laws;

pub mod need;
pub mod serve_lookup;
pub mod serve_edit;
pub mod serve_list;
pub mod serve_laws;
pub mod lookup_laws;
pub mod list_laws;
pub mod edit_laws;
pub mod node_laws;

pub mod cli;
pub mod path_laws;

pub use action::GitError;
pub use component::{valid_component, valid_disk_name};
pub use config::{Config, Protocol};
pub use fs::TreeportFs;
pub use git::GitCache;
pub use trie::BranchTrie;
