# treeportfs

A lazy virtual filesystem that shows every branch of every repository on a git
host as a directory:

```
<mountpoint>/<org>/<repo>/refs/<branch>/...files
```

Nothing is downloaded until it is touched. Listing `refs` asks the remote for
its branches; entering a branch makes a bare, blob-less clone and a worktree of
that branch in a cache on disk. Below a branch directory everything is a
read-write passthrough to that worktree. Making a directory under `refs`
creates a branch, removing one deletes it, and a branch that is checked out
somewhere else on the machine appears as a symlink to that place.

## Layout

`src/` is the library, verified with Verus. It makes every decision and does no
I/O of its own:

| Modules | What they hold |
|---|---|
| `text`, `fspath`, `component`, `names` | text, paths, valid names, ordered maps of names |
| `config`, `trie` | cache layout and remote URLs; branch names as nested directories |
| `porcelain`, `action`, `git`, `upkeep` | reading git's output; git operations as functions of the replies so far |
| `tree`, `node` | the virtual tree: the model, and the state that implements it |
| `protocol` | statuses, attributes, file handles, pages of listings |
| `fs`, `caches`, `lookup`, `changes`, `readdir` | the steps of requests and what is cached |
| `need`, `serve_lookup`, `serve_edit`, `serve_list` | requests from start to end |
| `tree_laws`, `fs_laws`, `serve_laws` | what holds across operations |
| `cli` | what the command line asks for |

A git operation takes the list of replies it has had and either asks for one
more action or is done. A request returns either its result or something it
needs together with a stage; the caller finds that out and goes on with the
stage. The contracts say exactly what is asked for, what is answered and how
the state changes.

`app/` is the program around it: the command line, the file server, the
processes and the disk.

What is taken on trust is marked `external_body` and documented where it
stands: two conversions from bytes to text, the sorting of strings, and the
lookup of the user's cache directory.
