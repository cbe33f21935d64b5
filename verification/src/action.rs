//! What the git layer asks its surroundings to do, what it is told in reply,
//! and scripts of such actions.
//!
//! An operation is a function of the replies received so far: it either asks
//! for one more action or is done.

use crate::fspath::FsPath;
use crate::porcelain::{branch_missing, repo_missing, says_branch_missing, says_repo_missing};
use crate::text::{lossy, lossy_text, strings, texts};
use vstd::prelude::*;
use vstd::string::*;

verus! {

/// Why the operating system refused something.
#[derive(Clone, Copy, Debug, PartialEq, Eq, Structural)]
pub enum IoErrorKind {
    NotFound,
    PermissionDenied,
    AlreadyExists,
    DirectoryNotEmpty,
    Other,
}

/// Why a git operation failed.
#[derive(Debug)]
pub enum GitError {
    /// The remote said the repository doesn't exist (or it is hidden from us,
    /// which a remote may keep indistinguishable).
    RepoNotFound(String),
    BranchNotFound(String),
    CommandFailed { args: Vec<String>, stderr: String },
    Io(IoErrorKind),
}

/// What a [`GitError`] says.
pub enum GitErrorView {
    RepoNotFound(Seq<char>),
    BranchNotFound(Seq<char>),
    CommandFailed { args: Seq<Seq<char>>, stderr: Seq<char> },
    Io(IoErrorKind),
}

impl View for GitError {
    type V = GitErrorView;

    open spec fn view(&self) -> GitErrorView {
        match *self {
            GitError::RepoNotFound(what) => GitErrorView::RepoNotFound(what@),
            GitError::BranchNotFound(what) => GitErrorView::BranchNotFound(what@),
            GitError::CommandFailed { args, stderr } => GitErrorView::CommandFailed {
                args: strings(args@),
                stderr: stderr@,
            },
            GitError::Io(kind) => GitErrorView::Io(kind),
        }
    }
}

/// One thing to do outside.
#[derive(Debug)]
pub enum GitAction {
    /// Run git with these arguments, in this directory if one is given.
    Run { cwd: Option<FsPath>, args: Vec<String> },
    /// Find out whether something exists.
    Exists(FsPath),
    /// Create a directory and those above it.
    CreateDirs(FsPath),
    /// Delete a directory with everything in it.
    RemoveTree(FsPath),
    Rename { from: FsPath, to: FsPath },
    /// Read a text file.
    ReadText(FsPath),
    /// Resolve a path to its canonical form.
    Canonicalize(FsPath),
}

/// What a [`GitAction`] says.
pub enum ActionView {
    Run { cwd: Option<Seq<u8>>, args: Seq<Seq<char>> },
    Exists(Seq<u8>),
    CreateDirs(Seq<u8>),
    RemoveTree(Seq<u8>),
    Rename { from: Seq<u8>, to: Seq<u8> },
    ReadText(Seq<u8>),
    Canonicalize(Seq<u8>),
}

impl View for GitAction {
    type V = ActionView;

    open spec fn view(&self) -> ActionView {
        match *self {
            GitAction::Run { cwd, args } => ActionView::Run {
                cwd: match cwd {
                    Some(dir) => Some(dir@),
                    None => None,
                },
                args: strings(args@),
            },
            GitAction::Exists(path) => ActionView::Exists(path@),
            GitAction::CreateDirs(path) => ActionView::CreateDirs(path@),
            GitAction::RemoveTree(path) => ActionView::RemoveTree(path@),
            GitAction::Rename { from, to } => ActionView::Rename { from: from@, to: to@ },
            GitAction::ReadText(path) => ActionView::ReadText(path@),
            GitAction::Canonicalize(path) => ActionView::Canonicalize(path@),
        }
    }
}

/// How an action went.
#[derive(Debug)]
pub enum Reply {
    /// It worked: the output of git, the content of the file, the canonical
    /// path, or nothing. Something looked for is there.
    Success(Vec<u8>),
    /// Git ran and failed; what it printed on its error output.
    Refused(Vec<u8>),
    /// The operating system refused it.
    Failed(IoErrorKind),
}

/// What a [`Reply`] says.
pub enum ReplyView {
    Success(Seq<u8>),
    Refused(Seq<u8>),
    Failed(IoErrorKind),
}

impl View for Reply {
    type V = ReplyView;

    open spec fn view(&self) -> ReplyView {
        match *self {
            Reply::Success(bytes) => ReplyView::Success(bytes@),
            Reply::Refused(bytes) => ReplyView::Refused(bytes@),
            Reply::Failed(kind) => ReplyView::Failed(kind),
        }
    }
}

/// What a list of replies says.
pub open spec fn replies_view(replies: Seq<Reply>) -> Seq<ReplyView> {
    Seq::new(replies.len(), |i: int| replies[i]@)
}

impl Reply {
    /// Whether the action worked.
    pub fn worked(&self) -> (r: bool)
        ensures
            r == (self@ is Success),
    {
        match self {
            Reply::Success(_) => true,
            _ => false,
        }
    }

    /// The text that a successful run of git printed.
    pub fn output(&self) -> (r: Option<String>)
        ensures
            match r {
                Some(text) => output_of(self@) == Some(text@),
                None => output_of(self@) is None,
            },
    {
        match self {
            Reply::Success(bytes) => Some(lossy_text(bytes.as_slice())),
            _ => None,
        }
    }
}

/// The text that a successful run of git printed.
pub open spec fn output_of(reply: ReplyView) -> Option<Seq<char>> {
    match reply {
        ReplyView::Success(bytes) => Some(lossy(bytes)),
        _ => None,
    }
}

/// The error that an action ends in when its reply is no success.
pub open spec fn failure(action: ActionView, reply: ReplyView) -> GitErrorView {
    match (action, reply) {
        (ActionView::Run { cwd, args }, ReplyView::Refused(stderr)) => GitErrorView::CommandFailed {
            args,
            stderr: lossy(stderr),
        },
        (_, ReplyView::Failed(kind)) => GitErrorView::Io(kind),
        _ => GitErrorView::Io(IoErrorKind::Other),
    }
}

/// The error that `action` ends in, given its reply.
pub fn failure_of(action: GitAction, reply: &Reply) -> (r: GitError)
    ensures
        r@ == failure(action@, reply@),
{
    match (action, reply) {
        (GitAction::Run { cwd, args }, Reply::Refused(stderr)) => GitError::CommandFailed {
            args,
            stderr: lossy_text(stderr.as_slice()),
        },
        (_, Reply::Failed(kind)) => GitError::Io(*kind),
        _ => GitError::Io(IoErrorKind::Other),
    }
}

/// What a script does about an action that did not work.
#[derive(Debug)]
pub enum OnFailure {
    /// Go on.
    Ignore,
    /// Stop with the error.
    Abort,
    /// Stop; the error may mean that this repository does not exist.
    RepoMissing(String),
    /// Stop; the error may mean that this branch does not exist.
    BranchMissing(String),
}

/// What an [`OnFailure`] says.
pub enum OnFailureView {
    Ignore,
    Abort,
    RepoMissing(Seq<char>),
    BranchMissing(Seq<char>),
}

impl View for OnFailure {
    type V = OnFailureView;

    open spec fn view(&self) -> OnFailureView {
        match *self {
            OnFailure::Ignore => OnFailureView::Ignore,
            OnFailure::Abort => OnFailureView::Abort,
            OnFailure::RepoMissing(what) => OnFailureView::RepoMissing(what@),
            OnFailure::BranchMissing(what) => OnFailureView::BranchMissing(what@),
        }
    }
}

/// The error as it is reported: a complaint of git that means a missing
/// repository becomes that.
pub open spec fn repo_not_found(e: GitErrorView, what: Seq<char>) -> GitErrorView {
    match e {
        GitErrorView::CommandFailed { args, stderr } => if says_repo_missing(stderr) {
            GitErrorView::RepoNotFound(what)
        } else {
            e
        },
        _ => e,
    }
}

/// The error as it is reported: a complaint of git that means a missing
/// branch becomes that.
pub open spec fn branch_not_found(e: GitErrorView, what: Seq<char>) -> GitErrorView {
    match e {
        GitErrorView::CommandFailed { args, stderr } => if says_branch_missing(stderr) {
            GitErrorView::BranchNotFound(what)
        } else {
            e
        },
        _ => e,
    }
}

/// The error that a script stops with.
pub open spec fn reported(policy: OnFailureView, e: GitErrorView) -> GitErrorView {
    match policy {
        OnFailureView::RepoMissing(what) => repo_not_found(e, what),
        OnFailureView::BranchMissing(what) => branch_not_found(e, what),
        _ => e,
    }
}

/// Turns a complaint of git that means a missing repository into that.
pub fn as_repo_not_found(e: GitError, what: String) -> (r: GitError)
    ensures
        r@ == repo_not_found(e@, what@),
{
    match e {
        GitError::CommandFailed { args, stderr } => {
            if repo_missing(stderr.as_str()) {
                GitError::RepoNotFound(what)
            } else {
                GitError::CommandFailed { args, stderr }
            }
        },
        other => other,
    }
}

/// Turns a complaint of git that means a missing branch into that.
pub fn as_branch_not_found(e: GitError, what: String) -> (r: GitError)
    ensures
        r@ == branch_not_found(e@, what@),
{
    match e {
        GitError::CommandFailed { args, stderr } => {
            if branch_missing(stderr.as_str()) {
                GitError::BranchNotFound(what)
            } else {
                GitError::CommandFailed { args, stderr }
            }
        },
        other => other,
    }
}

/// One action of a script and what follows when it does not work.
#[derive(Debug)]
pub struct ScriptStep {
    pub action: GitAction,
    pub on_failure: OnFailure,
}

/// What a [`ScriptStep`] says.
pub struct StepView {
    pub action: ActionView,
    pub on_failure: OnFailureView,
}

impl View for ScriptStep {
    type V = StepView;

    open spec fn view(&self) -> StepView {
        StepView { action: self.action@, on_failure: self.on_failure@ }
    }
}

/// What a script says.
pub open spec fn script_view(script: Seq<ScriptStep>) -> Seq<StepView> {
    Seq::new(script.len(), |i: int| script[i]@)
}

/// An action that has to work.
pub open spec fn must(action: ActionView) -> StepView {
    StepView { action, on_failure: OnFailureView::Abort }
}

/// An action that need not work.
pub open spec fn may(action: ActionView) -> StepView {
    StepView { action, on_failure: OnFailureView::Ignore }
}

/// How far a script has come.
pub enum ScriptEnd {
    /// This is to be done next.
    Ask(GitAction),
    /// An action did not work.
    Stopped(GitError),
    /// Everything is done.
    Finished,
}

/// What a [`ScriptEnd`] says.
pub enum ScriptEndView {
    Ask(ActionView),
    Stopped(GitErrorView),
    Finished,
}

impl View for ScriptEnd {
    type V = ScriptEndView;

    open spec fn view(&self) -> ScriptEndView {
        match *self {
            ScriptEnd::Ask(action) => ScriptEndView::Ask(action@),
            ScriptEnd::Stopped(e) => ScriptEndView::Stopped(e@),
            ScriptEnd::Finished => ScriptEndView::Finished,
        }
    }
}

/// Whether a script goes on after a reply to one of its actions.
pub open spec fn goes_on(step: StepView, reply: ReplyView) -> bool {
    reply is Success || step.on_failure is Ignore
}

/// How far a script has come with the replies given: it asks for its actions
/// in order and stops at the first that had to work and did not.
pub open spec fn script_run(script: Seq<StepView>, replies: Seq<ReplyView>) -> ScriptEndView
    decreases script.len(),
{
    if script.len() == 0 {
        ScriptEndView::Finished
    } else if replies.len() == 0 {
        ScriptEndView::Ask(script[0].action)
    } else if goes_on(script[0], replies[0]) {
        script_run(script.drop_first(), replies.drop_first())
    } else {
        ScriptEndView::Stopped(
            reported(script[0].on_failure, failure(script[0].action, replies[0])),
        )
    }
}

/// What the end of a script says about the replies: a script asks for the
/// action at the position it has come to, and past actions went well.
pub proof fn lemma_script_run(script: Seq<StepView>, replies: Seq<ReplyView>)
    ensures
        match script_run(script, replies) {
            ScriptEndView::Ask(action) => {
                &&& replies.len() < script.len()
                &&& action == script[replies.len() as int].action
                &&& forall|i: int|
                    0 <= i < replies.len() ==> goes_on(#[trigger] script[i], replies[i])
            },
            ScriptEndView::Finished => {
                &&& replies.len() >= script.len()
                &&& forall|i: int|
                    0 <= i < script.len() ==> goes_on(#[trigger] script[i], replies[i])
            },
            ScriptEndView::Stopped(e) => exists|i: int|
                {
                    &&& 0 <= i < script.len()
                    &&& i < replies.len()
                    &&& !#[trigger] goes_on(script[i], replies[i])
                    &&& e == reported(script[i].on_failure, failure(script[i].action, replies[i]))
                },
        },
    decreases script.len(),
{
    if script.len() > 0 && replies.len() > 0 {
        if goes_on(script[0], replies[0]) {
            let s = script.drop_first();
            let r = replies.drop_first();
            lemma_script_run(s, r);
            match script_run(s, r) {
                ScriptEndView::Ask(action) => {
                    assert forall|i: int| 0 <= i < replies.len() implies goes_on(
                        #[trigger] script[i],
                        replies[i],
                    ) by {
                        if i > 0 {
                            assert(goes_on(s[i - 1], r[i - 1]));
                        }
                    }
                },
                ScriptEndView::Finished => {
                    assert forall|i: int| 0 <= i < script.len() implies goes_on(
                        #[trigger] script[i],
                        replies[i],
                    ) by {
                        if i > 0 {
                            assert(goes_on(s[i - 1], r[i - 1]));
                        }
                    }
                },
                ScriptEndView::Stopped(e) => {
                    let i = choose|i: int|
                        {
                            &&& 0 <= i < s.len()
                            &&& i < r.len()
                            &&& !#[trigger] goes_on(s[i], r[i])
                            &&& e == reported(s[i].on_failure, failure(s[i].action, r[i]))
                        };
                    assert(!goes_on(script[i + 1], replies[i + 1]));
                },
            }
        } else {
            assert(!goes_on(script[0], replies[0]));
        }
    }
}

/// How far `script` has come with the replies from position `from` on.
pub fn run_script(script: Vec<ScriptStep>, replies: &[Reply], from: usize) -> (r: ScriptEnd)
    requires
        from <= replies@.len(),
    ensures
        r@ == script_run(script_view(script@), replies_view(replies@).skip(from as int)),
        r is Finished ==> from + script@.len() <= replies@.len(),
{
    let ghost steps = script_view(script@);
    let ghost heard = replies_view(replies@).skip(from as int);
    proof {
        lemma_script_run(steps, heard);
        assert(steps.skip(0) =~= steps);
        assert(heard.skip(0) =~= heard);
    }
    let mut left = script;
    let mut i: usize = 0;
    while i < left.len()
        invariant
            i <= left@.len(),
            from + i <= replies.len(),
            left@ == script@,
            steps == script_view(script@),
            heard == replies_view(replies@).skip(from as int),
            script_run(steps, heard) == script_run(steps.skip(i as int), heard.skip(i as int)),
        decreases left@.len() - i,
    {
        proof {
            assert(steps.skip(i as int)[0] == left@[i as int]@);
            assert(steps.skip(i as int).drop_first() =~= steps.skip(i + 1));
        }
        if from + i == replies.len() {
            let step = left.swap_remove(i);
            return ScriptEnd::Ask(step.action);
        }
        proof {
            assert(heard.skip(i as int)[0] == replies@[from + i]@);
            assert(heard.skip(i as int).drop_first() =~= heard.skip(i + 1));
        }
        if !replies[from + i].worked() {
            match left[i].on_failure {
                OnFailure::Ignore => {},
                _ => {
                    let step = left.swap_remove(i);
                    let e = failure_of(step.action, &replies[from + i]);
                    return ScriptEnd::Stopped(
                        match step.on_failure {
                            OnFailure::RepoMissing(what) => as_repo_not_found(e, what),
                            OnFailure::BranchMissing(what) => as_branch_not_found(e, what),
                            _ => e,
                        },
                    );
                },
            }
        }
        i = i + 1;
    }
    ScriptEnd::Finished
}

/// How far an operation has come.
pub enum Flow<T> {
    /// This is to be done next, and its reply handed back.
    Ask(GitAction),
    /// The operation is over. The number says how many replies it took; it is
    /// zero where a script was stopped.
    Done(Result<T, GitError>, usize),
}

/// What a [`Flow`] says.
pub enum FlowView<V> {
    Ask(ActionView),
    Done(Result<V, GitErrorView>, nat),
}

/// Whether a [`Flow`] says what is wanted, its result read by `view`.
pub open spec fn flows<T, V>(r: Flow<T>, want: FlowView<V>, view: spec_fn(T) -> V) -> bool {
    match (r, want) {
        (Flow::Ask(action), FlowView::Ask(wanted)) => action@ == wanted,
        (Flow::Done(result, used), FlowView::Done(wanted, n)) => {
            &&& used == n
            &&& match (result, wanted) {
                (Ok(value), Ok(v)) => view(value) == v,
                (Err(e), Err(v)) => e@ == v,
                _ => false,
            }
        },
        _ => false,
    }
}

/// Git's arguments out of string slices.
pub fn git_args(list: Vec<&str>) -> (r: Vec<String>)
    ensures
        strings(r@) == texts(list@),
{
    let mut out: Vec<String> = Vec::new();
    let mut i: usize = 0;
    while i < list.len()
        invariant
            i <= list@.len(),
            out@.len() == i,
            forall|j: int| 0 <= j < i ==> (#[trigger] out@[j])@ == list@[j]@,
        decreases list@.len() - i,
    {
        out.push(list[i].to_owned());
        i = i + 1;
    }
    assert(strings(out@) =~= texts(list@));
    out
}

} // verus!
