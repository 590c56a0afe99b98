use vstd::prelude::*;

use crate::collections::string_views;
use crate::expr::{trim, trim_chars};
use crate::path::{path_parts, PathMap, PathPart};
use crate::text::{chars_of, concat2, concat3, ends_with, ends_with_exec, starts_with, string_of};

verus! {

/// `std::io::Error`: why a process could not be started. Opaque; it is only
/// carried into `GitError`.
#[verifier::external_type_specification]
#[verifier::external_body]
pub struct ExIoError(std::io::Error);

/// Why the workflow files of a revision could not be read.
#[derive(Debug)]
pub enum GitError {
    /// git could not be started.
    Invocation { operation: &'static str, source: std::io::Error },
    /// git ran and failed; the message is what it printed on stderr.
    Command { operation: &'static str, message: String },
    /// git printed something that is not UTF-8.
    NonUtf8 { operation: &'static str, field: &'static str },
}

/// `Display` of an I/O error (`ToString::to_string`). What the operating
/// system says differs between machines, so nothing is claimed of the text.
#[verifier::external_body]
fn io_error_text(error: &std::io::Error) -> String {
    error.to_string()
}

/// The part of an error's message that is known: all of it, except for a
/// process that could not be started, where the system's own explanation
/// follows.
pub open spec fn git_error_text(error: GitError) -> Seq<char> {
    match error {
        GitError::Invocation { operation, .. } => "failed to invoke git while "@ + operation@ + ": "@,
        GitError::Command { operation, message } => "git "@ + operation@ + " failed: "@ + message@,
        GitError::NonUtf8 { operation, field } => "git "@ + operation@ + " returned non-UTF-8 "@
            + field@,
    }
}

/// Whether a message is that of an error: the known text, followed by the
/// system's explanation only where git could not be started.
pub open spec fn is_git_error_message(error: GitError, s: Seq<char>) -> bool {
    &&& starts_with(s, git_error_text(error))
    &&& !(error is Invocation) ==> s == git_error_text(error)
}

impl GitError {
    /// The error as it is reported.
    pub fn message(&self) -> (s: String)
        ensures
            is_git_error_message(*self, s@),
    {
        match self {
            GitError::Invocation { operation, source } => {
                let detail = io_error_text(source);
                let head = concat3("failed to invoke git while ", operation, ": ");
                let s = concat2(head.as_str(), detail.as_str());
                assert(git_error_text(*self) == head@);
                assert(s@.take(head@.len() as int) =~= head@);
                assert(starts_with(s@, head@));
                assert(*self is Invocation);
                assert(is_git_error_message(*self, s@));
                s
            },
            GitError::Command { operation, message } => {
                let head = concat3("git ", operation, " failed: ");
                let s = concat2(head.as_str(), message.as_str());
                assert(s@.take(s@.len() as int) =~= s@);
                assert(is_git_error_message(*self, s@));
                s
            },
            GitError::NonUtf8 { operation, field } => {
                let head = concat3("git ", operation, " returned non-UTF-8 ");
                let s = concat2(head.as_str(), field);
                assert(s@.take(s@.len() as int) =~= s@);
                assert(is_git_error_message(*self, s@));
                s
            },
        }
    }
}

/// The message for a revision whose workflow files git could not read:
/// the side, then the error's message.
pub fn revision_failure_message(side: &str, error: &GitError) -> (s: String)
    ensures
        exists|m: Seq<char>| #[trigger] is_git_error_message(*error, m) && s@ == side@ + " revision: "@ + m,
{
    let m = error.message();
    let s = concat3(side, " revision: ", m.as_str());
    assert(is_git_error_message(*error, m@));
    s
}

/// What running one git command gave.
#[derive(Debug)]
pub enum GitOutcome {
    /// The process could not be started.
    NotStarted(std::io::Error),
    /// The process ran and exited.
    Exited { success: bool, stdout: Vec<u8>, stderr: Vec<u8> },
}

/// A git command to run: what it is for, the environment it adds, the
/// options that come before the repository option (`-C`), and its
/// arguments. Every command has lazy fetching of missing objects disabled,
/// so that no command reaches the network.
#[derive(Debug)]
pub struct GitRequest {
    pub operation: &'static str,
    pub env: Vec<(String, String)>,
    pub options: Vec<String>,
    pub args: Vec<String>,
}

/// The meaning of a request: operation, environment, options, arguments.
pub type RequestView = (Seq<char>, Seq<(Seq<char>, Seq<char>)>, Seq<Seq<char>>, Seq<Seq<char>>);

impl View for GitRequest {
    type V = RequestView;

    open spec fn view(&self) -> RequestView {
        (
            self.operation@,
            self.env@.map_values(|e: (String, String)| (e.0@, e.1@)),
            string_views(self.options@),
            string_views(self.args@),
        )
    }
}

/// A request for an operation with the given arguments: lazy fetching is
/// disabled by both `GIT_NO_LAZY_FETCH=1` and `--no-lazy-fetch`.
pub open spec fn request_view(operation: Seq<char>, args: Seq<Seq<char>>) -> RequestView {
    (operation, seq![("GIT_NO_LAZY_FETCH"@, "1"@)], seq!["--no-lazy-fetch"@], args)
}

// ---------------------------------------------------------------------
// Text that git prints
// ---------------------------------------------------------------------

/// Decodes bytes as UTF-8 (`String::from_utf8`). The contract states what
/// the standard library documents, over vstd's definition of UTF-8: the
/// text that UTF-8 bytes encode, and nothing for other bytes.
#[verifier::external_body]
fn utf8_string(bytes: Vec<u8>) -> (r: Option<String>)
    ensures
        match r {
            Some(s) => vstd::utf8::valid_utf8(bytes@) && s@ == vstd::utf8::decode_utf8(bytes@),
            None => !vstd::utf8::valid_utf8(bytes@),
        },
{
    String::from_utf8(bytes).ok()
}

/// What `String::from_utf8_lossy` makes of bytes.
pub uninterp spec fn lossy_text(bytes: Seq<u8>) -> Seq<char>;

/// Decodes bytes as UTF-8 with U+FFFD in place of each invalid sequence
/// (`String::from_utf8_lossy`). The contract names the result, and states
/// only the documented fact that UTF-8 bytes decode as themselves; where
/// replacement characters go in other bytes is not restated.
#[verifier::external_body]
fn lossy_string(bytes: &[u8]) -> (r: String)
    ensures
        r@ == lossy_text(bytes@),
        vstd::utf8::valid_utf8(bytes@) ==> r@ == vstd::utf8::decode_utf8(bytes@),
{
    String::from_utf8_lossy(bytes).into_owned()
}

/// The text of a listing split at every NUL; an empty text is one empty
/// name.
pub open spec fn split_on_nul(p: Seq<char>) -> Seq<Seq<char>>
    decreases p.len(),
{
    if p.len() == 0 {
        seq![Seq::<char>::empty()]
    } else {
        let rest = split_on_nul(p.drop_last());
        if p.last() == '\0' {
            rest.push(Seq::<char>::empty())
        } else {
            rest.update(rest.len() - 1, rest.last().push(p.last()))
        }
    }
}

proof fn lemma_split_on_nul_nonempty(p: Seq<char>)
    ensures
        split_on_nul(p).len() >= 1,
    decreases p.len(),
{
    if p.len() > 0 {
        lemma_split_on_nul_nonempty(p.drop_last());
    }
}

/// Whether a file name is that of a workflow: YAML, by its extension.
pub open spec fn is_workflow_file(p: Seq<char>) -> bool {
    ends_with(p, ".yml"@) || ends_with(p, ".yaml"@)
}

/// The names of workflow files among names, in order.
pub open spec fn workflow_files(names: Seq<Seq<char>>) -> Seq<Seq<char>>
    decreases names.len(),
{
    if names.len() == 0 {
        Seq::empty()
    } else {
        workflow_files(names.drop_last()) + if is_workflow_file(names.last()) {
            seq![names.last()]
        } else {
            Seq::empty()
        }
    }
}

/// The workflow files of a NUL-separated listing, in order.
pub open spec fn workflow_paths(listing: Seq<char>) -> Seq<Seq<char>> {
    workflow_files(split_on_nul(listing))
}

proof fn lemma_workflow_files_are_workflows(names: Seq<Seq<char>>)
    ensures
        forall|j: int|
            0 <= j < workflow_files(names).len() ==> is_workflow_file(
                #[trigger] workflow_files(names)[j],
            ),
    decreases names.len(),
{
    if names.len() > 0 {
        lemma_workflow_files_are_workflows(names.drop_last());
        let a = workflow_files(names.drop_last());
        assert forall|j: int| 0 <= j < workflow_files(names).len() implies is_workflow_file(
            #[trigger] workflow_files(names)[j],
        ) by {
            if j < a.len() {
                assert(workflow_files(names)[j] == a[j]);
            }
        }
    }
}

fn is_workflow_file_exec(name: &Vec<char>) -> (r: bool)
    ensures
        r == is_workflow_file(name@),
{
    ends_with_exec(name.as_slice(), ".yml") || ends_with_exec(name.as_slice(), ".yaml")
}

/// Keeps a finished name when it is a workflow file.
fn push_if_workflow(paths: &mut Vec<String>, name: Vec<char>)
    ensures
        string_views(final(paths)@) == string_views(old(paths)@) + if is_workflow_file(name@) {
            seq![name@]
        } else {
            Seq::empty()
        },
{
    if is_workflow_file_exec(&name) {
        let s = string_of(name.as_slice());
        paths.push(s);
        assert(string_views(paths@) =~= string_views(old(paths)@) + seq![name@]);
    } else {
        assert(string_views(paths@) =~= string_views(old(paths)@) + Seq::<Seq<char>>::empty());
    }
}

/// The workflow files that a NUL-separated listing names, in order.
pub fn workflow_paths_of(listing: &str) -> (paths: Vec<String>)
    ensures
        string_views(paths@) == workflow_paths(listing@),
{
    let chars = chars_of(listing);
    let ghost text = chars@;
    let mut paths: Vec<String> = Vec::new();
    let mut name: Vec<char> = Vec::new();
    let mut i: usize = 0;
    assert(text.take(0) =~= Seq::<char>::empty());
    assert(split_on_nul(text.take(0)).drop_last() =~= Seq::<Seq<char>>::empty());
    assert(string_views(paths@) =~= Seq::<Seq<char>>::empty());
    while i < chars.len()
        invariant
            chars@ == text,
            text == listing@,
            i <= text.len(),
            split_on_nul(text.take(i as int)).len() >= 1,
            string_views(paths@) == workflow_files(split_on_nul(text.take(i as int)).drop_last()),
            name@ == split_on_nul(text.take(i as int)).last(),
        decreases text.len() - i,
    {
        let ghost prefix = text.take(i as int);
        let ghost next = text.take(i + 1);
        assert(next.drop_last() =~= prefix);
        assert(next.last() == text[i as int]);
        proof {
            lemma_split_on_nul_nonempty(prefix);
        }
        if chars[i] == '\0' {
            let mut finished: Vec<char> = Vec::new();
            std::mem::swap(&mut finished, &mut name);
            push_if_workflow(&mut paths, finished);
            proof {
                let names = split_on_nul(prefix);
                assert(split_on_nul(next) == names.push(Seq::<char>::empty()));
                assert(split_on_nul(next).drop_last() =~= names);
                assert(names =~= names.drop_last().push(names.last()));
            }
        } else {
            name.push(chars[i]);
            proof {
                let names = split_on_nul(prefix);
                assert(split_on_nul(next) == names.update(
                    names.len() - 1,
                    names.last().push(text[i as int]),
                ));
                assert(split_on_nul(next).drop_last() =~= names.drop_last());
            }
        }
        i = i + 1;
    }
    assert(text.take(text.len() as int) =~= text);
    let ghost names = split_on_nul(text);
    push_if_workflow(&mut paths, name);
    assert(names =~= names.drop_last().push(names.last()));
    paths
}

// ---------------------------------------------------------------------
// The commands
// ---------------------------------------------------------------------

/// Arguments that resolve a revision to a commit.
pub open spec fn resolve_args(revision: Seq<char>) -> Seq<Seq<char>> {
    seq!["rev-parse"@, "--verify"@, revision]
}

/// Arguments that list the files under `.github/workflows`, NUL-separated.
pub open spec fn list_args(revision: Seq<char>) -> Seq<Seq<char>> {
    seq!["ls-tree"@, "-r"@, "--name-only"@, "-z"@, revision, "--"@, ".github/workflows"@]
}

/// Arguments that print one file of a revision.
pub open spec fn show_args(revision: Seq<char>, path: Seq<char>) -> Seq<Seq<char>> {
    seq!["show"@, revision + ":"@ + path]
}

fn push_arg(args: &mut Vec<String>, a: &str)
    ensures
        string_views(final(args)@) == string_views(old(args)@).push(a@),
{
    args.push(String::from_str(a));
    assert(string_views(args@) =~= string_views(old(args)@).push(a@));
}

/// A request with lazy fetching disabled.
fn new_request(operation: &'static str, args: Vec<String>) -> (r: GitRequest)
    ensures
        r@ == request_view(operation@, string_views(args@)),
{
    let mut env: Vec<(String, String)> = Vec::new();
    env.push((String::from_str("GIT_NO_LAZY_FETCH"), String::from_str("1")));
    assert(env@.map_values(|e: (String, String)| (e.0@, e.1@)) =~= seq![("GIT_NO_LAZY_FETCH"@, "1"@)]);
    let mut options: Vec<String> = Vec::new();
    push_arg(&mut options, "--no-lazy-fetch");
    assert(string_views(options@) =~= seq!["--no-lazy-fetch"@]);
    GitRequest { operation, env, options, args }
}

fn show_request(revision: &String, path: &String) -> (r: GitRequest)
    ensures
        r@ == request_view("read workflow file"@, show_args(revision@, path@)),
{
    let mut args: Vec<String> = Vec::new();
    push_arg(&mut args, "show");
    let object = concat3(revision.as_str(), ":", path.as_str());
    push_arg(&mut args, object.as_str());
    assert(string_views(args@) =~= show_args(revision@, path@));
    new_request("read workflow file", args)
}

// ---------------------------------------------------------------------
// Reading the workflows of a revision
// ---------------------------------------------------------------------

enum Phase {
    Resolving,
    Listing { revision: String },
    Reading { revision: String, paths: Vec<String>, next: usize, workflows: PathMap<String> },
}

/// Reads the workflow files of a revision, one git command at a time: it
/// says which command to run, and takes what running it gave.
pub struct WorkflowReader {
    phase: Phase,
}

/// Where a reading stands.
pub enum ReaderView {
    /// The revision is being resolved to a commit.
    Resolving,
    /// The workflow files of the commit are being listed.
    Listing { revision: Seq<char> },
    /// The listed files are being read; `next` is the one being read now.
    Reading {
        revision: Seq<char>,
        paths: Seq<Seq<char>>,
        next: int,
        workflows: Map<Seq<PathPart>, (Seq<char>, Seq<char>)>,
    },
}

/// Whether key `k` belongs to one of the first `n` paths.
pub open spec fn listed_before(paths: Seq<Seq<char>>, n: int, k: Seq<PathPart>) -> bool {
    exists|j: int| 0 <= j < n && path_parts(#[trigger] paths[j]) == k
}

/// What holds while files are read: every listed path is a workflow file,
/// and the files read so far are exactly the first `next`.
pub open spec fn reading_invariant(
    paths: Seq<Seq<char>>,
    next: int,
    workflows: Map<Seq<PathPart>, (Seq<char>, Seq<char>)>,
) -> bool {
    &&& 0 <= next < paths.len()
    &&& forall|j: int| 0 <= j < paths.len() ==> is_workflow_file(#[trigger] paths[j])
    &&& forall|k: Seq<PathPart>| #[trigger] workflows.contains_key(k) <==> listed_before(paths, next, k)
    &&& forall|k: Seq<PathPart>| #[trigger] workflows.contains_key(k) ==> is_workflow_file(workflows[k].0)
}

impl WorkflowReader {
    #[verifier::type_invariant]
    spec fn well_formed(self) -> bool {
        match self.phase {
            Phase::Reading { paths, next, workflows, .. } => reading_invariant(
                string_views(paths@),
                next as int,
                workflows@,
            ),
            _ => true,
        }
    }
}

impl View for WorkflowReader {
    type V = ReaderView;

    closed spec fn view(&self) -> ReaderView {
        match self.phase {
            Phase::Resolving => ReaderView::Resolving,
            Phase::Listing { revision } => ReaderView::Listing { revision: revision@ },
            Phase::Reading { revision, paths, next, workflows } => ReaderView::Reading {
                revision: revision@,
                paths: string_views(paths@),
                next: next as int,
                workflows: workflows@,
            },
        }
    }
}

/// What to do after a command: run the next one, or stop with the
/// workflow files read, keyed by path.
pub enum ReadStep {
    Run(WorkflowReader, GitRequest),
    Done(PathMap<String>),
}

/// The meaning of a step.
pub enum StepView {
    Run(ReaderView, RequestView),
    Done(Map<Seq<PathPart>, (Seq<char>, Seq<char>)>),
}

impl View for ReadStep {
    type V = StepView;

    open spec fn view(&self) -> StepView {
        match self {
            ReadStep::Run(reader, request) => StepView::Run(reader@, request@),
            ReadStep::Done(workflows) => StepView::Done(workflows@),
        }
    }
}

/// What the command of a reading is for.
pub open spec fn operation_of(v: ReaderView) -> Seq<char> {
    match v {
        ReaderView::Resolving => "resolve revision"@,
        ReaderView::Listing { .. } => "list workflow files"@,
        ReaderView::Reading { .. } => "read workflow file"@,
    }
}

/// What the output of the command of a reading is.
pub open spec fn output_field(v: ReaderView) -> Seq<char> {
    match v {
        ReaderView::Resolving => "revision"@,
        ReaderView::Listing { .. } => "path"@,
        ReaderView::Reading { .. } => "workflow contents"@,
    }
}

/// A file map after one more file: a path with the same components keeps
/// its stored text and takes the new contents (`BTreeMap::insert`).
pub open spec fn insert_file(
    w: Map<Seq<PathPart>, (Seq<char>, Seq<char>)>,
    path: Seq<char>,
    contents: Seq<char>,
) -> Map<Seq<PathPart>, (Seq<char>, Seq<char>)> {
    let k = path_parts(path);
    w.insert(k, (if w.contains_key(k) { w[k].0 } else { path }, contents))
}

/// Read file `next` of the listed ones next, or stop when none is left.
pub open spec fn read_from(
    revision: Seq<char>,
    paths: Seq<Seq<char>>,
    next: int,
    workflows: Map<Seq<PathPart>, (Seq<char>, Seq<char>)>,
) -> StepView {
    if 0 <= next < paths.len() {
        StepView::Run(
            ReaderView::Reading { revision, paths, next, workflows },
            request_view("read workflow file"@, show_args(revision, paths[next])),
        )
    } else {
        StepView::Done(workflows)
    }
}

/// The next step after a command printed `text`: the resolved revision is
/// the trimmed output; the listing names the workflow files; each file's
/// text is its contents.
pub open spec fn advance_on(v: ReaderView, text: Seq<char>) -> StepView {
    match v {
        ReaderView::Resolving => StepView::Run(
            ReaderView::Listing { revision: trim(text) },
            request_view("list workflow files"@, list_args(trim(text))),
        ),
        ReaderView::Listing { revision } => read_from(revision, workflow_paths(text), 0, Map::empty()),
        ReaderView::Reading { revision, paths, next, workflows } => read_from(
            revision,
            paths,
            next + 1,
            insert_file(workflows, paths[next], text),
        ),
    }
}

impl WorkflowReader {
    /// A reading of the workflow files of `revision`, and its first
    /// command.
    pub fn start(revision: &str) -> (r: (WorkflowReader, GitRequest))
        ensures
            r.0@ == ReaderView::Resolving,
            r.1@ == request_view("resolve revision"@, resolve_args(revision@)),
    {
        let mut args: Vec<String> = Vec::new();
        push_arg(&mut args, "rev-parse");
        push_arg(&mut args, "--verify");
        push_arg(&mut args, revision);
        assert(string_views(args@) =~= resolve_args(revision@));
        (WorkflowReader { phase: Phase::Resolving }, new_request("resolve revision", args))
    }

    /// What the command of this reading is for.
    fn operation(&self) -> (r: &'static str)
        ensures
            r@ == operation_of(self@),
    {
        match &self.phase {
            Phase::Resolving => "resolve revision",
            Phase::Listing { .. } => "list workflow files",
            Phase::Reading { .. } => "read workflow file",
        }
    }

    /// What the output of the command of this reading is.
    fn output_field(&self) -> (r: &'static str)
        ensures
            r@ == output_field(self@),
    {
        match &self.phase {
            Phase::Resolving => "revision",
            Phase::Listing { .. } => "path",
            Phase::Reading { .. } => "workflow contents",
        }
    }

    /// Takes what running the command of this reading gave. A command that
    /// could not start or that failed, or output that is not UTF-8, ends the
    /// reading with an error; otherwise the reading moves on.
    pub fn advance(self, outcome: GitOutcome) -> (r: Result<ReadStep, GitError>)
        ensures
            match outcome {
                GitOutcome::NotStarted(e) => r matches Err(GitError::Invocation { operation, source })
                    && operation@ == operation_of(self@) && source == e,
                GitOutcome::Exited { success, stdout, stderr } => if !success {
                    r matches Err(GitError::Command { operation, message }) && operation@
                        == operation_of(self@) && message@ == trim(lossy_text(stderr@))
                } else if !vstd::utf8::valid_utf8(stdout@) {
                    r matches Err(GitError::NonUtf8 { operation, field }) && operation@
                        == operation_of(self@) && field@ == output_field(self@)
                } else {
                    r matches Ok(step) && step@ == advance_on(self@, vstd::utf8::decode_utf8(stdout@))
                },
            },
            r matches Ok(ReadStep::Done(workflows)) ==> forall|k: Seq<PathPart>|
                #[trigger] workflows@.contains_key(k) ==> is_workflow_file(workflows@[k].0),
    {
        proof {
            use_type_invariant(&self);
        }
        let operation = self.operation();
        let stdout = match outcome {
            GitOutcome::NotStarted(source) => {
                return Err(GitError::Invocation { operation, source });
            },
            GitOutcome::Exited { success, stdout, stderr } => {
                if !success {
                    let text = lossy_string(stderr.as_slice());
                    let chars = chars_of(text.as_str());
                    let trimmed = trim_chars(chars.as_slice());
                    return Err(GitError::Command { operation, message: string_of(trimmed.as_slice()) });
                }
                stdout
            },
        };
        let field = self.output_field();
        let text = match utf8_string(stdout) {
            Some(text) => text,
            None => {
                return Err(GitError::NonUtf8 { operation, field });
            },
        };
        match self.phase {
            Phase::Resolving => {
                let chars = chars_of(text.as_str());
                let trimmed = trim_chars(chars.as_slice());
                let revision = string_of(trimmed.as_slice());
                let mut args: Vec<String> = Vec::new();
                push_arg(&mut args, "ls-tree");
                push_arg(&mut args, "-r");
                push_arg(&mut args, "--name-only");
                push_arg(&mut args, "-z");
                push_arg(&mut args, revision.as_str());
                push_arg(&mut args, "--");
                push_arg(&mut args, ".github/workflows");
                assert(string_views(args@) =~= list_args(revision@));
                let request = new_request("list workflow files", args);
                Ok(ReadStep::Run(WorkflowReader { phase: Phase::Listing { revision } }, request))
            },
            Phase::Listing { revision } => {
                let paths = workflow_paths_of(text.as_str());
                proof {
                    lemma_workflow_files_are_workflows(split_on_nul(text@));
                }
                let workflows: PathMap<String> = PathMap::new();
                if paths.len() == 0 {
                    return Ok(ReadStep::Done(workflows));
                }
                let request = show_request(&revision, &paths[0]);
                let ghost pv = string_views(paths@);
                proof {
                    assert forall|k: Seq<PathPart>| #[trigger] workflows@.contains_key(k) <==> listed_before(
                        pv,
                        0,
                        k,
                    ) by {}
                    assert(pv[0] == paths@[0]@);
                }
                Ok(
                    ReadStep::Run(
                        WorkflowReader { phase: Phase::Reading { revision, paths, next: 0, workflows } },
                        request,
                    ),
                )
            },
            Phase::Reading { revision, paths, next, mut workflows } => {
                let ghost pv = string_views(paths@);
                let ghost before = workflows@;
                assert(pv.len() == paths@.len());
                let count = paths.len();
                assert(pv[next as int] == paths@[next as int]@);
                workflows.insert(paths[next].clone(), text);
                proof {
                    assert forall|k: Seq<PathPart>| #[trigger] workflows@.contains_key(k) <==> listed_before(
                        pv,
                        next + 1,
                        k,
                    ) by {
                        if listed_before(pv, next + 1, k) {
                            let j = choose|j: int| 0 <= j < next + 1 && path_parts(#[trigger] pv[j]) == k;
                            if j < next {
                                assert(listed_before(pv, next as int, k));
                            }
                        }
                        if before.contains_key(k) {
                            let j = choose|j: int| 0 <= j < next && path_parts(#[trigger] pv[j]) == k;
                            assert(listed_before(pv, next + 1, k));
                        }
                        if k == path_parts(pv[next as int]) {
                            assert(listed_before(pv, next + 1, k));
                        }
                    }
                }
                let following = next + 1;
                if following >= count {
                    return Ok(ReadStep::Done(workflows));
                }
                let request = show_request(&revision, &paths[following]);
                assert(pv[following as int] == paths@[following as int]@);
                Ok(
                    ReadStep::Run(
                        WorkflowReader {
                            phase: Phase::Reading { revision, paths, next: following, workflows },
                        },
                        request,
                    ),
                )
            },
        }
    }
}

} // verus!
