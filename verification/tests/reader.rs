use privilege_diff::git::{revision_failure_message, GitError, GitOutcome, ReadStep, WorkflowReader};

fn exited(stdout: &[u8]) -> GitOutcome {
    GitOutcome::Exited { success: true, stdout: stdout.to_vec(), stderr: Vec::new() }
}

fn run(step: ReadStep) -> (WorkflowReader, Vec<String>) {
    match step {
        ReadStep::Run(reader, request) => (reader, request.args),
        ReadStep::Done(_) => panic!("the reading ended early"),
    }
}

#[test]
fn reader_resolves_lists_and_reads_only_yaml_workflows() {
    let (reader, request) = WorkflowReader::start("HEAD");
    assert_eq!(request.operation, "resolve revision");
    assert_eq!(request.args, vec!["rev-parse", "--verify", "HEAD"]);
    assert_eq!(request.options, vec!["--no-lazy-fetch"]);
    assert_eq!(request.env, vec![("GIT_NO_LAZY_FETCH".to_owned(), "1".to_owned())]);

    let (reader, args) = run(reader.advance(exited(b"  abc123\n")).unwrap());
    assert_eq!(
        args,
        vec!["ls-tree", "-r", "--name-only", "-z", "abc123", "--", ".github/workflows"]
    );

    let listing = b".github/workflows/b.yaml\0.github/workflows/README.md\0.github/workflows/a.yml\0";
    let (reader, args) = run(reader.advance(exited(listing)).unwrap());
    assert_eq!(args, vec!["show", "abc123:.github/workflows/b.yaml"]);

    let (reader, args) = run(reader.advance(exited(b"on: push\n")).unwrap());
    assert_eq!(args, vec!["show", "abc123:.github/workflows/a.yml"]);

    match reader.advance(exited(b"on: pull_request\n")).unwrap() {
        ReadStep::Done(workflows) => {
            assert_eq!(workflows.len(), 2);
            assert_eq!(workflows.get(".github/workflows/a.yml").unwrap(), "on: pull_request\n");
            assert_eq!(workflows.get(".github/workflows/b.yaml").unwrap(), "on: push\n");
            assert!(workflows.get(".github/workflows/README.md").is_none());
            let paths = workflows.as_slice().iter().map(|(p, _)| p.as_str()).collect::<Vec<_>>();
            assert_eq!(paths, vec![".github/workflows/a.yml", ".github/workflows/b.yaml"]);
        }
        ReadStep::Run(..) => panic!("every listed workflow was read"),
    }
}

#[test]
fn reader_with_no_workflows_is_done_after_listing() {
    let (reader, _) = WorkflowReader::start("main");
    let (reader, _) = run(reader.advance(exited(b"deadbeef\n")).unwrap());
    match reader.advance(exited(b"")).unwrap() {
        ReadStep::Done(workflows) => assert!(workflows.is_empty()),
        ReadStep::Run(..) => panic!("nothing is left to read"),
    }
}

#[test]
fn reader_reports_a_failed_command_with_its_trimmed_stderr() {
    let (reader, _) = WorkflowReader::start("missing");
    let outcome = GitOutcome::Exited {
        success: false,
        stdout: Vec::new(),
        stderr: b"\n fatal: Needed a single revision \n".to_vec(),
    };
    match reader.advance(outcome) {
        Err(GitError::Command { operation, message }) => {
            assert_eq!(operation, "resolve revision");
            assert_eq!(message, "fatal: Needed a single revision");
        }
        _ => panic!("a failed command is an error"),
    }
}

#[test]
fn reader_reports_a_command_that_could_not_start() {
    let (reader, _) = WorkflowReader::start("HEAD");
    let (reader, _) = run(reader.advance(exited(b"abc\n")).unwrap());
    let error = std::io::Error::new(std::io::ErrorKind::NotFound, "no git");
    match reader.advance(GitOutcome::NotStarted(error)) {
        Err(GitError::Invocation { operation, source }) => {
            assert_eq!(operation, "list workflow files");
            assert_eq!(source.kind(), std::io::ErrorKind::NotFound);
        }
        _ => panic!("a command that cannot start is an error"),
    }
}

#[test]
fn reader_refuses_output_that_is_not_utf8() {
    let (reader, _) = WorkflowReader::start("HEAD");
    match reader.advance(exited(&[0xff, 0xfe])) {
        Err(GitError::NonUtf8 { operation, field }) => {
            assert_eq!(operation, "resolve revision");
            assert_eq!(field, "revision");
        }
        _ => panic!("non-UTF-8 output is an error"),
    }

    let (reader, _) = WorkflowReader::start("HEAD");
    let (reader, _) = run(reader.advance(exited(b"abc\n")).unwrap());
    let (reader, _) = run(reader.advance(exited(b".github/workflows/x.yml\0")).unwrap());
    match reader.advance(exited(&[b'a', 0xc3])) {
        Err(GitError::NonUtf8 { operation, field }) => {
            assert_eq!(operation, "read workflow file");
            assert_eq!(field, "workflow contents");
        }
        _ => panic!("non-UTF-8 contents are an error"),
    }
}

#[test]
fn reader_keeps_unicode_and_quoted_file_names_losslessly() {
    let (reader, _) = WorkflowReader::start("HEAD");
    let (reader, _) = run(reader.advance(exited(b"abc\n")).unwrap());
    let listing = ".github/workflows/triển-khai.yml\0.github/workflows/quoted\"name.yaml\0.github/workflows/line\nbreak.yml\0";
    let (reader, args) = run(reader.advance(exited(listing.as_bytes())).unwrap());
    assert_eq!(args[1], "abc:.github/workflows/triển-khai.yml");
    let (reader, args) = run(reader.advance(exited(b"a")).unwrap());
    assert_eq!(args[1], "abc:.github/workflows/quoted\"name.yaml");
    let (reader, args) = run(reader.advance(exited(b"b")).unwrap());
    assert_eq!(args[1], "abc:.github/workflows/line\nbreak.yml");
    match reader.advance(exited(b"c")).unwrap() {
        ReadStep::Done(workflows) => {
            assert_eq!(workflows.len(), 3);
            assert_eq!(workflows.get(".github/workflows/line\nbreak.yml").unwrap(), "c");
        }
        ReadStep::Run(..) => panic!("every listed workflow was read"),
    }
}

#[test]
fn workflow_paths_keep_yaml_files_in_listing_order() {
    let paths = privilege_diff::git::workflow_paths_of("a.yml\0b.txt\0c.yaml\0.yml\0d.YML\0");
    assert_eq!(paths, vec!["a.yml", "c.yaml", ".yml"]);
}

#[test]
fn git_errors_have_the_messages_of_the_command_line() {
    let command = GitError::Command { operation: "resolve revision", message: "fatal: bad".to_owned() };
    assert_eq!(command.message(), "git resolve revision failed: fatal: bad");
    assert_eq!(
        revision_failure_message("base", &command),
        "base revision: git resolve revision failed: fatal: bad"
    );
    let non_utf8 = GitError::NonUtf8 { operation: "read workflow file", field: "workflow contents" };
    assert_eq!(non_utf8.message(), "git read workflow file returned non-UTF-8 workflow contents");
    let source = std::io::Error::new(std::io::ErrorKind::NotFound, "no git here");
    let invocation = GitError::Invocation { operation: "list workflow files", source };
    assert_eq!(invocation.message(), "failed to invoke git while list workflow files: no git here");
}
