# privilege_diff

A verified library that compares two revisions of a repository's GitHub
Actions workflows by the privileges they grant, and reports what the head
revision adds: new `pull_request_target` triggers, token write permissions,
secret references, OIDC access, self-hosted runners, mutable action
references and untrusted context in `run` scripts, plus warnings for what
cannot be modelled.

The library in `src/` is written in Verus; each public function states its
result in `requires`/`ensures` over spec functions, and Verus proves it.

- `yaml` – the YAML value that a workflow parses to (through serde_yaml), and `Value`-style
  accessors, equality and mapping updates.
- `expr` – `${{ ... }}` expression regions, tokens and context accesses.
- `extract` – the capabilities of one workflow (`extract_document`).
- `diff` – the findings of a comparison (`diff_workflows`).
- `render` – the text report, with terminal control characters escaped.
- `cli` – reading both revisions, refusing unparsable files, exit status.
- `git` – the decisions of reading workflow files from a revision, one git
  command at a time (`WorkflowReader`).
- `collections`, `path`, `text`, `model` – sorted string sets and maps,
  path-ordered maps, text helpers and the capability model.

`app/main.rs` is the command line around the library: argument parsing,
running git, JSON output and process exit.
