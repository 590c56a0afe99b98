use privilege_diff::model::WorkflowCapability;

fn extract_workflow(path: &str, source: &str) -> WorkflowCapability {
    privilege_diff::extract::extract_workflow(path.to_owned(), source)
}

const SOURCE: &str = r#"
on:
  pull_request_target:

permissions:
  contents: read

jobs:
  release:
    permissions:
      contents: write
      id-token: write
    runs-on: ubuntu-latest
    steps:
      - uses: actions/checkout@v4
      - run: npm publish --token "${{ secrets.NPM_TOKEN }}"
"#;

#[test]
fn extracts_job_privileges_from_a_workflow() {
    let capability = extract_workflow(".github/workflows/release.yml", SOURCE);
    let release = capability.jobs.get("release").unwrap();

    assert!(capability.triggers.contains("pull_request_target"));
    assert_eq!(release.permissions.get("contents").unwrap(), "write");
    assert!(release.oidc);
    assert!(release.secrets.contains("NPM_TOKEN"));
    assert_eq!(release.action_refs, vec!["actions/checkout@v4"]);
}

#[test]
fn job_permission_maps_replace_workflow_permissions() {
    let capability = extract_workflow(
        ".github/workflows/permissions.yml",
        r#"
on: push
permissions:
  contents: write
  packages: write
  id-token: write
jobs:
  restricted:
    permissions:
      contents: read
    runs-on: ubuntu-latest
  disabled:
    permissions: {}
    runs-on: ubuntu-latest
  inherited:
    runs-on: ubuntu-latest
"#,
    );

    let restricted = capability.jobs.get("restricted").unwrap();
    assert!(!restricted.oidc);
    assert_eq!(restricted.permissions.get("contents").unwrap(), "read");
    assert!(!restricted.permissions.contains_key("packages"));
    assert!(!restricted.permissions.contains_key("id-token"));
    assert_eq!(restricted.permissions.len(), 1);

    let disabled = capability.jobs.get("disabled").unwrap();
    assert!(disabled.permissions.is_empty());
    assert!(!disabled.oidc);

    let inherited = capability.jobs.get("inherited").unwrap();
    assert_eq!(inherited.permissions.get("contents").unwrap(), "write");
    assert_eq!(inherited.permissions.get("packages").unwrap(), "write");
    assert_eq!(inherited.permissions.get("id-token").unwrap(), "write");
    assert!(inherited.oidc);
    assert_eq!(capability.permissions, inherited.permissions);
    assert!(capability.warnings.is_empty());
}

#[test]
fn warns_for_dynamic_runners_and_keeps_static_group_labels() {
    let capability = extract_workflow(
        ".github/workflows/runners.yml",
        r#"
on: push
jobs:
  dynamic:
    runs-on: "${{ matrix.runner }}"
  grouped:
    runs-on:
      group: deployment
      labels:
        - ubuntu-latest
        - "${{ matrix.os }}"
"#,
    );

    assert!(capability.jobs.get("dynamic").unwrap().runners.is_empty());
    assert_eq!(
        capability.jobs.get("grouped").unwrap().runners.as_slice().iter().collect::<Vec<_>>(),
        vec!["ubuntu-latest"]
    );
    assert!(capability
        .warnings
        .iter()
        .any(|warning| warning.contains("dynamic")));
}

#[test]
fn warns_for_unknown_permission_access_values() {
    let capability = extract_workflow(
        ".github/workflows/permissions.yml",
        r#"
on: push
permissions:
  contents: administer
jobs:
  check:
    runs-on: ubuntu-latest
"#,
    );

    assert!(capability
        .warnings
        .iter()
        .any(|warning| warning.contains("unsupported access level")));
    assert!(capability.warnings.iter().all(|warning| !warning.contains("administer")));
}

#[test]
fn warns_for_malformed_trigger_configuration() {
    let capability = extract_workflow(
        ".github/workflows/trigger.yml",
        r#"
on:
  push: invalid
jobs: {}
"#,
    );

    assert!(capability.triggers.contains("push"));
    assert!(capability
        .warnings
        .iter()
        .any(|warning| warning.contains("push") && warning.contains("configuration")));
}

#[test]
fn warns_for_static_runner_groups_that_the_model_cannot_represent() {
    let capability = extract_workflow(
        ".github/workflows/runners.yml",
        r#"
on: push
jobs:
  deploy:
    runs-on:
      group: trusted-group
"#,
    );

    assert!(capability.jobs.get("deploy").unwrap().runners.is_empty());
    assert!(capability
        .warnings
        .iter()
        .any(|warning| warning.contains("runner group") && warning.contains("unsupported")));
}

#[test]
fn warns_when_reusable_workflow_inherits_all_secrets() {
    let capability = extract_workflow(
        ".github/workflows/reusable.yml",
        r#"
on: push
jobs:
  publish:
    uses: owner/repository/.github/workflows/publish.yml@v1
    secrets: inherit
"#,
    );

    assert!(capability.jobs.get("publish").unwrap().secrets.is_empty());
    assert!(capability
        .warnings
        .iter()
        .any(|warning| warning.contains("unknown secret access")));
}

#[test]
fn warns_for_dynamic_secret_access_without_recording_a_name() {
    let capability = extract_workflow(
        ".github/workflows/dynamic-secret.yml",
        r#"
on: push
jobs:
  publish:
    runs-on: ubuntu-latest
    steps:
      - run: echo "${{ secrets[inputs.secret_name] }}"
"#,
    );

    assert!(capability.jobs.get("publish").unwrap().secrets.is_empty());
    assert!(capability.warnings.iter().any(|warning| {
        warning.contains("job publish") && warning.contains("unknown secret access")
    }));
}

#[test]
fn workflow_env_respects_job_overrides_and_warns_for_step_overrides() {
    let capability = extract_workflow(
        "env.yml",
        r#"
on: push
permissions: {}
env:
  TOKEN: ${{ secrets.DEPLOY_TOKEN }}
jobs:
  inherited:
    runs-on: ubuntu-latest
  overridden:
    env:
      TOKEN: literal
    runs-on: ubuntu-latest
  step_override:
    runs-on: ubuntu-latest
    steps:
      - run: deploy
        env:
          TOKEN: literal
  reusable:
    uses: ./.github/workflows/called.yml
"#,
    );
    assert!(capability
        .jobs
        .get("inherited")
        .unwrap()
        .secrets
        .contains("DEPLOY_TOKEN"));
    assert!(capability.jobs.get("overridden").unwrap().secrets.is_empty());
    assert!(capability.jobs.get("reusable").unwrap().secrets.is_empty());
    assert!(capability
        .warnings
        .iter()
        .any(|warning| warning.contains("step_override") && warning.contains("env override")));
}

#[test]
fn whole_secret_context_expressions_warn_without_fabricating_names() {
    for expression in [
        "toJSON(secrets)",
        "secrets",
        "secrets.*",
        "secrets [inputs.name]",
        "toJSON(SECRETS)",
    ] {
        let source = format!("on: push\npermissions: {{}}\nenv:\n  PAYLOAD: ${{{{ {expression} }}}}\njobs:\n  check:\n    runs-on: ubuntu-latest\n");
        let capability = extract_workflow("secrets.yml", &source);
        assert!(capability.jobs.get("check").unwrap().secrets.is_empty());
        assert!(
            capability
                .warnings
                .iter()
                .any(|warning| warning.contains("unknown secret access")),
            "missed {expression}"
        );
    }
}

#[test]
fn expression_scanning_ignores_literals_and_handles_expression_boundaries() {
    let capability = extract_workflow(
        "expressions.yml",
        r#"
on: push
permissions: {}
jobs:
  literals:
    runs-on: ubuntu-latest
    steps:
      - run: echo secrets.NAME github.event.title ${{ 'secrets.HIDDEN github.event' }} ${{ env.secrets.NAME }}
  expressions:
    runs-on: ubuntu-latest
    steps:
      - run: echo ${{ format('}} secrets.IGNORED', secrets . ACTUAL) }} ${{ github . event . issue . title }}
"#,
    );
    assert!(capability.jobs.get("literals").unwrap().secrets.is_empty());
    assert!(!capability.jobs.get("literals").unwrap().untrusted_script_context);
    assert_eq!(
        capability
            .jobs
            .get("expressions")
            .unwrap()
            .secrets
            .as_slice()
            .iter()
            .map(String::as_str)
            .collect::<Vec<_>>(),
        vec!["ACTUAL"]
    );
    assert!(capability.jobs.get("expressions").unwrap().untrusted_script_context);
    assert!(capability.warnings.is_empty());
}

#[test]
fn missing_required_workflow_keys_are_visible_warnings() {
    for (source, missing) in [("name: example\n", "on"), ("on: push\n", "jobs")] {
        let capability = extract_workflow("missing.yml", source);
        assert!(capability
            .warnings
            .iter()
            .any(|warning| { warning.contains("missing") && warning.contains(missing) }));
    }
}

#[test]
fn library_parse_warnings_never_retain_yaml_source_values() {
    let capability = extract_workflow(
        "private.yml",
        "env:\n  PRIVATE_LITERAL: first\n  PRIVATE_LITERAL: second\n",
    );
    let warnings = serde_json::to_string(&capability.warnings).unwrap();
    assert!(warnings.contains("could not parse workflow YAML"));
    assert!(!warnings.contains("PRIVATE_LITERAL"));
    assert!(warnings.contains("line") && warnings.contains("column"));
}

#[test]
fn unparsed_workflows_grant_nothing() {
    let capability = extract_workflow("broken.yml", "on: [push\njobs:\n  x: {}\n");
    assert!(capability.triggers.is_empty());
    assert!(capability.jobs.is_empty());
    assert!(capability.permissions.is_empty());
    assert_eq!(capability.permissions_all, None);
    assert_eq!(capability.warnings.len(), 1);
    assert!(capability.warnings[0].starts_with("could not parse workflow YAML at line "));

    let root = extract_workflow("list.yml", "- on\n- jobs\n");
    assert_eq!(root.warnings, vec!["workflow root must be a mapping"]);
    assert!(root.jobs.is_empty());
}

#[test]
fn warnings_follow_document_order() {
    let capability = extract_workflow(
        "order.yml",
        "on: 5\npermissions: maybe\njobs:\n  a:\n    runs-on: 3\n",
    );
    assert_eq!(
        capability.warnings,
        vec![
            "workflow triggers must be a string, list, or mapping",
            "workflow permissions must be a mapping",
            "job a runs-on must be a string or list",
        ]
    );
    let job = capability.jobs.get("a").unwrap();
    assert!(job.permissions_explicit);
    assert!(job.permissions.is_empty());
    assert!(!job.oidc);
}
