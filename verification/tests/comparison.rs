use privilege_diff::cli::{collect_capabilities, exit_status, parse_failure_message};
use privilege_diff::diff::diff_workflows;
use privilege_diff::model::{Finding, Severity};
use privilege_diff::path::PathMap;

fn documents(files: &[(&str, &str)]) -> PathMap<String> {
    let mut map = PathMap::new();
    for (path, source) in files {
        map.insert((*path).to_owned(), (*source).to_owned());
    }
    map
}

/// Reads both revisions, the base first, and compares them.
fn compare_revisions(
    base: &PathMap<String>,
    head: &PathMap<String>,
) -> Result<Vec<Finding>, String> {
    let base = collect_capabilities("base", base)?;
    let head = collect_capabilities("head", head)?;
    Ok(diff_workflows(&base, &head))
}

const READ_ONLY: &str = "on: push\npermissions:\n  contents: read\njobs:\n  check:\n    runs-on: ubuntu-latest\n";
const WRITE: &str = "on: push\npermissions:\n  contents: write\njobs:\n  check:\n    runs-on: ubuntu-latest\n";

#[test]
fn high_findings_exit_with_two_and_warnings_with_zero() {
    let base = documents(&[(".github/workflows/check.yml", READ_ONLY)]);
    let head = documents(&[(".github/workflows/check.yml", WRITE)]);
    let findings = compare_revisions(&base, &head).unwrap();
    assert!(findings.iter().any(|f| f.severity == Severity::High && f.category == "token-permission"));
    assert_eq!(exit_status(&findings), 2);

    let warning = Finding {
        severity: Severity::Warning,
        path: "a.yml".to_owned(),
        job: None,
        category: "unknown-capability".to_owned(),
        message: "Workflow analysis warning: x".to_owned(),
        remediation: "r".to_owned(),
    };
    assert_eq!(exit_status(&[warning]), 0);
    assert_eq!(exit_status(&[]), 0);
}

#[test]
fn unchanged_revisions_have_no_high_finding() {
    let files = [
        (".github/workflows/check.yml", WRITE),
        (".github/workflows/odd.yml", "on: push\njobs: []\n"),
    ];
    let findings = compare_revisions(&documents(&files), &documents(&files)).unwrap();
    assert!(findings.iter().all(|f| f.severity == Severity::Warning
        && f.category == "unknown-capability"
        && f.job.is_none()));
    assert!(findings.iter().any(|f| f.message.contains("jobs must be a mapping")));
    assert_eq!(exit_status(&findings), 0);
}

#[test]
fn malformed_yaml_is_refused_without_its_text() {
    let bad = "env:\n  SUPER_SECRET_VALUE: first\n  SUPER_SECRET_VALUE: second\n";
    let good = documents(&[(".github/workflows/check.yml", READ_ONLY)]);
    let broken = documents(&[(".github/workflows/check.yml", bad)]);

    let error = compare_revisions(&broken, &good).unwrap_err();
    assert!(error.starts_with("base revision, .github/workflows/check.yml: could not parse workflow YAML at line "));
    assert!(!error.contains("SUPER_SECRET_VALUE"));

    let error = compare_revisions(&good, &broken).unwrap_err();
    assert!(error.starts_with("head revision, .github/workflows/check.yml: could not parse workflow YAML"));
}

#[test]
fn the_first_unparsed_file_is_the_one_refused() {
    let files = documents(&[
        (".github/workflows/a.yml", READ_ONLY),
        (".github/workflows/b.yml", "a: [\n"),
        (".github/workflows/c.yml", "b: {\n"),
    ]);
    let error = match collect_capabilities("head", &files) {
        Err(error) => error,
        Ok(_) => panic!("b.yml does not parse"),
    };
    assert!(error.starts_with("head revision, .github/workflows/b.yml:"));
}

#[test]
fn parse_failure_messages_name_side_path_and_location() {
    assert_eq!(
        parse_failure_message("base", "x.yml", Some((12, 3))),
        "base revision, x.yml: could not parse workflow YAML at line 12, column 3"
    );
    assert_eq!(
        parse_failure_message("head", "y.yml", None),
        "head revision, y.yml: could not parse workflow YAML"
    );
}

#[test]
fn capabilities_are_keyed_by_path() {
    let files = documents(&[
        (".github/workflows/a.yml", READ_ONLY),
        (".github/workflows/b.yml", WRITE),
    ]);
    let map = match collect_capabilities("base", &files) {
        Ok(map) => map,
        Err(error) => panic!("{error}"),
    };
    assert_eq!(map.len(), 2);
    let b = map.get(".github/workflows/b.yml").unwrap();
    assert_eq!(b.path, ".github/workflows/b.yml");
    assert_eq!(b.jobs.get("check").unwrap().permissions.get("contents").unwrap(), "write");
    assert!(map.get(".github/workflows/./a.yml").is_some());
}

#[test]
fn files_only_in_the_base_are_not_compared() {
    let base = documents(&[
        (".github/workflows/check.yml", READ_ONLY),
        (".github/workflows/removed.yml", "on: pull_request_target\njobs: []\n"),
    ]);
    let head = documents(&[(".github/workflows/check.yml", READ_ONLY)]);
    let findings = compare_revisions(&base, &head).unwrap();
    assert!(findings.is_empty());

    let findings = compare_revisions(&head, &base).unwrap();
    assert!(!findings.is_empty());
    assert!(findings.iter().all(|f| f.path == ".github/workflows/removed.yml"));
    assert!(findings.iter().any(|f| f.category == "trigger-trust"));
}

#[test]
fn a_base_only_hides_findings() {
    let base = documents(&[(".github/workflows/check.yml", WRITE)]);
    let head = documents(&[(".github/workflows/check.yml", "on: pull_request_target\npermissions:\n  contents: write\n  actions: write\njobs:\n  check:\n    runs-on: self-hosted\n")]);
    let against_base = compare_revisions(&base, &head).unwrap();
    let against_nothing = compare_revisions(&documents(&[]), &head).unwrap();
    assert!(against_base.len() < against_nothing.len());
    assert!(against_base.iter().all(|f| against_nothing.contains(f)));
    assert_eq!(compare_revisions(&base, &head).unwrap(), against_base);
}
