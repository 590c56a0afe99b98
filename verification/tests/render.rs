use privilege_diff::model::{Finding, Severity};
use privilege_diff::render::{escape_terminal_text, render_text};

#[test]
fn text_rendering_escapes_control_characters_from_finding_fields() {
    let findings = [Finding {
        severity: Severity::High,
        path: ".github/workflows/check\nname\u{1b}[31m.yml".to_owned(),
        job: Some("release\rjob".to_owned()),
        category: "token\u{7f}permission".to_owned(),
        message: "new\tpermission\u{1b}[0m".to_owned(),
        remediation: "use\u{0001}least privilege".to_owned(),
    }];

    assert_eq!(
        render_text(&findings),
        "HIGH  .github/workflows/check\\nname\\x1b[31m.yml (job: release\\rjob) [token\\x7fpermission]\n  new\\tpermission\\x1b[0m\n  Suggested control: use\\x01least privilege\n"
    );
}

#[test]
fn empty_report_says_nothing_was_found() {
    assert_eq!(render_text(&[]), "No privilege-increasing changes detected.\n");
}

#[test]
fn workflow_level_findings_have_no_job_part() {
    let findings = [
        Finding {
            severity: Severity::Warning,
            path: "a.yml".to_owned(),
            job: None,
            category: "unknown-capability".to_owned(),
            message: "Workflow analysis warning: x".to_owned(),
            remediation: "fix".to_owned(),
        },
        Finding {
            severity: Severity::High,
            path: "b.yml".to_owned(),
            job: Some("j".to_owned()),
            category: "oidc".to_owned(),
            message: "m".to_owned(),
            remediation: "r".to_owned(),
        },
    ];
    assert_eq!(
        render_text(&findings),
        "WARNING  a.yml [unknown-capability]\n  Workflow analysis warning: x\n  Suggested control: fix\nHIGH  b.yml (job: j) [oidc]\n  m\n  Suggested control: r\n"
    );
}

#[test]
fn escaping_leaves_no_control_characters() {
    let mut text = String::new();
    for code in 0u32..0x80 {
        text.push(char::from_u32(code).unwrap());
    }
    text.push('é');
    let escaped = escape_terminal_text(&text);
    assert!(escaped.chars().all(|c| (c as u32) > 0x1f && c != '\u{7f}'));
    assert!(escaped.starts_with("\\x00\\x01"));
    assert!(escaped.contains("\\t\\n\\x0b\\x0c\\r"));
    assert!(escaped.ends_with("~\\x7fé"));
}

#[test]
fn reports_join_and_take_three_lines_per_finding() {
    let finding = |path: &str, message: &str| Finding {
        severity: Severity::High,
        path: path.to_owned(),
        job: Some("j\n".to_owned()),
        category: "oidc".to_owned(),
        message: message.to_owned(),
        remediation: "r\u{7}".to_owned(),
    };
    let a = [finding("a.yml", "first\r\n")];
    let b = [finding("b.yml", "second")];
    let joined = [a[0].clone(), b[0].clone()];
    let text = render_text(&joined);
    assert_eq!(text, render_text(&a) + &render_text(&b));
    assert_eq!(text.matches('\n').count(), 6);
    assert!(text.chars().all(|c| c == '\n' || ((c as u32) > 0x1f && c != '\u{7f}')));
}
