use vstd::prelude::*;

use crate::diff::finding_views;
use crate::model::{Finding, FindingView, Severity};
use crate::text::{chars_of, digit_char, push_char};

verus! {

/// A control character: C0 controls and DEL.
pub open spec fn is_control(c: char) -> bool {
    (c as u32) <= 0x1f || (c as u32) == 0x7f
}

/// The lowercase hexadecimal digit for `d` (0 to 15).
pub open spec fn hex_digit_char(d: nat) -> char {
    if d < 10 {
        digit_char(d)
    } else {
        ((87 + d) as u8) as char
    }
}

/// How one character is shown on a terminal: newline, carriage return and
/// tab as their backslash escapes, other control characters as `\xNN`, and
/// everything else as itself.
pub open spec fn escape_char(c: char) -> Seq<char> {
    if c == '\n' {
        seq!['\\', 'n']
    } else if c == '\r' {
        seq!['\\', 'r']
    } else if c == '\t' {
        seq!['\\', 't']
    } else if is_control(c) {
        seq!['\\', 'x', hex_digit_char((c as u32 / 16) as nat), hex_digit_char((c as u32 % 16) as nat)]
    } else {
        seq![c]
    }
}

/// A text with each character escaped for a terminal.
pub open spec fn escaped(s: Seq<char>) -> Seq<char>
    decreases s.len(),
{
    if s.len() == 0 {
        Seq::empty()
    } else {
        escaped(s.drop_last()) + escape_char(s.last())
    }
}

fn hex_digit(d: u32) -> (c: char)
    requires
        d < 16,
    ensures
        c == hex_digit_char(d as nat),
{
    if d < 10 {
        (48u8 + d as u8) as char
    } else {
        (87u8 + d as u8) as char
    }
}

/// Appends the terminal form of one character.
fn push_escaped(out: &mut String, c: char)
    ensures
        final(out)@ == old(out)@ + escape_char(c),
{
    let u = c as u32;
    if c == '\n' {
        out.append("\\n");
        proof { reveal_strlit("\\n"); }
    } else if c == '\r' {
        out.append("\\r");
        proof { reveal_strlit("\\r"); }
    } else if c == '\t' {
        out.append("\\t");
        proof { reveal_strlit("\\t"); }
    } else if u <= 0x1f || u == 0x7f {
        push_char(out, '\\');
        push_char(out, 'x');
        push_char(out, hex_digit(u / 16));
        push_char(out, hex_digit(u % 16));
    } else {
        push_char(out, c);
    }
    assert(out@ =~= old(out)@ + escape_char(c));
}

/// A text with its control characters escaped, so that it cannot move the
/// cursor, recolor or otherwise drive a terminal.
pub fn escape_terminal_text(value: &str) -> (r: String)
    ensures
        r@ == escaped(value@),
{
    let chars = chars_of(value);
    let mut out = String::new();
    let mut i: usize = 0;
    while i < chars.len()
        invariant
            chars@ == value@,
            i <= chars@.len(),
            out@ == escaped(chars@.take(i as int)),
        decreases chars@.len() - i,
    {
        push_escaped(&mut out, chars[i]);
        assert(chars@.take(i + 1).drop_last() =~= chars@.take(i as int));
        i = i + 1;
    }
    assert(chars@.take(i as int) =~= chars@);
    out
}

/// The label of a severity in a report.
pub open spec fn severity_label(s: Severity) -> Seq<char> {
    match s {
        Severity::High => "HIGH"@,
        Severity::Warning => "WARNING"@,
    }
}

/// The report lines of one finding.
pub open spec fn finding_text(f: FindingView) -> Seq<char> {
    severity_label(f.severity) + "  "@ + escaped(f.path) + match f.job {
        Some(j) => " (job: "@ + escaped(j) + ")"@,
        None => Seq::empty(),
    } + " ["@ + escaped(f.category) + "]\n  "@ + escaped(f.message) + "\n  Suggested control: "@
        + escaped(f.remediation) + "\n"@
}

/// The report lines of findings, in their order.
pub open spec fn findings_text(fs: Seq<FindingView>) -> Seq<char>
    decreases fs.len(),
{
    if fs.len() == 0 {
        Seq::empty()
    } else {
        findings_text(fs.drop_last()) + finding_text(fs.last())
    }
}

/// The text report of findings: one block per finding, or a single line
/// saying that nothing was found.
pub open spec fn report_text(fs: Seq<FindingView>) -> Seq<char> {
    if fs.len() == 0 {
        "No privilege-increasing changes detected.\n"@
    } else {
        findings_text(fs)
    }
}

fn append_finding(report: &mut String, finding: &Finding)
    ensures
        final(report)@ == old(report)@ + finding_text(finding@),
{
    match finding.severity {
        Severity::High => {
            report.append("HIGH");
        },
        Severity::Warning => {
            report.append("WARNING");
        },
    }
    report.append("  ");
    let path = escape_terminal_text(finding.path.as_str());
    report.append(path.as_str());
    let ghost before_job = report@;
    match &finding.job {
        Some(job) => {
            report.append(" (job: ");
            let j = escape_terminal_text(job.as_str());
            report.append(j.as_str());
            report.append(")");
        },
        None => {},
    }
    let ghost after_job = report@;
    report.append(" [");
    let category = escape_terminal_text(finding.category.as_str());
    report.append(category.as_str());
    report.append("]\n  ");
    let message = escape_terminal_text(finding.message.as_str());
    report.append(message.as_str());
    report.append("\n  Suggested control: ");
    let remediation = escape_terminal_text(finding.remediation.as_str());
    report.append(remediation.as_str());
    report.append("\n");
    assert(report@ =~= old(report)@ + finding_text(finding@));
}

/// Formats findings in their deterministic diff order.
pub fn render_text(findings: &[Finding]) -> (r: String)
    ensures
        r@ == report_text(finding_views(findings@)),
{
    let ghost fv = finding_views(findings@);
    if findings.len() == 0 {
        return String::from_str("No privilege-increasing changes detected.\n");
    }
    let mut report = String::new();
    let mut i: usize = 0;
    while i < findings.len()
        invariant
            fv == finding_views(findings@),
            i <= findings@.len(),
            report@ == findings_text(fv.take(i as int)),
        decreases findings@.len() - i,
    {
        append_finding(&mut report, &findings[i]);
        assert(fv.take(i + 1).drop_last() =~= fv.take(i as int));
        assert(fv.take(i + 1).last() == findings@[i as int]@);
        i = i + 1;
    }
    assert(fv.take(i as int) =~= fv);
    report
}

proof fn lemma_escape_char_has_no_control(c: char)
    ensures
        forall|i: int| 0 <= i < escape_char(c).len() ==> !is_control(#[trigger] escape_char(c)[i]),
{
    if !(c == '\n' || c == '\r' || c == '\t') && is_control(c) {
        let hi = (c as u32 / 16) as nat;
        let lo = (c as u32 % 16) as nat;
        assert(hi < 16 && lo < 16);
        assert(hex_digit_char(hi) as u32 >= 48);
        assert(hex_digit_char(lo) as u32 >= 48);
    }
}

/// Escaping leaves no control character in a text: whatever a finding's
/// fields hold, the text report cannot drive the terminal that shows it.
pub proof fn lemma_escaped_has_no_control(s: Seq<char>)
    ensures
        forall|i: int| 0 <= i < escaped(s).len() ==> !is_control(#[trigger] escaped(s)[i]),
    decreases s.len(),
{
    if s.len() > 0 {
        lemma_escaped_has_no_control(s.drop_last());
        lemma_escape_char_has_no_control(s.last());
        let a = escaped(s.drop_last());
        let b = escape_char(s.last());
        assert forall|i: int| 0 <= i < escaped(s).len() implies !is_control(#[trigger] escaped(s)[i]) by {
            if i < a.len() {
                assert(escaped(s)[i] == a[i]);
            } else {
                assert(escaped(s)[i] == b[i - a.len()]);
            }
        }
    }
}

/// Whether the only control character of a text is the newline.
pub open spec fn controls_only_newlines(s: Seq<char>) -> bool {
    forall|i: int| 0 <= i < s.len() && is_control(#[trigger] s[i]) ==> s[i] == '\n'
}

proof fn lemma_concat_controls_only_newlines(a: Seq<char>, b: Seq<char>)
    requires
        controls_only_newlines(a),
        controls_only_newlines(b),
    ensures
        controls_only_newlines(a + b),
{
    assert forall|i: int| 0 <= i < (a + b).len() && is_control(#[trigger] (a + b)[i]) implies (a
        + b)[i] == '\n' by {
        if i < a.len() {
            assert((a + b)[i] == a[i]);
        } else {
            assert((a + b)[i] == b[i - a.len()]);
        }
    }
}

proof fn lemma_report_literals()
    ensures
        controls_only_newlines("HIGH"@),
        controls_only_newlines("WARNING"@),
        controls_only_newlines("  "@),
        controls_only_newlines(" (job: "@),
        controls_only_newlines(")"@),
        controls_only_newlines(" ["@),
        controls_only_newlines("]\n  "@),
        controls_only_newlines("\n  Suggested control: "@),
        controls_only_newlines("\n"@),
        controls_only_newlines("No privilege-increasing changes detected.\n"@),
{
    reveal_strlit("HIGH");
    reveal_strlit("WARNING");
    reveal_strlit("  ");
    reveal_strlit(" (job: ");
    reveal_strlit(")");
    reveal_strlit(" [");
    reveal_strlit("]\n  ");
    reveal_strlit("\n  Suggested control: ");
    reveal_strlit("\n");
    reveal_strlit("No privilege-increasing changes detected.\n");
}

proof fn lemma_escaped_controls_only_newlines(s: Seq<char>)
    ensures
        controls_only_newlines(escaped(s)),
{
    lemma_escaped_has_no_control(s);
}

proof fn lemma_finding_text_controls_only_newlines(f: FindingView)
    ensures
        controls_only_newlines(finding_text(f)),
{
    lemma_report_literals();
    lemma_escaped_controls_only_newlines(f.path);
    lemma_escaped_controls_only_newlines(f.category);
    lemma_escaped_controls_only_newlines(f.message);
    lemma_escaped_controls_only_newlines(f.remediation);
    let label = severity_label(f.severity);
    let job = match f.job {
        Some(j) => " (job: "@ + escaped(j) + ")"@,
        None => Seq::empty(),
    };
    match f.job {
        Some(j) => {
            lemma_escaped_controls_only_newlines(j);
            lemma_concat_controls_only_newlines(" (job: "@, escaped(j));
            lemma_concat_controls_only_newlines(" (job: "@ + escaped(j), ")"@);
        },
        None => {},
    }
    let t1 = label + "  "@;
    lemma_concat_controls_only_newlines(label, "  "@);
    let t2 = t1 + escaped(f.path);
    lemma_concat_controls_only_newlines(t1, escaped(f.path));
    let t3 = t2 + job;
    lemma_concat_controls_only_newlines(t2, job);
    let t4 = t3 + " ["@;
    lemma_concat_controls_only_newlines(t3, " ["@);
    let t5 = t4 + escaped(f.category);
    lemma_concat_controls_only_newlines(t4, escaped(f.category));
    let t6 = t5 + "]\n  "@;
    lemma_concat_controls_only_newlines(t5, "]\n  "@);
    let t7 = t6 + escaped(f.message);
    lemma_concat_controls_only_newlines(t6, escaped(f.message));
    let t8 = t7 + "\n  Suggested control: "@;
    lemma_concat_controls_only_newlines(t7, "\n  Suggested control: "@);
    let t9 = t8 + escaped(f.remediation);
    lemma_concat_controls_only_newlines(t8, escaped(f.remediation));
    lemma_concat_controls_only_newlines(t9, "\n"@);
    assert(finding_text(f) == t9 + "\n"@);
}

proof fn lemma_findings_text_controls_only_newlines(fs: Seq<FindingView>)
    ensures
        controls_only_newlines(findings_text(fs)),
    decreases fs.len(),
{
    if fs.len() == 0 {
        assert(findings_text(fs) =~= Seq::<char>::empty());
    } else {
        lemma_findings_text_controls_only_newlines(fs.drop_last());
        lemma_finding_text_controls_only_newlines(fs.last());
        lemma_concat_controls_only_newlines(findings_text(fs.drop_last()), finding_text(fs.last()));
    }
}

/// The text report holds no control character but the newlines that end
/// its lines, whatever the findings hold.
pub proof fn lemma_report_text_controls_only_newlines(fs: Seq<FindingView>)
    ensures
        controls_only_newlines(report_text(fs)),
{
    lemma_report_literals();
    lemma_findings_text_controls_only_newlines(fs);
}

/// The report of findings joined is the reports of each part joined: one
/// block per finding, in the given order.
pub proof fn lemma_report_text_concat(a: Seq<FindingView>, b: Seq<FindingView>)
    requires
        a.len() > 0,
        b.len() > 0,
    ensures
        report_text(a + b) == report_text(a) + report_text(b),
{
    lemma_findings_text_concat(a, b);
}

proof fn lemma_findings_text_concat(a: Seq<FindingView>, b: Seq<FindingView>)
    ensures
        findings_text(a + b) == findings_text(a) + findings_text(b),
    decreases b.len(),
{
    if b.len() == 0 {
        assert(a + b =~= a);
        assert(findings_text(b) =~= Seq::<char>::empty());
        assert(findings_text(a) + findings_text(b) =~= findings_text(a));
    } else {
        lemma_findings_text_concat(a, b.drop_last());
        assert((a + b).drop_last() =~= a + b.drop_last());
        assert((a + b).last() == b.last());
        assert(findings_text(a + b) =~= findings_text(a) + findings_text(b));
    }
}

/// The number of newlines in a text.
pub open spec fn newline_count(s: Seq<char>) -> nat
    decreases s.len(),
{
    if s.len() == 0 {
        0
    } else {
        newline_count(s.drop_last()) + if s.last() == '\n' {
            1nat
        } else {
            0nat
        }
    }
}

proof fn lemma_newline_count_concat(a: Seq<char>, b: Seq<char>)
    ensures
        newline_count(a + b) == newline_count(a) + newline_count(b),
    decreases b.len(),
{
    if b.len() == 0 {
        assert(a + b =~= a);
    } else {
        lemma_newline_count_concat(a, b.drop_last());
        assert((a + b).drop_last() =~= a + b.drop_last());
        assert((a + b).last() == b.last());
    }
}

proof fn lemma_no_newline_count(s: Seq<char>)
    requires
        forall|i: int| 0 <= i < s.len() ==> #[trigger] s[i] != '\n',
    ensures
        newline_count(s) == 0,
    decreases s.len(),
{
    if s.len() > 0 {
        assert forall|i: int| 0 <= i < s.drop_last().len() implies #[trigger] s.drop_last()[i] != '\n' by {
            assert(s.drop_last()[i] == s[i]);
        }
        lemma_no_newline_count(s.drop_last());
        assert(s.last() == s[s.len() - 1]);
    }
}

proof fn lemma_escaped_newline_count(s: Seq<char>)
    ensures
        newline_count(escaped(s)) == 0,
{
    lemma_escaped_has_no_control(s);
    assert forall|i: int| 0 <= i < escaped(s).len() implies #[trigger] escaped(s)[i] != '\n' by {
        assert(!is_control(escaped(s)[i]));
    }
    lemma_no_newline_count(escaped(s));
}

proof fn lemma_literal_newline_counts()
    ensures
        newline_count("HIGH"@) == 0,
        newline_count("WARNING"@) == 0,
        newline_count("  "@) == 0,
        newline_count(" (job: "@) == 0,
        newline_count(")"@) == 0,
        newline_count(" ["@) == 0,
        newline_count("]\n  "@) == 1,
        newline_count("\n  Suggested control: "@) == 1,
        newline_count("\n"@) == 1,
{
    reveal_strlit("HIGH");
    reveal_strlit("WARNING");
    reveal_strlit("  ");
    reveal_strlit(" (job: ");
    reveal_strlit(")");
    reveal_strlit(" [");
    reveal_strlit("]\n  ");
    reveal_strlit("\n  Suggested control: ");
    reveal_strlit("\n");
    reveal_strlit("]");
    reveal_strlit("  Suggested control: ");
    lemma_no_newline_count("HIGH"@);
    lemma_no_newline_count("WARNING"@);
    lemma_no_newline_count("  "@);
    lemma_no_newline_count(" (job: "@);
    lemma_no_newline_count(")"@);
    lemma_no_newline_count(" ["@);
    lemma_no_newline_count("]"@);
    lemma_no_newline_count("  Suggested control: "@);
    assert("\n"@.drop_last() =~= Seq::<char>::empty());
    assert(newline_count(Seq::<char>::empty()) == 0);
    assert("\n"@.len() == 1);
    assert("\n"@.last() == '\n');
    assert(newline_count("\n"@) == newline_count("\n"@.drop_last()) + 1);
    assert(newline_count("\n"@) == 1);
    assert("]\n  "@ =~= "]"@ + "\n"@ + "  "@);
    lemma_newline_count_concat("]"@, "\n"@);
    lemma_newline_count_concat("]"@ + "\n"@, "  "@);
    assert("\n  Suggested control: "@ =~= "\n"@ + "  Suggested control: "@);
    lemma_newline_count_concat("\n"@, "  Suggested control: "@);
}

proof fn lemma_finding_text_newlines(f: FindingView)
    ensures
        newline_count(finding_text(f)) == 3,
{
    lemma_literal_newline_counts();
    lemma_escaped_newline_count(f.path);
    lemma_escaped_newline_count(f.category);
    lemma_escaped_newline_count(f.message);
    lemma_escaped_newline_count(f.remediation);
    let label = severity_label(f.severity);
    let job = match f.job {
        Some(j) => " (job: "@ + escaped(j) + ")"@,
        None => Seq::empty(),
    };
    match f.job {
        Some(j) => {
            lemma_escaped_newline_count(j);
            lemma_newline_count_concat(" (job: "@, escaped(j));
            lemma_newline_count_concat(" (job: "@ + escaped(j), ")"@);
        },
        None => {},
    }
    assert(newline_count(job) == 0);
    let t1 = label + "  "@;
    lemma_newline_count_concat(label, "  "@);
    let t2 = t1 + escaped(f.path);
    lemma_newline_count_concat(t1, escaped(f.path));
    let t3 = t2 + job;
    lemma_newline_count_concat(t2, job);
    let t4 = t3 + " ["@;
    lemma_newline_count_concat(t3, " ["@);
    let t5 = t4 + escaped(f.category);
    lemma_newline_count_concat(t4, escaped(f.category));
    let t6 = t5 + "]\n  "@;
    lemma_newline_count_concat(t5, "]\n  "@);
    let t7 = t6 + escaped(f.message);
    lemma_newline_count_concat(t6, escaped(f.message));
    let t8 = t7 + "\n  Suggested control: "@;
    lemma_newline_count_concat(t7, "\n  Suggested control: "@);
    let t9 = t8 + escaped(f.remediation);
    lemma_newline_count_concat(t8, escaped(f.remediation));
    lemma_newline_count_concat(t9, "\n"@);
    assert(finding_text(f) == t9 + "\n"@);
}

/// Every finding takes three lines of the text report: its heading, its
/// message and its suggested control.
pub proof fn lemma_report_text_newlines(fs: Seq<FindingView>)
    requires
        fs.len() > 0,
    ensures
        newline_count(report_text(fs)) == 3 * fs.len(),
{
    lemma_findings_text_newlines(fs);
}

proof fn lemma_findings_text_newlines(fs: Seq<FindingView>)
    ensures
        newline_count(findings_text(fs)) == 3 * fs.len(),
    decreases fs.len(),
{
    if fs.len() > 0 {
        lemma_findings_text_newlines(fs.drop_last());
        lemma_finding_text_newlines(fs.last());
        lemma_newline_count_concat(findings_text(fs.drop_last()), finding_text(fs.last()));
    }
}

} // verus!
