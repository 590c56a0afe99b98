use vstd::prelude::*;

use crate::collections::{key_views, sorted_of, string_views, StringMap, StringSet};
use crate::model::{
    option_string_view, Finding, FindingView, JobCapability, JobView, Severity,
    WorkflowCapability, WorkflowView,
};
use crate::path::{PathMap, PathPart, part_keys,
    lemma_parts_lt_irreflexive, lemma_parts_lt_total, lemma_parts_lt_transitive, parts_lt,
    path_components, path_parts, parts_lt_exec, exec_parts_view,
};
use crate::text::{
    char_seq_lt, chars_of, is_hex_digit, is_hex_digit_exec, lemma_seq_lt_irreflexive,
    lemma_seq_lt_total, lemma_seq_lt_transitive, seq_lt, starts_with, starts_with_exec, str_eq,
    str_lt, concat2, concat3,
};

verus! {

/// The order of optional job names: a workflow-level finding (no job) first.
pub open spec fn job_lt(a: Option<Seq<char>>, b: Option<Seq<char>>) -> bool {
    match (a, b) {
        (None, Some(_)) => true,
        (Some(x), Some(y)) => seq_lt(x, y),
        _ => false,
    }
}

/// The rank of a severity in the finding order.
pub open spec fn severity_rank(s: Severity) -> int {
    match s {
        Severity::High => 0,
        Severity::Warning => 1,
    }
}

/// The order in which findings are reported: by path, job, category and
/// message; the remaining fields only order findings that agree on those.
pub open spec fn finding_lt(a: FindingView, b: FindingView) -> bool {
    if path_parts(a.path) != path_parts(b.path) {
        parts_lt(path_parts(a.path), path_parts(b.path))
    } else if a.job != b.job {
        job_lt(a.job, b.job)
    } else if a.category != b.category {
        seq_lt(a.category, b.category)
    } else if a.message != b.message {
        seq_lt(a.message, b.message)
    } else if a.severity != b.severity {
        severity_rank(a.severity) < severity_rank(b.severity)
    } else if a.remediation != b.remediation {
        seq_lt(a.remediation, b.remediation)
    } else {
        seq_lt(a.path, b.path)
    }
}

/// Whether `a` comes no later than `b` by the report key: path, job,
/// category, then message.
pub open spec fn report_key_le(a: FindingView, b: FindingView) -> bool {
    if path_parts(a.path) != path_parts(b.path) {
        parts_lt(path_parts(a.path), path_parts(b.path))
    } else if a.job != b.job {
        job_lt(a.job, b.job)
    } else if a.category != b.category {
        seq_lt(a.category, b.category)
    } else {
        a.message == b.message || seq_lt(a.message, b.message)
    }
}

proof fn lemma_job_lt(a: Option<Seq<char>>, b: Option<Seq<char>>, c: Option<Seq<char>>)
    ensures
        !job_lt(a, a),
        job_lt(a, b) || job_lt(b, a) || a == b,
        job_lt(a, b) && job_lt(b, c) ==> job_lt(a, c),
{
    match a {
        Some(x) => {
            lemma_seq_lt_irreflexive(x);
        },
        None => {},
    }
    match (a, b) {
        (Some(x), Some(y)) => {
            lemma_seq_lt_total(x, y);
        },
        _ => {},
    }
    match (a, b, c) {
        (Some(x), Some(y), Some(z)) => {
            if seq_lt(x, y) && seq_lt(y, z) {
                lemma_seq_lt_transitive(x, y, z);
            }
        },
        _ => {},
    }
}

pub proof fn lemma_finding_lt_irreflexive(a: FindingView)
    ensures
        !finding_lt(a, a),
{
    lemma_seq_lt_irreflexive(a.path);
}

pub proof fn lemma_finding_lt_total(a: FindingView, b: FindingView)
    ensures
        finding_lt(a, b) || finding_lt(b, a) || a == b,
{
    lemma_parts_lt_total(path_parts(a.path), path_parts(b.path));
    lemma_job_lt(a.job, b.job, b.job);
    lemma_seq_lt_total(a.category, b.category);
    lemma_seq_lt_total(a.message, b.message);
    lemma_seq_lt_total(a.remediation, b.remediation);
    lemma_seq_lt_total(a.path, b.path);
}

pub proof fn lemma_finding_lt_transitive(a: FindingView, b: FindingView, c: FindingView)
    requires
        finding_lt(a, b),
        finding_lt(b, c),
    ensures
        finding_lt(a, c),
{
    let (pa, pb, pc) = (path_parts(a.path), path_parts(b.path), path_parts(c.path));
    if pa != pb && pb != pc {
        lemma_parts_lt_transitive(pa, pb, pc);
        if pa == pc {
            lemma_parts_lt_irreflexive(pa);
            lemma_parts_lt_transitive(pa, pb, pa);
        }
    } else if pa != pb || pb != pc {
    } else {
        lemma_job_lt(a.job, b.job, c.job);
        if a.job == b.job && b.job == c.job {
            if a.category != b.category && b.category != c.category {
                lemma_seq_lt_transitive(a.category, b.category, c.category);
                if a.category == c.category {
                    lemma_seq_lt_irreflexive(a.category);
                }
            } else if a.category == b.category && b.category == c.category {
                if a.message != b.message && b.message != c.message {
                    lemma_seq_lt_transitive(a.message, b.message, c.message);
                    if a.message == c.message {
                        lemma_seq_lt_irreflexive(a.message);
                    }
                } else if a.message == b.message && b.message == c.message {
                    if a.severity == b.severity && b.severity == c.severity {
                        if a.remediation != b.remediation && b.remediation != c.remediation {
                            lemma_seq_lt_transitive(a.remediation, b.remediation, c.remediation);
                            if a.remediation == c.remediation {
                                lemma_seq_lt_irreflexive(a.remediation);
                            }
                        } else if a.remediation == b.remediation && b.remediation
                            == c.remediation {
                            lemma_seq_lt_transitive(a.path, b.path, c.path);
                        }
                    }
                }
            }
        } else if a.job != b.job && b.job != c.job && a.job == c.job {
            lemma_job_lt(a.job, b.job, a.job);
        }
    }
}

/// Every finding sorts strictly before every later one.
pub open spec fn findings_sorted(s: Seq<FindingView>) -> bool {
    forall|i: int, j: int| 0 <= i < j < s.len() ==> finding_lt(#[trigger] s[i], #[trigger] s[j])
}

/// Two sequences of findings, each sorted strictly in reporting order, with
/// the same elements are the same.
pub proof fn lemma_findings_sorted_unique(a: Seq<FindingView>, b: Seq<FindingView>)
    requires
        findings_sorted(a),
        findings_sorted(b),
        a.to_set() == b.to_set(),
    ensures
        a == b,
    decreases a.len(),
{
    if a.len() == 0 {
        if b.len() > 0 {
            assert(b.to_set().contains(b[0]));
        }
        assert(a =~= b);
    } else if b.len() == 0 {
        assert(a.to_set().contains(a[0]));
    } else {
        assert(a.to_set().contains(a[0]));
        assert(b.to_set().contains(b[0]));
        if a[0] != b[0] {
            let j = choose|j: int| 0 <= j < b.len() && b[j] == a[0];
            let k = choose|k: int| 0 <= k < a.len() && a[k] == b[0];
            assert(finding_lt(b[0], b[j]));
            assert(finding_lt(a[0], a[k]));
            lemma_finding_lt_transitive(a[0], b[0], a[0]);
            lemma_finding_lt_irreflexive(a[0]);
        }
        let a1 = a.drop_first();
        let b1 = b.drop_first();
        assert forall|x: FindingView| a1.to_set().contains(x) implies b1.to_set().contains(x) by {
            let i = choose|i: int| 0 <= i < a1.len() && a1[i] == x;
            assert(a[i + 1] == x);
            assert(finding_lt(a[0], a[i + 1]));
            lemma_finding_lt_irreflexive(x);
            assert(b.to_set().contains(x));
            let j = choose|j: int| 0 <= j < b.len() && b[j] == x;
            assert(j != 0);
            assert(b1[j - 1] == x);
        }
        assert forall|x: FindingView| b1.to_set().contains(x) implies a1.to_set().contains(x) by {
            let i = choose|i: int| 0 <= i < b1.len() && b1[i] == x;
            assert(b[i + 1] == x);
            assert(finding_lt(b[0], b[i + 1]));
            lemma_finding_lt_irreflexive(x);
            assert(a.to_set().contains(x));
            let j = choose|j: int| 0 <= j < a.len() && a[j] == x;
            assert(j != 0);
            assert(a1[j - 1] == x);
        }
        assert(a1.to_set() =~= b1.to_set());
        lemma_findings_sorted_unique(a1, b1);
        assert(a =~= b) by {
            assert forall|i: int| 0 <= i < a.len() implies a[i] == b[i] by {
                if i > 0 {
                    assert(a[i] == a1[i - 1]);
                    assert(b[i] == b1[i - 1]);
                }
            }
        }
    }
}

/// The contents of findings, in order.
pub open spec fn finding_views(v: Seq<Finding>) -> Seq<FindingView> {
    v.map_values(|f: Finding| f@)
}

/// The findings of a list, as a set.
pub open spec fn finding_set(v: Seq<Finding>) -> Set<FindingView> {
    finding_views(v).to_set()
}

fn option_str_lt(a: &Option<String>, b: &Option<String>) -> (r: bool)
    ensures
        r == job_lt(crate::model::option_string_view(*a), crate::model::option_string_view(*b)),
{
    match (a, b) {
        (None, Some(_)) => true,
        (Some(x), Some(y)) => str_lt(x.as_str(), y.as_str()),
        _ => false,
    }
}

fn option_str_eq(a: &Option<String>, b: &Option<String>) -> (r: bool)
    ensures
        r == (crate::model::option_string_view(*a) == crate::model::option_string_view(*b)),
{
    match (a, b) {
        (None, None) => true,
        (Some(x), Some(y)) => str_eq(x.as_str(), y.as_str()),
        _ => false,
    }
}

fn severity_rank_exec(s: Severity) -> (r: u8)
    ensures
        r == severity_rank(s),
{
    match s {
        Severity::High => 0,
        Severity::Warning => 1,
    }
}

/// Whether `a` is reported strictly before `b`.
pub fn finding_lt_exec(a: &Finding, b: &Finding) -> (r: bool)
    ensures
        r == finding_lt(a@, b@),
{
    let pa = path_components(a.path.as_str());
    let pb = path_components(b.path.as_str());
    let a_first = parts_lt_exec(&pa, &pb);
    let b_first = parts_lt_exec(&pb, &pa);
    proof {
        lemma_parts_lt_total(path_parts(a@.path), path_parts(b@.path));
        lemma_parts_lt_irreflexive(path_parts(a@.path));
    }
    if a_first || b_first {
        proof {
            if a_first && b_first {
                lemma_parts_lt_transitive(path_parts(a@.path), path_parts(b@.path), path_parts(a@.path));
            }
        }
        return a_first;
    }
    if !option_str_eq(&a.job, &b.job) {
        return option_str_lt(&a.job, &b.job);
    }
    if !str_eq(a.category.as_str(), b.category.as_str()) {
        return str_lt(a.category.as_str(), b.category.as_str());
    }
    if !str_eq(a.message.as_str(), b.message.as_str()) {
        return str_lt(a.message.as_str(), b.message.as_str());
    }
    let ra = severity_rank_exec(a.severity);
    let rb = severity_rank_exec(b.severity);
    if ra != rb {
        return ra < rb;
    }
    if !str_eq(a.remediation.as_str(), b.remediation.as_str()) {
        return str_lt(a.remediation.as_str(), b.remediation.as_str());
    }
    str_lt(a.path.as_str(), b.path.as_str())
}

/// Inserts a finding into a sorted list at its place; a finding already
/// listed is not listed twice.
fn insert_sorted(findings: &mut Vec<Finding>, finding: Finding)
    requires
        findings_sorted(finding_views(old(findings)@)),
    ensures
        findings_sorted(finding_views(final(findings)@)),
        finding_set(final(findings)@) == finding_set(old(findings)@).insert(finding@),
{
    let ghost before = findings@;
    let ghost x = finding@;
    let mut i: usize = 0;
    let mut searching = true;
    while searching
        invariant
            findings@ == before,
            x == finding@,
            i <= before.len(),
            findings_sorted(finding_views(before)),
            forall|k: int| 0 <= k < i ==> finding_lt(#[trigger] before[k]@, x),
            !searching ==> i == before.len() || !finding_lt(before[i as int]@, x),
        decreases before.len() - i + (if searching { 1int } else { 0int }),
    {
        if i < findings.len() {
            let lt = finding_lt_exec(&findings[i], &finding);
            assert(findings@[i as int] == before[i as int]);
            assert(lt == finding_lt(before[i as int]@, x));
            if lt {
                i = i + 1;
            } else {
                searching = false;
            }
        } else {
            searching = false;
        }
    }
    let p = i;
    if p < findings.len() {
        proof {
            lemma_finding_lt_total(before[p as int]@, x);
            assert(finding_views(before)[p as int] == before[p as int]@);
        }
        if !finding_lt_exec(&finding, &findings[p]) {
            proof {
                assert(finding_views(before)[p as int] == x);
                assert(finding_views(before).to_set().insert(x) =~= finding_views(
                    before,
                ).to_set());
            }
            return ;
        }
        proof {
            assert forall|j: int| p <= j < before.len() implies finding_lt(
                x,
                #[trigger] before[j]@,
            ) by {
                if j > p {
                    assert(finding_views(before)[j] == before[j]@);
                    lemma_finding_lt_transitive(x, before[p as int]@, before[j]@);
                }
            }
        }
    }
    findings.insert(p, finding);
    proof {
        let v = finding_views(findings@);
        let o = finding_views(before);
        assert(v =~= o.take(p as int).push(x) + o.skip(p as int));
        assert forall|a: int, b: int| 0 <= a < b < v.len() implies finding_lt(
            #[trigger] v[a],
            #[trigger] v[b],
        ) by {
            if b < p {
            } else if b == p {
                assert(v[a] == before[a]@);
            } else if a == p {
                assert(v[b] == before[b - 1]@);
            } else if a < p {
                assert(v[a] == before[a]@);
                assert(v[b] == before[b - 1]@);
                lemma_finding_lt_transitive(v[a], x, v[b]);
            } else {
                assert(v[a] == o[a - 1]);
                assert(v[b] == o[b - 1]);
            }
        }
        assert(v.to_set() =~= o.to_set().insert(x)) by {
            assert forall|y: FindingView| v.contains(y) implies o.contains(y) || y == x by {
                let k = choose|k: int| 0 <= k < v.len() && v[k] == y;
                if k < p {
                    assert(o[k] == y);
                } else if k > p {
                    assert(o[k - 1] == y);
                }
            }
            assert forall|y: FindingView| o.contains(y) implies v.contains(y) by {
                let k = choose|k: int| 0 <= k < o.len() && o[k] == y;
                if k < p {
                    assert(v[k] == y);
                } else {
                    assert(v[k + 1] == y);
                }
            }
            assert(v[p as int] == x);
        }
    }
}

// ---------------------------------------------------------------------
// Action references
// ---------------------------------------------------------------------

/// Every character is an ASCII hexadecimal digit.
pub open spec fn all_hex(s: Seq<char>) -> bool {
    forall|i: int| 0 <= i < s.len() ==> is_hex_digit(#[trigger] s[i])
}

/// A full-length commit SHA: forty hexadecimal digits.
pub open spec fn is_full_commit_sha(reference: Seq<char>) -> bool {
    reference.len() == 40 && all_hex(reference)
}

/// A container digest: "sha256:" and sixty-four hexadecimal digits.
pub open spec fn is_sha256_digest(reference: Seq<char>) -> bool {
    starts_with(reference, "sha256:"@) && reference.skip("sha256:"@.len() as int).len() == 64
        && all_hex(reference.skip("sha256:"@.len() as int))
}

/// The position of the last occurrence of `c` in `s`, or -1.
pub open spec fn last_index_of(s: Seq<char>, c: char) -> int
    decreases s.len(),
{
    if s.len() == 0 {
        -1
    } else if s.last() == c {
        s.len() - 1
    } else {
        last_index_of(s.drop_last(), c)
    }
}

/// A reference that can change after review: an action whose ref (the text
/// after the last '@') is neither a full commit SHA nor a sha256 digest, or
/// a `docker://` image without any '@'.
pub open spec fn is_mutable_action_ref(action: Seq<char>) -> bool {
    let at = last_index_of(action, '@');
    if at >= 0 {
        let reference = action.skip(at + 1);
        !is_full_commit_sha(reference) && !is_sha256_digest(reference)
    } else {
        starts_with(action, "docker://"@)
    }
}

/// The control suggested for a mutable container image.
pub open spec fn docker_remediation() -> Seq<char> {
    "Pin the container image to an immutable sha256 digest."@
}

/// The control suggested for a mutable action reference.
pub open spec fn pin_remediation() -> Seq<char> {
    "Pin the action to a full-length commit SHA."@
}

/// The control suggested for a mutable reference.
pub open spec fn mutable_action_remediation(action: Seq<char>) -> Seq<char> {
    if starts_with(action, "docker://"@) {
        docker_remediation()
    } else {
        pin_remediation()
    }
}

proof fn lemma_last_index_of(s: Seq<char>, c: char, k: int)
    requires
        k == -1 || (0 <= k < s.len() && s[k] == c),
        forall|j: int| k < j < s.len() ==> s[j] != c,
    ensures
        last_index_of(s, c) == k,
    decreases s.len(),
{
    if s.len() > 0 && s.last() != c {
        lemma_last_index_of(s.drop_last(), c, k);
    }
}

fn all_hex_exec(s: &[char]) -> (r: bool)
    ensures
        r == all_hex(s@),
{
    let mut i: usize = 0;
    while i < s.len()
        invariant
            i <= s@.len(),
            forall|j: int| 0 <= j < i ==> is_hex_digit(#[trigger] s@[j]),
        decreases s@.len() - i,
    {
        if !is_hex_digit_exec(s[i]) {
            return false;
        }
        i = i + 1;
    }
    true
}

fn is_full_commit_sha_exec(reference: &[char]) -> (r: bool)
    ensures
        r == is_full_commit_sha(reference@),
{
    reference.len() == 40 && all_hex_exec(reference)
}

fn is_sha256_digest_exec(reference: &[char]) -> (r: bool)
    ensures
        r == is_sha256_digest(reference@),
{
    if !starts_with_exec(reference, "sha256:") {
        return false;
    }
    let prefix = chars_of("sha256:");
    let digest = vstd::slice::slice_subrange(reference, prefix.len(), reference.len());
    assert(digest@ =~= reference@.skip("sha256:"@.len() as int));
    digest.len() == 64 && all_hex_exec(digest)
}

/// Whether an action reference is mutable.
pub fn is_mutable_action_ref_exec(action: &str) -> (r: bool)
    ensures
        r == is_mutable_action_ref(action@),
{
    let chars = chars_of(action);
    let mut i: usize = chars.len();
    while i > 0 && chars[i - 1] != '@'
        invariant
            chars@ == action@,
            i <= chars@.len(),
            forall|j: int| i <= j < chars@.len() ==> chars@[j] != '@',
        decreases i,
    {
        i = i - 1;
    }
    if i > 0 {
        proof {
            lemma_last_index_of(chars@, '@', i - 1);
        }
        let reference = vstd::slice::slice_subrange(chars.as_slice(), i, chars.len());
        assert(reference@ =~= chars@.skip(i as int));
        !is_full_commit_sha_exec(reference) && !is_sha256_digest_exec(reference)
    } else {
        proof {
            lemma_last_index_of(chars@, '@', -1);
        }
        starts_with_exec(chars.as_slice(), "docker://")
    }
}

/// The control suggested for a mutable reference.
pub fn mutable_action_remediation_exec(action: &str) -> (r: String)
    ensures
        r@ == mutable_action_remediation(action@),
{
    let chars = chars_of(action);
    if starts_with_exec(chars.as_slice(), "docker://") {
        String::from_str("Pin the container image to an immutable sha256 digest.")
    } else {
        String::from_str("Pin the action to a full-length commit SHA.")
    }
}

// ---------------------------------------------------------------------
// Findings of one job
// ---------------------------------------------------------------------

/// A finding with the given fields.
pub open spec fn finding_view(
    path: Seq<char>,
    job: Option<Seq<char>>,
    severity: Severity,
    category: Seq<char>,
    message: Seq<char>,
    remediation: Seq<char>,
) -> FindingView {
    FindingView { severity, path, job, category, message, remediation }
}

/// The contents of an optional job.
pub open spec fn opt_job_view(job: Option<&JobCapability>) -> Option<JobView> {
    match job {
        Some(j) => Some(j@),
        None => None,
    }
}

/// The base job already holds write-all token permissions.
pub open spec fn grants_write_all(base: Option<JobView>) -> bool {
    base is Some && base->0.permissions_all == Some("write-all"@)
}

/// The finding for a job that gains write-all.
pub open spec fn write_all_finding(path: Seq<char>, id: Seq<char>) -> FindingView {
    finding_view(
        path,
        Some(id),
        Severity::High,
        "token-permission"@,
        "Added write-all token permissions."@,
        "Grant only the specific write scopes required by this narrowly scoped, reviewed job."@,
    )
}

/// The write-all finding of a job, if it gains write-all.
pub open spec fn write_all_findings(
    path: Seq<char>,
    id: Seq<char>,
    base: Option<JobView>,
    head: JobView,
) -> Set<FindingView> {
    if head.permissions_all == Some("write-all"@) && !grants_write_all(base) {
        set![write_all_finding(path, id)]
    } else {
        Set::empty()
    }
}

/// The head job gains write access to `scope` (other than id-token) that
/// the base job did not hold.
pub open spec fn adds_write_scope(base: Option<JobView>, head: JobView, scope: Seq<char>) -> bool {
    &&& head.permissions.contains_key(scope)
    &&& scope != "id-token"@
    &&& head.permissions[scope] == "write"@
    &&& !grants_write_all(base)
    &&& !(base is Some && base->0.permissions.contains_key(scope) && base->0.permissions[scope]
        == "write"@)
}

/// The finding for a job that gains write access to a scope.
pub open spec fn scope_finding(path: Seq<char>, id: Seq<char>, scope: Seq<char>) -> FindingView {
    finding_view(
        path,
        Some(id),
        Severity::High,
        "token-permission"@,
        "Added "@ + scope + ": write token permission."@,
        "Set the scope to read or none and grant write only in a narrowly scoped, reviewed job."@,
    )
}

/// One finding per scope that a job gains write access to.
pub open spec fn scope_findings(
    path: Seq<char>,
    id: Seq<char>,
    base: Option<JobView>,
    head: JobView,
) -> Set<FindingView> {
    Set::new(
        |f: FindingView|
            exists|scope: Seq<char>| #[trigger]
                adds_write_scope(base, head, scope) && f == scope_finding(path, id, scope),
    )
}

/// The head job references `secret`, which the base job did not.
pub open spec fn adds_secret(base: Option<JobView>, head: JobView, secret: Seq<char>) -> bool {
    head.secrets.contains(secret) && !(base is Some && base->0.secrets.contains(secret))
}

/// The finding for a job that gains access to a secret.
pub open spec fn secret_finding(path: Seq<char>, id: Seq<char>, secret: Seq<char>) -> FindingView {
    finding_view(
        path,
        Some(id),
        Severity::High,
        "secret-access"@,
        "Added access to secret "@ + secret + "."@,
        "Avoid exposing the secret to this job; use a narrowly scoped environment or a separate trusted workflow."@,
    )
}

/// One finding per secret that a job gains access to.
pub open spec fn secret_findings(
    path: Seq<char>,
    id: Seq<char>,
    base: Option<JobView>,
    head: JobView,
) -> Set<FindingView> {
    Set::new(
        |f: FindingView|
            exists|secret: Seq<char>| #[trigger]
                adds_secret(base, head, secret) && f == secret_finding(path, id, secret),
    )
}

/// The finding for a job that gains OIDC access.
pub open spec fn oidc_finding(path: Seq<char>, id: Seq<char>) -> FindingView {
    finding_view(
        path,
        Some(id),
        Severity::High,
        "oidc"@,
        "Added id-token: write, allowing this job to request OIDC tokens."@,
        "Remove id-token: write unless federation is required, and constrain the cloud trust policy to this job."@,
    )
}

/// The OIDC finding of a job, if it gains OIDC access.
pub open spec fn oidc_findings(
    path: Seq<char>,
    id: Seq<char>,
    base: Option<JobView>,
    head: JobView,
) -> Set<FindingView> {
    if head.oidc && !(base is Some && base->0.oidc) {
        set![oidc_finding(path, id)]
    } else {
        Set::empty()
    }
}

/// The finding for a job that gains a self-hosted runner.
pub open spec fn self_hosted_finding(path: Seq<char>, id: Seq<char>) -> FindingView {
    finding_view(
        path,
        Some(id),
        Severity::High,
        "self-hosted-runner"@,
        "Added a self-hosted runner."@,
        "Use a GitHub-hosted runner; if self-hosted is required, isolate and ephemerally provision it."@,
    )
}

/// The self-hosted runner finding of a job, if it gains one.
pub open spec fn self_hosted_findings(
    path: Seq<char>,
    id: Seq<char>,
    base: Option<JobView>,
    head: JobView,
) -> Set<FindingView> {
    if head.runners.contains("self-hosted"@) && !(base is Some && base->0.runners.contains(
        "self-hosted"@,
    )) {
        set![self_hosted_finding(path, id)]
    } else {
        Set::empty()
    }
}

/// The head job uses the mutable reference `action`, which the base job did not use.
pub open spec fn adds_mutable_action(base: Option<JobView>, head: JobView, action: Seq<char>) -> bool {
    head.action_refs.contains(action) && is_mutable_action_ref(action) && !(base is Some
        && base->0.action_refs.contains(action))
}

/// The finding for a job that gains a mutable action reference.
pub open spec fn action_finding(path: Seq<char>, id: Seq<char>, action: Seq<char>) -> FindingView {
    finding_view(
        path,
        Some(id),
        Severity::High,
        "mutable-action-reference"@,
        "Added mutable action reference "@ + action + "."@,
        mutable_action_remediation(action),
    )
}

/// One finding per mutable action reference that a job gains.
pub open spec fn action_findings(
    path: Seq<char>,
    id: Seq<char>,
    base: Option<JobView>,
    head: JobView,
) -> Set<FindingView> {
    Set::new(
        |f: FindingView|
            exists|action: Seq<char>| #[trigger]
                adds_mutable_action(base, head, action) && f == action_finding(path, id, action),
    )
}

/// The finding for a job whose scripts gain untrusted context.
pub open spec fn untrusted_finding(path: Seq<char>, id: Seq<char>) -> FindingView {
    finding_view(
        path,
        Some(id),
        Severity::High,
        "untrusted-context"@,
        "Added untrusted GitHub context interpolation in a run script."@,
        "Pass untrusted context through an environment variable and validate it instead of interpolating it directly into run."@,
    )
}

/// The untrusted-context finding of a job, if its scripts gain one.
pub open spec fn untrusted_findings(
    path: Seq<char>,
    id: Seq<char>,
    base: Option<JobView>,
    head: JobView,
) -> Set<FindingView> {
    if head.untrusted_script_context && !(base is Some && base->0.untrusted_script_context) {
        set![untrusted_finding(path, id)]
    } else {
        Set::empty()
    }
}

/// Everything that the head job adds over the base job.
pub open spec fn job_findings(
    path: Seq<char>,
    id: Seq<char>,
    base: Option<JobView>,
    head: JobView,
) -> Set<FindingView> {
    write_all_findings(path, id, base, head).union(scope_findings(path, id, base, head)).union(
        secret_findings(path, id, base, head),
    ).union(oidc_findings(path, id, base, head)).union(
        self_hosted_findings(path, id, base, head),
    ).union(action_findings(path, id, base, head)).union(untrusted_findings(path, id, base, head))
}

/// The rules that give one finding per listed text of a job.
pub enum ListedRule {
    /// A scope that the job gains write access to.
    WriteScope,
    /// A secret that the job gains access to.
    Secret,
    /// A mutable action reference that the job gains.
    MutableAction,
}

/// Whether a rule reports the listed text `s` for the head job.
pub open spec fn rule_adds(rule: ListedRule, base: Option<JobView>, head: JobView, s: Seq<char>) -> bool {
    match rule {
        ListedRule::WriteScope => adds_write_scope(base, head, s),
        ListedRule::Secret => adds_secret(base, head, s),
        ListedRule::MutableAction => adds_mutable_action(base, head, s),
    }
}

/// The finding that a rule reports for the listed text `s`.
pub open spec fn rule_finding(rule: ListedRule, path: Seq<char>, id: Seq<char>, s: Seq<char>) -> FindingView {
    match rule {
        ListedRule::WriteScope => scope_finding(path, id, s),
        ListedRule::Secret => secret_finding(path, id, s),
        ListedRule::MutableAction => action_finding(path, id, s),
    }
}

/// The texts that a rule looks at: the job's permission scopes, its
/// secrets, or its action references.
pub open spec fn rule_domain(rule: ListedRule, head: JobView) -> Set<Seq<char>> {
    match rule {
        ListedRule::WriteScope => head.permissions.dom(),
        ListedRule::Secret => head.secrets,
        ListedRule::MutableAction => head.action_refs.to_set(),
    }
}

/// The set of findings that a rule gives for a job.
pub open spec fn rule_set(
    rule: ListedRule,
    path: Seq<char>,
    id: Seq<char>,
    base: Option<JobView>,
    head: JobView,
) -> Set<FindingView> {
    match rule {
        ListedRule::WriteScope => scope_findings(path, id, base, head),
        ListedRule::Secret => secret_findings(path, id, base, head),
        ListedRule::MutableAction => action_findings(path, id, base, head),
    }
}

/// A finding when `c` holds, and nothing otherwise.
pub open spec fn opt_seq(c: bool, f: FindingView) -> Seq<FindingView> {
    if c {
        seq![f]
    } else {
        Seq::empty()
    }
}

/// One finding per listed text that the rule reports, in list order.
pub open spec fn listed_findings(
    rule: ListedRule,
    path: Seq<char>,
    id: Seq<char>,
    base: Option<JobView>,
    head: JobView,
    keys: Seq<Seq<char>>,
) -> Seq<FindingView>
    decreases keys.len(),
{
    if keys.len() == 0 {
        Seq::empty()
    } else {
        listed_findings(rule, path, id, base, head, keys.drop_last()) + opt_seq(
            rule_adds(rule, base, head, keys.last()),
            rule_finding(rule, path, id, keys.last()),
        )
    }
}

/// The findings of a job in the order they are reported for it: write-all;
/// write scopes in ascending scope order; new secrets in ascending order;
/// OIDC; a self-hosted runner; new mutable action references in ascending
/// order; untrusted context in a script.
#[verifier::opaque]
pub open spec fn job_finding_seq(
    path: Seq<char>,
    id: Seq<char>,
    base: Option<JobView>,
    head: JobView,
) -> Seq<FindingView> {
    opt_seq(
        head.permissions_all == Some("write-all"@) && !grants_write_all(base),
        write_all_finding(path, id),
    ) + listed_findings(ListedRule::WriteScope, path, id, base, head, sorted_of(head.permissions.dom()))
        + listed_findings(ListedRule::Secret, path, id, base, head, sorted_of(head.secrets))
        + opt_seq(head.oidc && !(base is Some && base->0.oidc), oidc_finding(path, id)) + opt_seq(
        head.runners.contains("self-hosted"@) && !(base is Some && base->0.runners.contains(
            "self-hosted"@,
        )),
        self_hosted_finding(path, id),
    ) + listed_findings(
        ListedRule::MutableAction,
        path,
        id,
        base,
        head,
        sorted_of(head.action_refs.to_set()),
    ) + opt_seq(
        head.untrusted_script_context && !(base is Some && base->0.untrusted_script_context),
        untrusted_finding(path, id),
    )
}

/// The elements of two sequences joined are those of both.
pub proof fn lemma_concat_to_set<A>(a: Seq<A>, b: Seq<A>)
    ensures
        (a + b).to_set() == a.to_set().union(b.to_set()),
{
    assert forall|x: A| (a + b).to_set().contains(x) <==> a.to_set().union(b.to_set()).contains(x) by {
        if (a + b).contains(x) {
            let i = choose|i: int| 0 <= i < (a + b).len() && (a + b)[i] == x;
            if i < a.len() {
                assert(a[i] == x);
            } else {
                assert(b[i - a.len()] == x);
            }
        }
        if a.contains(x) {
            let i = choose|i: int| 0 <= i < a.len() && a[i] == x;
            assert((a + b)[i] == x);
        }
        if b.contains(x) {
            let i = choose|i: int| 0 <= i < b.len() && b[i] == x;
            assert((a + b)[a.len() + i] == x);
        }
    }
    assert((a + b).to_set() =~= a.to_set().union(b.to_set()));
}

proof fn lemma_opt_seq_to_set(c: bool, f: FindingView)
    ensures
        opt_seq(c, f).to_set() == (if c { set![f] } else { Set::<FindingView>::empty() }),
{
    if c {
        assert forall|x: FindingView| opt_seq(c, f).to_set().contains(x) <==> x == f by {
            if x == f {
                assert(opt_seq(c, f)[0] == f);
            }
        }
        assert(opt_seq(c, f).to_set() =~= set![f]);
    } else {
        assert(opt_seq(c, f).to_set() =~= Set::<FindingView>::empty());
    }
}

proof fn lemma_listed_findings_contains(
    rule: ListedRule,
    path: Seq<char>,
    id: Seq<char>,
    base: Option<JobView>,
    head: JobView,
    keys: Seq<Seq<char>>,
    f: FindingView,
)
    ensures
        listed_findings(rule, path, id, base, head, keys).contains(f) <==> exists|j: int|
            0 <= j < keys.len() && #[trigger] rule_adds(rule, base, head, keys[j]) && f
                == rule_finding(rule, path, id, keys[j]),
    decreases keys.len(),
{
    if keys.len() > 0 {
        let init = keys.drop_last();
        let a = listed_findings(rule, path, id, base, head, init);
        let b = opt_seq(rule_adds(rule, base, head, keys.last()), rule_finding(rule, path, id, keys.last()));
        lemma_listed_findings_contains(rule, path, id, base, head, init, f);
        lemma_concat_to_set(a, b);
        lemma_opt_seq_to_set(rule_adds(rule, base, head, keys.last()), rule_finding(rule, path, id, keys.last()));
        assert(a.to_set().contains(f) == a.contains(f));
        assert(b.to_set().contains(f) == b.contains(f));
        assert((a + b).to_set().contains(f) == (a + b).contains(f));
        if exists|j: int|
            0 <= j < keys.len() && #[trigger] rule_adds(rule, base, head, keys[j]) && f
                == rule_finding(rule, path, id, keys[j]) {
            let j = choose|j: int|
                0 <= j < keys.len() && #[trigger] rule_adds(rule, base, head, keys[j]) && f
                    == rule_finding(rule, path, id, keys[j]);
            if j < keys.len() - 1 {
                assert(init[j] == keys[j]);
            }
        }
        if a.contains(f) {
            let j = choose|j: int|
                0 <= j < init.len() && #[trigger] rule_adds(rule, base, head, init[j]) && f
                    == rule_finding(rule, path, id, init[j]);
            assert(keys[j] == init[j]);
        }
    }
}

/// Listing the texts of a rule's domain in any order gives the rule's
/// findings as a set.
proof fn lemma_listed_findings_set(
    rule: ListedRule,
    path: Seq<char>,
    id: Seq<char>,
    base: Option<JobView>,
    head: JobView,
    keys: Seq<Seq<char>>,
)
    requires
        keys.to_set() == rule_domain(rule, head),
    ensures
        listed_findings(rule, path, id, base, head, keys).to_set() == rule_set(rule, path, id, base, head),
{
    let l = listed_findings(rule, path, id, base, head, keys);
    assert forall|f: FindingView| l.to_set().contains(f) <==> rule_set(rule, path, id, base, head).contains(f) by {
        lemma_listed_findings_contains(rule, path, id, base, head, keys, f);
        if l.contains(f) {
            let j = choose|j: int|
                0 <= j < keys.len() && #[trigger] rule_adds(rule, base, head, keys[j]) && f
                    == rule_finding(rule, path, id, keys[j]);
            let s = keys[j];
            match rule {
                ListedRule::WriteScope => {
                    assert(adds_write_scope(base, head, s) && f == scope_finding(path, id, s));
                },
                ListedRule::Secret => {
                    assert(adds_secret(base, head, s) && f == secret_finding(path, id, s));
                },
                ListedRule::MutableAction => {
                    assert(adds_mutable_action(base, head, s) && f == action_finding(path, id, s));
                },
            }
        }
        if rule_set(rule, path, id, base, head).contains(f) {
            let s = match rule {
                ListedRule::WriteScope => choose|s: Seq<char>| #[trigger]
                    adds_write_scope(base, head, s) && f == scope_finding(path, id, s),
                ListedRule::Secret => choose|s: Seq<char>| #[trigger]
                    adds_secret(base, head, s) && f == secret_finding(path, id, s),
                ListedRule::MutableAction => choose|s: Seq<char>| #[trigger]
                    adds_mutable_action(base, head, s) && f == action_finding(path, id, s),
            };
            assert(rule_adds(rule, base, head, s) && f == rule_finding(rule, path, id, s));
            assert(rule_domain(rule, head).contains(s));
            assert(keys.to_set().contains(s));
            let j = choose|j: int| 0 <= j < keys.len() && keys[j] == s;
            assert(rule_adds(rule, base, head, keys[j]));
        }
    }
    assert(l.to_set() =~= rule_set(rule, path, id, base, head));
}

/// The parts of a job's findings in reported order, rule by rule.
proof fn lemma_job_finding_seq_parts(path: Seq<char>, id: Seq<char>, bv: Option<JobView>, hv: JobView)
    ensures
        job_finding_seq(path, id, bv, hv) == opt_seq(
            hv.permissions_all == Some("write-all"@) && !grants_write_all(bv),
            write_all_finding(path, id),
        ) + listed_findings(ListedRule::WriteScope, path, id, bv, hv, sorted_of(hv.permissions.dom()))
            + listed_findings(ListedRule::Secret, path, id, bv, hv, sorted_of(hv.secrets)) + opt_seq(
            hv.oidc && !(bv is Some && bv->0.oidc),
            oidc_finding(path, id),
        ) + opt_seq(
            hv.runners.contains("self-hosted"@) && !(bv is Some && bv->0.runners.contains(
                "self-hosted"@,
            )),
            self_hosted_finding(path, id),
        ) + listed_findings(
            ListedRule::MutableAction,
            path,
            id,
            bv,
            hv,
            sorted_of(hv.action_refs.to_set()),
        ) + opt_seq(
            hv.untrusted_script_context && !(bv is Some && bv->0.untrusted_script_context),
            untrusted_finding(path, id),
        ),
{
    reveal(job_finding_seq);
}

/// A job's findings in reported order are, as a set, the job's findings.
proof fn lemma_job_finding_seq_set(path: Seq<char>, id: Seq<char>, bv: Option<JobView>, hv: JobView)
    requires
        sorted_of(hv.permissions.dom()).to_set() == hv.permissions.dom(),
        sorted_of(hv.secrets).to_set() == hv.secrets,
        sorted_of(hv.action_refs.to_set()).to_set() == hv.action_refs.to_set(),
    ensures
        job_finding_seq(path, id, bv, hv).to_set() == job_findings(path, id, bv, hv),
{
    let a = opt_seq(hv.permissions_all == Some("write-all"@) && !grants_write_all(bv), write_all_finding(path, id));
    let b = listed_findings(ListedRule::WriteScope, path, id, bv, hv, sorted_of(hv.permissions.dom()));
    let c = listed_findings(ListedRule::Secret, path, id, bv, hv, sorted_of(hv.secrets));
    let d = opt_seq(hv.oidc && !(bv is Some && bv->0.oidc), oidc_finding(path, id));
    let e = opt_seq(
        hv.runners.contains("self-hosted"@) && !(bv is Some && bv->0.runners.contains("self-hosted"@)),
        self_hosted_finding(path, id),
    );
    let g = listed_findings(ListedRule::MutableAction, path, id, bv, hv, sorted_of(hv.action_refs.to_set()));
    let h = opt_seq(
        hv.untrusted_script_context && !(bv is Some && bv->0.untrusted_script_context),
        untrusted_finding(path, id),
    );
    lemma_job_finding_seq_parts(path, id, bv, hv);
    assert(job_finding_seq(path, id, bv, hv) == a + b + c + d + e + g + h);
    lemma_concat_to_set(a, b);
    lemma_concat_to_set(a + b, c);
    lemma_concat_to_set(a + b + c, d);
    lemma_concat_to_set(a + b + c + d, e);
    lemma_concat_to_set(a + b + c + d + e, g);
    lemma_concat_to_set(a + b + c + d + e + g, h);
    lemma_opt_seq_to_set(hv.permissions_all == Some("write-all"@) && !grants_write_all(bv), write_all_finding(path, id));
    lemma_opt_seq_to_set(hv.oidc && !(bv is Some && bv->0.oidc), oidc_finding(path, id));
    lemma_opt_seq_to_set(
        hv.runners.contains("self-hosted"@) && !(bv is Some && bv->0.runners.contains("self-hosted"@)),
        self_hosted_finding(path, id),
    );
    lemma_opt_seq_to_set(
        hv.untrusted_script_context && !(bv is Some && bv->0.untrusted_script_context),
        untrusted_finding(path, id),
    );
    lemma_listed_findings_set(ListedRule::WriteScope, path, id, bv, hv, sorted_of(hv.permissions.dom()));
    lemma_listed_findings_set(ListedRule::Secret, path, id, bv, hv, sorted_of(hv.secrets));
    lemma_listed_findings_set(ListedRule::MutableAction, path, id, bv, hv, sorted_of(hv.action_refs.to_set()));
    assert(job_finding_seq(path, id, bv, hv).to_set() =~= job_findings(path, id, bv, hv));
}

fn is_write_all(access: &Option<String>) -> (r: bool)
    ensures
        r == (option_string_view(*access) == Some("write-all"@)),
{
    match access {
        Some(a) => str_eq(a.as_str(), "write-all"),
        None => false,
    }
}

fn base_grants_write_all(base: Option<&JobCapability>) -> (r: bool)
    ensures
        r == grants_write_all(opt_job_view(base)),
{
    match base {
        Some(job) => is_write_all(&job.permissions_all),
        None => false,
    }
}

/// Appends a finding when `condition` holds.
fn push_if(findings: &mut Vec<Finding>, condition: bool, finding: Finding)
    ensures
        finding_views(final(findings)@) == finding_views(old(findings)@) + opt_seq(condition, finding@),
{
    if condition {
        findings.push(finding);
        assert(finding_views(findings@) =~= finding_views(old(findings)@) + seq![finding@]);
    } else {
        assert(finding_views(findings@) =~= finding_views(old(findings)@) + Seq::<FindingView>::empty());
    }
}

fn job_finding(
    path: &str,
    job_id: &str,
    category: &str,
    message: String,
    remediation: String,
) -> (f: Finding)
    ensures
        f@ == finding_view(path@, Some(job_id@), Severity::High, category@, message@, remediation@),
{
    Finding {
        severity: Severity::High,
        path: String::from_str(path),
        job: Some(String::from_str(job_id)),
        category: String::from_str(category),
        message,
        remediation,
    }
}

/// Appends one finding per scope, in ascending scope order, to which the
/// head job gains write access.
fn add_scope_findings(
    path: &str,
    job_id: &str,
    base: Option<&JobCapability>,
    head: &JobCapability,
    findings: &mut Vec<Finding>,
)
    ensures
        finding_views(final(findings)@) == finding_views(old(findings)@) + listed_findings(
            ListedRule::WriteScope,
            path@,
            job_id@,
            opt_job_view(base),
            head@,
            sorted_of(head@.permissions.dom()),
        ),
        sorted_of(head@.permissions.dom()).to_set() == head@.permissions.dom(),
{
    let ghost start = finding_views(findings@);
    let ghost bv = opt_job_view(base);
    let ghost hv = head@;
    let write_all = base_grants_write_all(base);
    let entries = head.permissions.as_slice();
    let ghost keys = key_views(entries@);
    let mut i: usize = 0;
    while i < entries.len()
        invariant
            bv == opt_job_view(base),
            hv == head@,
            keys == key_views(entries@),
            write_all == grants_write_all(bv),
            i <= entries@.len(),
            forall|j: int|
                0 <= j < entries@.len() ==> hv.permissions.contains_key(#[trigger] entries@[j].0@)
                    && hv.permissions[entries@[j].0@] == entries@[j].1@,
            finding_views(findings@) == start + listed_findings(
                ListedRule::WriteScope,
                path@,
                job_id@,
                bv,
                hv,
                keys.take(i as int),
            ),
        decreases entries@.len() - i,
    {
        let scope = &entries[i].0;
        let access = &entries[i].1;
        let mut base_has_write = false;
        match base {
            Some(b) => {
                match b.permissions.get(scope.as_str()) {
                    Some(a) => {
                        base_has_write = str_eq(a.as_str(), "write");
                    },
                    None => {},
                }
            },
            None => {},
        }
        let added = !str_eq(scope.as_str(), "id-token") && str_eq(access.as_str(), "write")
            && !write_all && !base_has_write;
        assert(keys[i as int] == scope@);
        assert(added == adds_write_scope(bv, hv, keys[i as int]));
        let message = concat3("Added ", scope.as_str(), ": write token permission.");
        let remediation = String::from_str(
            "Set the scope to read or none and grant write only in a narrowly scoped, reviewed job.",
        );
        let f = job_finding(path, job_id, "token-permission", message, remediation);
        assert(f@ == scope_finding(path@, job_id@, keys[i as int]));
        let ghost before = finding_views(findings@);
        push_if(findings, added, f);
        proof {
            let t = keys.take(i + 1);
            assert(t.drop_last() =~= keys.take(i as int));
            assert(t.last() == keys[i as int]);
            assert(finding_views(findings@) =~= start + listed_findings(
                ListedRule::WriteScope,
                path@,
                job_id@,
                bv,
                hv,
                t,
            ));
        }
        i = i + 1;
    }
    proof {
        assert(keys.take(i as int) =~= keys);
        assert(hv.permissions.dom() =~= keys.to_set()) by {
            assert forall|k: Seq<char>| keys.to_set().contains(k) implies hv.permissions.contains_key(k) by {
                let j = choose|j: int| 0 <= j < keys.len() && keys[j] == k;
                assert(keys[j] == entries@[j].0@);
            }
        }
        crate::collections::lemma_sorted_of(keys);
    }
}

/// Appends one finding per secret, in ascending order, that the head job
/// gains access to.
fn add_secret_findings(
    path: &str,
    job_id: &str,
    base: Option<&JobCapability>,
    head: &JobCapability,
    findings: &mut Vec<Finding>,
)
    ensures
        finding_views(final(findings)@) == finding_views(old(findings)@) + listed_findings(
            ListedRule::Secret,
            path@,
            job_id@,
            opt_job_view(base),
            head@,
            sorted_of(head@.secrets),
        ),
        sorted_of(head@.secrets).to_set() == head@.secrets,
{
    let ghost start = finding_views(findings@);
    let ghost bv = opt_job_view(base);
    let ghost hv = head@;
    let secrets = head.secrets.as_slice();
    let ghost keys = string_views(secrets@);
    let mut i: usize = 0;
    while i < secrets.len()
        invariant
            bv == opt_job_view(base),
            hv == head@,
            keys == string_views(secrets@),
            i <= secrets@.len(),
            keys.to_set() == hv.secrets,
            finding_views(findings@) == start + listed_findings(
                ListedRule::Secret,
                path@,
                job_id@,
                bv,
                hv,
                keys.take(i as int),
            ),
        decreases secrets@.len() - i,
    {
        let secret = &secrets[i];
        assert(keys[i as int] == secret@);
        assert(keys.to_set().contains(secret@));
        let in_base = match base {
            Some(b) => b.secrets.contains(secret.as_str()),
            None => false,
        };
        let added = !in_base;
        assert(added == adds_secret(bv, hv, keys[i as int]));
        let message = concat3("Added access to secret ", secret.as_str(), ".");
        let remediation = String::from_str(
            "Avoid exposing the secret to this job; use a narrowly scoped environment or a separate trusted workflow.",
        );
        let f = job_finding(path, job_id, "secret-access", message, remediation);
        assert(f@ == secret_finding(path@, job_id@, keys[i as int]));
        push_if(findings, added, f);
        proof {
            let t = keys.take(i + 1);
            assert(t.drop_last() =~= keys.take(i as int));
            assert(t.last() == keys[i as int]);
            assert(finding_views(findings@) =~= start + listed_findings(
                ListedRule::Secret,
                path@,
                job_id@,
                bv,
                hv,
                t,
            ));
        }
        i = i + 1;
    }
    proof {
        assert(keys.take(i as int) =~= keys);
        crate::collections::lemma_sorted_of(keys);
    }
}

/// The distinct texts of a list, in ascending order.
fn distinct_sorted(list: &Vec<String>) -> (r: StringSet)
    ensures
        r@ == string_views(list@).to_set(),
{
    let mut set = StringSet::new();
    let mut i: usize = 0;
    assert(string_views(list@).take(0).to_set() =~= Set::<Seq<char>>::empty());
    while i < list.len()
        invariant
            i <= list@.len(),
            set@ == string_views(list@).take(i as int).to_set(),
        decreases list@.len() - i,
    {
        let x = list[i].clone();
        set.insert(x);
        proof {
            let v = string_views(list@);
            let t = v.take(i + 1);
            assert(t =~= v.take(i as int).push(v[i as int]));
            assert forall|y: Seq<char>| t.to_set().contains(y) <==> v.take(i as int).to_set().insert(
                v[i as int],
            ).contains(y) by {
                if t.contains(y) {
                    let k = choose|k: int| 0 <= k < t.len() && t[k] == y;
                    if k < i {
                        assert(v.take(i as int)[k] == y);
                    }
                }
                if v.take(i as int).contains(y) {
                    let k = choose|k: int| 0 <= k < i && v.take(i as int)[k] == y;
                    assert(t[k] == y);
                }
                if y == v[i as int] {
                    assert(t[i as int] == y);
                }
            }
            assert(t.to_set() =~= v.take(i as int).to_set().insert(v[i as int]));
        }
        i = i + 1;
    }
    assert(string_views(list@).take(i as int) =~= string_views(list@));
    set
}

/// Appends one finding per distinct mutable action reference, in ascending
/// order, that the head job gains.
fn add_action_findings(
    path: &str,
    job_id: &str,
    base: Option<&JobCapability>,
    head: &JobCapability,
    findings: &mut Vec<Finding>,
)
    ensures
        finding_views(final(findings)@) == finding_views(old(findings)@) + listed_findings(
            ListedRule::MutableAction,
            path@,
            job_id@,
            opt_job_view(base),
            head@,
            sorted_of(head@.action_refs.to_set()),
        ),
        sorted_of(head@.action_refs.to_set()).to_set() == head@.action_refs.to_set(),
{
    let ghost start = finding_views(findings@);
    let ghost bv = opt_job_view(base);
    let ghost hv = head@;
    let distinct = distinct_sorted(&head.action_refs);
    let actions = distinct.as_slice();
    let ghost keys = string_views(actions@);
    let mut i: usize = 0;
    while i < actions.len()
        invariant
            bv == opt_job_view(base),
            hv == head@,
            keys == string_views(actions@),
            keys.to_set() == hv.action_refs.to_set(),
            i <= actions@.len(),
            finding_views(findings@) == start + listed_findings(
                ListedRule::MutableAction,
                path@,
                job_id@,
                bv,
                hv,
                keys.take(i as int),
            ),
        decreases actions@.len() - i,
    {
        let action = &actions[i];
        assert(keys[i as int] == action@);
        assert(keys.to_set().contains(action@));
        let in_base = match base {
            Some(b) => contains_string(&b.action_refs, action.as_str()),
            None => false,
        };
        let added = is_mutable_action_ref_exec(action.as_str()) && !in_base;
        assert(added == adds_mutable_action(bv, hv, keys[i as int]));
        let message = concat3("Added mutable action reference ", action.as_str(), ".");
        let remediation = mutable_action_remediation_exec(action.as_str());
        let f = job_finding(path, job_id, "mutable-action-reference", message, remediation);
        assert(f@ == action_finding(path@, job_id@, keys[i as int]));
        push_if(findings, added, f);
        proof {
            let t = keys.take(i + 1);
            assert(t.drop_last() =~= keys.take(i as int));
            assert(t.last() == keys[i as int]);
            assert(finding_views(findings@) =~= start + listed_findings(
                ListedRule::MutableAction,
                path@,
                job_id@,
                bv,
                hv,
                t,
            ));
        }
        i = i + 1;
    }
    proof {
        assert(keys.take(i as int) =~= keys);
        crate::collections::lemma_sorted_of(keys);
    }
}

/// Whether a list of strings holds `value`.
pub fn contains_string(list: &Vec<String>, value: &str) -> (r: bool)
    ensures
        r == string_views(list@).contains(value@),
{
    let mut i: usize = 0;
    while i < list.len()
        invariant
            i <= list@.len(),
            forall|j: int| 0 <= j < i ==> list@[j]@ != value@,
        decreases list@.len() - i,
    {
        if str_eq(list[i].as_str(), value) {
            assert(string_views(list@)[i as int] == value@);
            return true;
        }
        i = i + 1;
    }
    proof {
        if string_views(list@).contains(value@) {
            let j = choose|j: int| 0 <= j < list@.len() && string_views(list@)[j] == value@;
            assert(list@[j]@ == value@);
        }
    }
    false
}

/// Appends what the head job adds over the base job, in the order of
/// `job_finding_seq`.
#[verifier::rlimit(40)]
fn diff_job(
    path: &str,
    job_id: &str,
    base: Option<&JobCapability>,
    head: &JobCapability,
    findings: &mut Vec<Finding>,
)
    ensures
        finding_views(final(findings)@) == finding_views(old(findings)@) + job_finding_seq(
            path@,
            job_id@,
            opt_job_view(base),
            head@,
        ),
        job_finding_seq(path@, job_id@, opt_job_view(base), head@).to_set() == job_findings(
            path@,
            job_id@,
            opt_job_view(base),
            head@,
        ),
{
    let ghost start = finding_views(findings@);
    let ghost bv = opt_job_view(base);
    let ghost hv = head@;
    let write_all = base_grants_write_all(base);

    let added = is_write_all(&head.permissions_all) && !write_all;
    let f = job_finding(
        path,
        job_id,
        "token-permission",
        String::from_str("Added write-all token permissions."),
        String::from_str(
            "Grant only the specific write scopes required by this narrowly scoped, reviewed job.",
        ),
    );
    push_if(findings, added, f);
    let ghost s1 = finding_views(findings@);
    add_scope_findings(path, job_id, base, head, findings);
    let ghost s2 = finding_views(findings@);
    add_secret_findings(path, job_id, base, head, findings);
    let ghost s3 = finding_views(findings@);

    let base_oidc = match base {
        Some(b) => b.oidc,
        None => false,
    };
    let f = job_finding(
        path,
        job_id,
        "oidc",
        String::from_str("Added id-token: write, allowing this job to request OIDC tokens."),
        String::from_str(
            "Remove id-token: write unless federation is required, and constrain the cloud trust policy to this job.",
        ),
    );
    push_if(findings, head.oidc && !base_oidc, f);
    let ghost s4 = finding_views(findings@);

    let base_self_hosted = match base {
        Some(b) => b.runners.contains("self-hosted"),
        None => false,
    };
    let f = job_finding(
        path,
        job_id,
        "self-hosted-runner",
        String::from_str("Added a self-hosted runner."),
        String::from_str(
            "Use a GitHub-hosted runner; if self-hosted is required, isolate and ephemerally provision it.",
        ),
    );
    push_if(findings, head.runners.contains("self-hosted") && !base_self_hosted, f);
    let ghost s5 = finding_views(findings@);
    add_action_findings(path, job_id, base, head, findings);
    let ghost s6 = finding_views(findings@);

    let base_untrusted = match base {
        Some(b) => b.untrusted_script_context,
        None => false,
    };
    let f = job_finding(
        path,
        job_id,
        "untrusted-context",
        String::from_str("Added untrusted GitHub context interpolation in a run script."),
        String::from_str(
            "Pass untrusted context through an environment variable and validate it instead of interpolating it directly into run.",
        ),
    );
    push_if(findings, head.untrusted_script_context && !base_untrusted, f);
    proof {
        let a = opt_seq(hv.permissions_all == Some("write-all"@) && !grants_write_all(bv), write_all_finding(path@, job_id@));
        let b = listed_findings(ListedRule::WriteScope, path@, job_id@, bv, hv, sorted_of(hv.permissions.dom()));
        let c = listed_findings(ListedRule::Secret, path@, job_id@, bv, hv, sorted_of(hv.secrets));
        let d = opt_seq(hv.oidc && !(bv is Some && bv->0.oidc), oidc_finding(path@, job_id@));
        let e = opt_seq(
            hv.runners.contains("self-hosted"@) && !(bv is Some && bv->0.runners.contains("self-hosted"@)),
            self_hosted_finding(path@, job_id@),
        );
        let g = listed_findings(ListedRule::MutableAction, path@, job_id@, bv, hv, sorted_of(hv.action_refs.to_set()));
        let h = opt_seq(
            hv.untrusted_script_context && !(bv is Some && bv->0.untrusted_script_context),
            untrusted_finding(path@, job_id@),
        );
        assert(s1 == start + a);
        assert(s2 == s1 + b);
        assert(s3 == s2 + c);
        assert(s4 == s3 + d);
        assert(s5 == s4 + e);
        assert(s6 == s5 + g);
        assert(finding_views(findings@) == s6 + h);
        assert(finding_views(findings@) =~= start + (a + b + c + d + e + g + h));
        lemma_job_finding_seq_parts(path@, job_id@, bv, hv);
        lemma_job_finding_seq_set(path@, job_id@, bv, hv);
    }
}

// ---------------------------------------------------------------------
// Findings of workflows
// ---------------------------------------------------------------------

/// The finding for a workflow that gains `pull_request_target`.
pub open spec fn trigger_finding(path: Seq<char>) -> FindingView {
    finding_view(
        path,
        None,
        Severity::High,
        "trigger-trust"@,
        "Added pull_request_target, which can run for pull requests from forks."@,
        "Prefer pull_request; if pull_request_target is required, restrict permissions, secrets, and checkout to trusted base-repository code."@,
    )
}

/// The trigger finding of a workflow, if it gains `pull_request_target`.
pub open spec fn trigger_findings(
    path: Seq<char>,
    base: Option<WorkflowView>,
    head: WorkflowView,
) -> Set<FindingView> {
    if head.triggers.contains("pull_request_target"@) && !(base is Some
        && base->0.triggers.contains("pull_request_target"@)) {
        set![trigger_finding(path)]
    } else {
        Set::empty()
    }
}

/// The finding that shows one analysis warning of a workflow.
pub open spec fn warning_finding(path: Seq<char>, warning: Seq<char>) -> FindingView {
    finding_view(
        path,
        None,
        Severity::Warning,
        "unknown-capability"@,
        "Workflow analysis warning: "@ + warning,
        "Resolve the unsupported or dynamic construct before relying on this comparison."@,
    )
}

/// One warning finding for each distinct analysis warning of the head workflow.
pub open spec fn warning_findings(path: Seq<char>, head: WorkflowView) -> Set<FindingView> {
    Set::new(
        |f: FindingView|
            exists|w: Seq<char>| #[trigger]
                head.warnings.contains(w) && f == warning_finding(path, w),
    )
}

/// The base job with the same id, if the base workflow has one.
pub open spec fn base_job(base: Option<WorkflowView>, id: Seq<char>) -> Option<JobView> {
    if base is Some && base->0.jobs.contains_key(id) {
        Some(base->0.jobs[id])
    } else {
        None
    }
}

/// The findings of every job of a head workflow.
pub open spec fn all_job_findings(
    path: Seq<char>,
    base: Option<WorkflowView>,
    head: WorkflowView,
) -> Set<FindingView> {
    Set::new(
        |f: FindingView|
            exists|id: Seq<char>|
                head.jobs.contains_key(id) && #[trigger] job_findings(
                    path,
                    id,
                    base_job(base, id),
                    head.jobs[id],
                ).contains(f),
    )
}

/// Everything that the head workflow adds over the base workflow.
pub open spec fn workflow_findings(
    path: Seq<char>,
    base: Option<WorkflowView>,
    head: WorkflowView,
) -> Set<FindingView> {
    trigger_findings(path, base, head).union(warning_findings(path, head)).union(
        all_job_findings(path, base, head),
    )
}

/// The base workflow at the same path, if any.
pub open spec fn base_workflow(
    base: Map<Seq<PathPart>, (Seq<char>, WorkflowView)>,
    key: Seq<PathPart>,
) -> Option<WorkflowView> {
    if base.contains_key(key) {
        Some(base[key].1)
    } else {
        None
    }
}

/// All findings of a comparison: for every head workflow, what it adds
/// over the base workflow at the same path.
pub open spec fn report(
    base: Map<Seq<PathPart>, (Seq<char>, WorkflowView)>,
    head: Map<Seq<PathPart>, (Seq<char>, WorkflowView)>,
) -> Set<FindingView> {
    Set::new(
        |f: FindingView|
            exists|key: Seq<PathPart>|
                head.contains_key(key) && #[trigger] workflow_findings(
                    head[key].0,
                    base_workflow(base, key),
                    head[key].1,
                ).contains(f),
    )
}

/// The findings of a comparison in reporting order: the one sequence,
/// sorted strictly by path, job, category and message, that holds them.
pub open spec fn report_order(
    base: Map<Seq<PathPart>, (Seq<char>, WorkflowView)>,
    head: Map<Seq<PathPart>, (Seq<char>, WorkflowView)>,
) -> Seq<FindingView> {
    choose|s: Seq<FindingView>| findings_sorted(s) && s.to_set() == report(base, head)
}

/// The contents of an optional workflow.
pub open spec fn opt_workflow_view(w: Option<&WorkflowCapability>) -> Option<WorkflowView> {
    match w {
        Some(x) => Some(x@),
        None => None,
    }
}

fn workflow_finding(path: &str, severity: Severity, category: &str, message: String, remediation: String) -> (f: Finding)
    ensures
        f@ == finding_view(path@, None, severity, category@, message@, remediation@),
{
    Finding {
        severity,
        path: String::from_str(path),
        job: None,
        category: String::from_str(category),
        message,
        remediation,
    }
}

/// One warning finding per listed warning, in list order.
pub open spec fn warning_seq(path: Seq<char>, warnings: Seq<Seq<char>>) -> Seq<FindingView>
    decreases warnings.len(),
{
    if warnings.len() == 0 {
        Seq::empty()
    } else {
        warning_seq(path, warnings.drop_last()).push(warning_finding(path, warnings.last()))
    }
}

/// The findings of the listed jobs of a head workflow, job after job.
pub open spec fn jobs_finding_seq(
    path: Seq<char>,
    base: Option<WorkflowView>,
    head: WorkflowView,
    ids: Seq<Seq<char>>,
) -> Seq<FindingView>
    decreases ids.len(),
{
    if ids.len() == 0 {
        Seq::empty()
    } else {
        jobs_finding_seq(path, base, head, ids.drop_last()) + job_finding_seq(
            path,
            ids.last(),
            base_job(base, ids.last()),
            head.jobs[ids.last()],
        )
    }
}

/// The findings of a workflow in the order they are reported for it: the
/// trigger; the distinct warnings in ascending order; then each job, in
/// ascending job order.
pub open spec fn workflow_finding_seq(
    path: Seq<char>,
    base: Option<WorkflowView>,
    head: WorkflowView,
) -> Seq<FindingView> {
    opt_seq(
        head.triggers.contains("pull_request_target"@) && !(base is Some
            && base->0.triggers.contains("pull_request_target"@)),
        trigger_finding(path),
    ) + warning_seq(path, sorted_of(head.warnings.to_set())) + jobs_finding_seq(
        path,
        base,
        head,
        sorted_of(head.jobs.dom()),
    )
}

/// The findings of the listed jobs, as a set.
pub open spec fn listed_jobs_set(
    path: Seq<char>,
    base: Option<WorkflowView>,
    head: WorkflowView,
    ids: Seq<Seq<char>>,
) -> Set<FindingView> {
    Set::new(
        |f: FindingView|
            exists|j: int|
                0 <= j < ids.len() && #[trigger] job_findings(
                    path,
                    ids[j],
                    base_job(base, ids[j]),
                    head.jobs[ids[j]],
                ).contains(f),
    )
}

proof fn lemma_warning_seq_contains(path: Seq<char>, ws: Seq<Seq<char>>, f: FindingView)
    ensures
        warning_seq(path, ws).contains(f) <==> exists|j: int|
            0 <= j < ws.len() && f == #[trigger] warning_finding(path, ws[j]),
    decreases ws.len(),
{
    if ws.len() > 0 {
        let init = ws.drop_last();
        lemma_warning_seq_contains(path, init, f);
        let a = warning_seq(path, init);
        let s = a.push(warning_finding(path, ws.last()));
        if s.contains(f) {
            let k = choose|k: int| 0 <= k < s.len() && s[k] == f;
            if k < a.len() {
                assert(a[k] == f);
                let j = choose|j: int| 0 <= j < init.len() && f == #[trigger] warning_finding(path, init[j]);
                assert(ws[j] == init[j]);
            } else {
                assert(f == warning_finding(path, ws[ws.len() - 1]));
            }
        }
        if exists|j: int| 0 <= j < ws.len() && f == #[trigger] warning_finding(path, ws[j]) {
            let j = choose|j: int| 0 <= j < ws.len() && f == #[trigger] warning_finding(path, ws[j]);
            if j < ws.len() - 1 {
                assert(init[j] == ws[j]);
                assert(warning_finding(path, init[j]) == f);
                let k = choose|k: int| 0 <= k < a.len() && a[k] == f;
                assert(s[k] == f);
            } else {
                assert(s[a.len() as int] == f);
            }
        }
    }
}

/// Appends one finding per distinct analysis warning of the head workflow,
/// in ascending order.
fn add_warning_findings(path: &str, head: &WorkflowCapability, findings: &mut Vec<Finding>)
    ensures
        finding_views(final(findings)@) == finding_views(old(findings)@) + warning_seq(
            path@,
            sorted_of(head@.warnings.to_set()),
        ),
        warning_seq(path@, sorted_of(head@.warnings.to_set())).to_set() == warning_findings(
            path@,
            head@,
        ),
{
    let ghost start = finding_views(findings@);
    let ghost hv = head@;
    let distinct = distinct_sorted(&head.warnings);
    let warnings = distinct.as_slice();
    let ghost keys = string_views(warnings@);
    let mut i: usize = 0;
    while i < warnings.len()
        invariant
            hv == head@,
            keys == string_views(warnings@),
            keys.to_set() == hv.warnings.to_set(),
            i <= warnings@.len(),
            finding_views(findings@) == start + warning_seq(path@, keys.take(i as int)),
        decreases warnings@.len() - i,
    {
        let message = concat2("Workflow analysis warning: ", warnings[i].as_str());
        let f = workflow_finding(
            path,
            Severity::Warning,
            "unknown-capability",
            message,
            String::from_str(
                "Resolve the unsupported or dynamic construct before relying on this comparison.",
            ),
        );
        assert(keys[i as int] == warnings@[i as int]@);
        assert(f@ == warning_finding(path@, keys[i as int]));
        let ghost before = finding_views(findings@);
        let ghost fv = f@;
        findings.push(f);
        proof {
            let t = keys.take(i + 1);
            assert(t.drop_last() =~= keys.take(i as int));
            assert(t.last() == keys[i as int]);
            assert(finding_views(findings@) =~= before.push(fv));
            assert(finding_views(findings@) =~= start + warning_seq(path@, t));
        }
        i = i + 1;
    }
    proof {
        assert(keys.take(i as int) =~= keys);
        crate::collections::lemma_sorted_of(keys);
        let w = warning_seq(path@, keys);
        assert forall|f: FindingView| w.to_set().contains(f) <==> warning_findings(path@, hv).contains(f) by {
            lemma_warning_seq_contains(path@, keys, f);
            if w.contains(f) {
                let j = choose|j: int| 0 <= j < keys.len() && f == #[trigger] warning_finding(path@, keys[j]);
                assert(keys.to_set().contains(keys[j]));
                assert(hv.warnings.to_set().contains(keys[j]));
                assert(hv.warnings.contains(keys[j]));
            }
            if warning_findings(path@, hv).contains(f) {
                let x = choose|x: Seq<char>| #[trigger] hv.warnings.contains(x) && f == warning_finding(path@, x);
                assert(hv.warnings.to_set().contains(x));
                assert(keys.to_set().contains(x));
                let j = choose|j: int| 0 <= j < keys.len() && keys[j] == x;
                assert(f == warning_finding(path@, keys[j]));
            }
        }
        assert(w.to_set() =~= warning_findings(path@, hv));
    }
}

/// Appends the findings of every job of the head workflow, in ascending
/// job order.
fn add_all_job_findings(
    path: &str,
    base: Option<&WorkflowCapability>,
    head: &WorkflowCapability,
    findings: &mut Vec<Finding>,
)
    ensures
        finding_views(final(findings)@) == finding_views(old(findings)@) + jobs_finding_seq(
            path@,
            opt_workflow_view(base),
            head@,
            sorted_of(head@.jobs.dom()),
        ),
        jobs_finding_seq(path@, opt_workflow_view(base), head@, sorted_of(head@.jobs.dom())).to_set()
            == all_job_findings(path@, opt_workflow_view(base), head@),
{
    let ghost start = finding_views(findings@);
    let ghost bv = opt_workflow_view(base);
    let ghost hv = head@;
    let jobs = head.jobs.as_slice();
    let ghost ids = key_views(jobs@);
    let mut i: usize = 0;
    assert(jobs_finding_seq(path@, bv, hv, ids.take(0)).to_set() =~= listed_jobs_set(path@, bv, hv, ids.take(0)));
    while i < jobs.len()
        invariant
            bv == opt_workflow_view(base),
            hv == head@,
            ids == key_views(jobs@),
            i <= jobs@.len(),
            forall|j: int|
                0 <= j < jobs@.len() ==> hv.jobs.contains_key(#[trigger] jobs@[j].0@)
                    && hv.jobs[jobs@[j].0@] == jobs@[j].1@,
            forall|k: Seq<char>| #[trigger] hv.jobs.contains_key(k) ==> key_views(jobs@).contains(k),
            finding_views(findings@) == start + jobs_finding_seq(path@, bv, hv, ids.take(i as int)),
            jobs_finding_seq(path@, bv, hv, ids.take(i as int)).to_set() == listed_jobs_set(
                path@,
                bv,
                hv,
                ids.take(i as int),
            ),
        decreases jobs@.len() - i,
    {
        let id = &jobs[i].0;
        let job = &jobs[i].1;
        let base_job_capability = match base {
            Some(b) => b.jobs.get(id.as_str()),
            None => None,
        };
        assert(ids[i as int] == id@);
        assert(opt_job_view(base_job_capability) == base_job(bv, id@));
        assert(job@ == hv.jobs[id@]);
        let ghost before = finding_views(findings@);
        diff_job(path, id.as_str(), base_job_capability, job, findings);
        proof {
            let t = ids.take(i + 1);
            let p = ids.take(i as int);
            assert(t.drop_last() =~= p);
            assert(t.last() == id@);
            let js = job_finding_seq(path@, id@, base_job(bv, id@), hv.jobs[id@]);
            assert(jobs_finding_seq(path@, bv, hv, t) == jobs_finding_seq(path@, bv, hv, p) + js);
            assert(finding_views(findings@) =~= start + jobs_finding_seq(path@, bv, hv, t));
            lemma_concat_to_set(jobs_finding_seq(path@, bv, hv, p), js);
            assert(listed_jobs_set(path@, bv, hv, t) =~= listed_jobs_set(path@, bv, hv, p).union(
                job_findings(path@, id@, base_job(bv, id@), hv.jobs[id@]),
            )) by {
                assert forall|f: FindingView| listed_jobs_set(path@, bv, hv, t).contains(f) implies listed_jobs_set(
                    path@,
                    bv,
                    hv,
                    p,
                ).contains(f) || job_findings(path@, id@, base_job(bv, id@), hv.jobs[id@]).contains(f) by {
                    let j = choose|j: int|
                        0 <= j < t.len() && #[trigger] job_findings(
                            path@,
                            t[j],
                            base_job(bv, t[j]),
                            hv.jobs[t[j]],
                        ).contains(f);
                    if j < i {
                        assert(p[j] == t[j]);
                    }
                }
                assert forall|f: FindingView| listed_jobs_set(path@, bv, hv, p).contains(f) implies listed_jobs_set(
                    path@,
                    bv,
                    hv,
                    t,
                ).contains(f) by {
                    let j = choose|j: int|
                        0 <= j < p.len() && #[trigger] job_findings(
                            path@,
                            p[j],
                            base_job(bv, p[j]),
                            hv.jobs[p[j]],
                        ).contains(f);
                    assert(t[j] == p[j]);
                }
                assert forall|f: FindingView| job_findings(path@, id@, base_job(bv, id@), hv.jobs[id@]).contains(
                    f,
                ) implies listed_jobs_set(path@, bv, hv, t).contains(f) by {
                    assert(t[i as int] == id@);
                }
            }
        }
        i = i + 1;
    }
    proof {
        assert(ids.take(i as int) =~= ids);
        assert(hv.jobs.dom() =~= ids.to_set()) by {
            assert forall|k: Seq<char>| ids.to_set().contains(k) implies hv.jobs.contains_key(k) by {
                let j = choose|j: int| 0 <= j < ids.len() && ids[j] == k;
                assert(ids[j] == jobs@[j].0@);
            }
        }
        crate::collections::lemma_sorted_of(ids);
        assert(listed_jobs_set(path@, bv, hv, ids) =~= all_job_findings(path@, bv, hv)) by {
            assert forall|f: FindingView| all_job_findings(path@, bv, hv).contains(f) implies listed_jobs_set(
                path@,
                bv,
                hv,
                ids,
            ).contains(f) by {
                let id = choose|id: Seq<char>|
                    hv.jobs.contains_key(id) && #[trigger] job_findings(
                        path@,
                        id,
                        base_job(bv, id),
                        hv.jobs[id],
                    ).contains(f);
                assert(ids.to_set().contains(id));
                let j = choose|j: int| 0 <= j < ids.len() && ids[j] == id;
                assert(job_findings(path@, ids[j], base_job(bv, ids[j]), hv.jobs[ids[j]]).contains(f));
            }
            assert forall|f: FindingView| listed_jobs_set(path@, bv, hv, ids).contains(f) implies all_job_findings(
                path@,
                bv,
                hv,
            ).contains(f) by {
                let j = choose|j: int|
                    0 <= j < ids.len() && #[trigger] job_findings(
                        path@,
                        ids[j],
                        base_job(bv, ids[j]),
                        hv.jobs[ids[j]],
                    ).contains(f);
                assert(ids.to_set().contains(ids[j]));
                assert(hv.jobs.contains_key(ids[j]));
            }
        }
    }
}

/// Appends what the head workflow adds over the base workflow, in the
/// order of `workflow_finding_seq`.
fn diff_workflow(
    path: &str,
    base: Option<&WorkflowCapability>,
    head: &WorkflowCapability,
    findings: &mut Vec<Finding>,
)
    ensures
        finding_views(final(findings)@) == finding_views(old(findings)@) + workflow_finding_seq(
            path@,
            opt_workflow_view(base),
            head@,
        ),
        workflow_finding_seq(path@, opt_workflow_view(base), head@).to_set() == workflow_findings(
            path@,
            opt_workflow_view(base),
            head@,
        ),
{
    let ghost start = finding_views(findings@);
    let ghost bv = opt_workflow_view(base);
    let ghost hv = head@;
    let base_trigger = match base {
        Some(b) => b.triggers.contains("pull_request_target"),
        None => false,
    };
    let added = head.triggers.contains("pull_request_target") && !base_trigger;
    let f = workflow_finding(
        path,
        Severity::High,
        "trigger-trust",
        String::from_str("Added pull_request_target, which can run for pull requests from forks."),
        String::from_str(
            "Prefer pull_request; if pull_request_target is required, restrict permissions, secrets, and checkout to trusted base-repository code.",
        ),
    );
    push_if(findings, added, f);
    add_warning_findings(path, head, findings);
    add_all_job_findings(path, base, head, findings);
    proof {
        let c = hv.triggers.contains("pull_request_target"@) && !(bv is Some
            && bv->0.triggers.contains("pull_request_target"@));
        let a = opt_seq(c, trigger_finding(path@));
        let b = warning_seq(path@, sorted_of(hv.warnings.to_set()));
        let d = jobs_finding_seq(path@, bv, hv, sorted_of(hv.jobs.dom()));
        assert(finding_views(findings@) =~= start + (a + b + d));
        lemma_concat_to_set(a, b);
        lemma_concat_to_set(a + b, d);
        lemma_opt_seq_to_set(c, trigger_finding(path@));
        assert(trigger_findings(path@, bv, hv) == (if c { set![trigger_finding(path@)] } else { Set::<FindingView>::empty() }));
        assert(workflow_finding_seq(path@, bv, hv).to_set() =~= workflow_findings(path@, bv, hv));
    }
}

pub proof fn lemma_finding_lt_orders_report_key(a: FindingView, b: FindingView)
    requires
        finding_lt(a, b),
    ensures
        report_key_le(a, b),
{
}

/// Compares extracted workflow capabilities and reports only newly
/// introduced privileges or analysis warnings. The findings come in their
/// reporting order: by path, job, category and message.
pub fn diff_workflows(
    base: &PathMap<WorkflowCapability>,
    head: &PathMap<WorkflowCapability>,
) -> (findings: Vec<Finding>)
    ensures
        finding_views(findings@) == report_order(base@, head@),
        finding_set(findings@) == report(base@, head@),
        findings_sorted(finding_views(findings@)),
        finding_views(findings@).no_duplicates(),
        forall|i: int, j: int|
            0 <= i < j < findings@.len() ==> report_key_le(
                #[trigger] findings@[i]@,
                #[trigger] findings@[j]@,
            ),
{
    let mut all: Vec<Finding> = Vec::new();
    let ghost bmap = base@;
    let ghost hmap = head@;
    let workflows = head.as_slice();
    let mut i: usize = 0;
    assert(finding_set(all@) =~= Set::<FindingView>::empty());
    while i < workflows.len()
        invariant
            bmap == base@,
            hmap == head@,
            i <= workflows@.len(),
            forall|j: int|
                0 <= j < workflows@.len() ==> hmap.contains_key(
                    #[trigger] crate::path::path_parts(workflows@[j].0@),
                ) && hmap[crate::path::path_parts(workflows@[j].0@)] == (
                    workflows@[j].0@,
                    workflows@[j].1@,
                ),
            forall|k: Seq<PathPart>| #[trigger] hmap.contains_key(k) ==> part_keys(workflows@).contains(k),
            finding_set(all@) == Set::new(
                |f: FindingView|
                    exists|j: int|
                        0 <= j < i && #[trigger] workflow_findings(
                            workflows@[j].0@,
                            base_workflow(bmap, crate::path::path_parts(workflows@[j].0@)),
                            workflows@[j].1@,
                        ).contains(f),
            ),
        decreases workflows@.len() - i,
    {
        let path = &workflows[i].0;
        let workflow = &workflows[i].1;
        let base_workflow_capability = base.get(path.as_str());
        assert(opt_workflow_view(base_workflow_capability) == base_workflow(
            bmap,
            crate::path::path_parts(path@),
        ));
        let ghost mid = finding_views(all@);
        diff_workflow(path.as_str(), base_workflow_capability, workflow, &mut all);
        proof {
            lemma_concat_to_set(
                mid,
                workflow_finding_seq(
                    path@,
                    opt_workflow_view(base_workflow_capability),
                    workflow@,
                ),
            );
            let old_set = Set::new(
                |f: FindingView|
                    exists|j: int|
                        0 <= j < i && #[trigger] workflow_findings(
                            workflows@[j].0@,
                            base_workflow(bmap, crate::path::path_parts(workflows@[j].0@)),
                            workflows@[j].1@,
                        ).contains(f),
            );
            let new_set = Set::new(
                |f: FindingView|
                    exists|j: int|
                        0 <= j < i + 1 && #[trigger] workflow_findings(
                            workflows@[j].0@,
                            base_workflow(bmap, crate::path::path_parts(workflows@[j].0@)),
                            workflows@[j].1@,
                        ).contains(f),
            );
            assert(new_set =~= old_set.union(
                workflow_findings(
                    workflows@[i as int].0@,
                    base_workflow(bmap, crate::path::path_parts(workflows@[i as int].0@)),
                    workflows@[i as int].1@,
                ),
            ));
            assert(finding_set(all@) =~= new_set);
        }
        i = i + 1;
    }
    let ghost total = finding_set(all@);
    let mut findings: Vec<Finding> = Vec::new();
    assert(finding_set(findings@) =~= Set::<FindingView>::empty());
    assert(finding_set(findings@).union(finding_set(all@)) =~= total);
    while all.len() > 0
        invariant
            findings_sorted(finding_views(findings@)),
            finding_set(findings@).union(finding_set(all@)) == total,
        decreases all@.len(),
    {
        let ghost before = all@;
        let last = all.pop();
        match last {
            Some(f) => {
                proof {
                    assert(finding_views(before) =~= finding_views(all@) + seq![f@]);
                    lemma_concat_to_set(finding_views(all@), seq![f@]);
                    assert(seq![f@].to_set() =~= set![f@]) by {
                        assert(seq![f@][0] == f@);
                    }
                }
                let ghost fv = f@;
                let ghost sorted_before = finding_set(findings@);
                assert(finding_set(before) == finding_set(all@).union(set![fv]));
                insert_sorted(&mut findings, f);
                assert(finding_set(findings@) == sorted_before.insert(fv));
                assert(finding_set(findings@).union(finding_set(all@)) =~= total);
            },
            None => {},
        }
    }
    proof {
        let loop_set = Set::new(
            |f: FindingView|
                exists|j: int|
                    0 <= j < workflows@.len() && #[trigger] workflow_findings(
                        workflows@[j].0@,
                        base_workflow(bmap, crate::path::path_parts(workflows@[j].0@)),
                        workflows@[j].1@,
                    ).contains(f),
        );
        assert(loop_set =~= report(bmap, hmap)) by {
            assert forall|f: FindingView| report(bmap, hmap).contains(f) implies loop_set.contains(f) by {
                let key = choose|key: Seq<PathPart>|
                    hmap.contains_key(key) && #[trigger] workflow_findings(
                        hmap[key].0,
                        base_workflow(bmap, key),
                        hmap[key].1,
                    ).contains(f);
                assert(part_keys(workflows@).contains(key));
                let j = choose|j: int| 0 <= j < workflows@.len() && part_keys(workflows@)[j] == key;
                assert(crate::path::path_parts(workflows@[j].0@) == key);
            }
            assert forall|f: FindingView| loop_set.contains(f) implies report(bmap, hmap).contains(f) by {
                let j = choose|j: int|
                    0 <= j < workflows@.len() && #[trigger] workflow_findings(
                        workflows@[j].0@,
                        base_workflow(bmap, crate::path::path_parts(workflows@[j].0@)),
                        workflows@[j].1@,
                    ).contains(f);
                let key = crate::path::path_parts(workflows@[j].0@);
                assert(hmap.contains_key(key));
                assert(hmap[key] == (workflows@[j].0@, workflows@[j].1@));
                assert(workflow_findings(hmap[key].0, base_workflow(bmap, key), hmap[key].1).contains(f));
            }
        }
        let v = finding_views(findings@);
        assert forall|a: int, b: int| 0 <= a < v.len() && 0 <= b < v.len() && a != b implies v[a] != v[b] by {
            if a < b {
                lemma_finding_lt_irreflexive(v[a]);
            } else {
                lemma_finding_lt_irreflexive(v[b]);
            }
        }
        assert forall|a: int, b: int| 0 <= a < b < findings@.len() implies report_key_le(
            #[trigger] findings@[a]@,
            #[trigger] findings@[b]@,
        ) by {
            assert(v[a] == findings@[a]@);
            assert(v[b] == findings@[b]@);
            lemma_finding_lt_orders_report_key(v[a], v[b]);
        }
        assert(findings_sorted(v) && v.to_set() == report(bmap, hmap));
        lemma_findings_sorted_unique(report_order(bmap, hmap), v);
    }
    findings
}

// ---------------------------------------------------------------------
// Laws of the comparison
// ---------------------------------------------------------------------

/// Whether a head job holds no capability that its base job lacks: no
/// secret, write scope, write-all, OIDC access, self-hosted runner, mutable
/// action reference or untrusted script context that the base job did not
/// already have.
pub open spec fn job_within(head: JobView, base: JobView) -> bool {
    &&& head.permissions_all == Some("write-all"@) ==> base.permissions_all == Some("write-all"@)
    &&& forall|scope: Seq<char>| #[trigger] head.permissions.contains_key(scope) && scope != "id-token"@
        && head.permissions[scope] == "write"@ ==> base.permissions_all == Some("write-all"@) || (
        base.permissions.contains_key(scope) && base.permissions[scope] == "write"@)
    &&& head.secrets.subset_of(base.secrets)
    &&& head.oidc ==> base.oidc
    &&& head.runners.contains("self-hosted"@) ==> base.runners.contains("self-hosted"@)
    &&& forall|a: Seq<char>| #[trigger] head.action_refs.contains(a) && is_mutable_action_ref(a)
        ==> base.action_refs.contains(a)
    &&& head.untrusted_script_context ==> base.untrusted_script_context
}

/// Risk reductions are not reported: a job that holds no capability beyond
/// its base job's adds no finding.
pub proof fn lemma_job_within_base_adds_nothing(path: Seq<char>, id: Seq<char>, base: JobView, head: JobView)
    requires
        job_within(head, base),
    ensures
        job_findings(path, id, Some(base), head) == Set::<FindingView>::empty(),
{
    assert(scope_findings(path, id, Some(base), head) =~= Set::<FindingView>::empty());
    assert(secret_findings(path, id, Some(base), head) =~= Set::<FindingView>::empty());
    assert(action_findings(path, id, Some(base), head) =~= Set::<FindingView>::empty());
    assert(job_findings(path, id, Some(base), head) =~= Set::<FindingView>::empty());
}

/// A head workflow without analysis warnings, whose triggers and jobs hold
/// nothing beyond those of its base workflow, adds no finding at all.
pub proof fn lemma_workflow_within_base_adds_nothing(path: Seq<char>, base: WorkflowView, head: WorkflowView)
    requires
        head.triggers.contains("pull_request_target"@) ==> base.triggers.contains("pull_request_target"@),
        head.warnings.len() == 0,
        forall|id: Seq<char>| #[trigger] head.jobs.contains_key(id) ==> base.jobs.contains_key(id)
            && job_within(head.jobs[id], base.jobs[id]),
    ensures
        workflow_findings(path, Some(base), head) == Set::<FindingView>::empty(),
{
    assert(warning_findings(path, head) =~= Set::<FindingView>::empty());
    assert(all_job_findings(path, Some(base), head) =~= Set::<FindingView>::empty()) by {
        assert forall|f: FindingView| !#[trigger] all_job_findings(path, Some(base), head).contains(f) by {
            if all_job_findings(path, Some(base), head).contains(f) {
                let id = choose|id: Seq<char>|
                    head.jobs.contains_key(id) && #[trigger] job_findings(
                        path,
                        id,
                        base_job(Some(base), id),
                        head.jobs[id],
                    ).contains(f);
                lemma_job_within_base_adds_nothing(path, id, base.jobs[id], head.jobs[id]);
            }
        }
    }
    assert(workflow_findings(path, Some(base), head) =~= Set::<FindingView>::empty());
}

/// Comparing a revision with itself reports only the analysis warnings of
/// its workflows: job-less unknown-capability warnings, and nothing high.
pub proof fn lemma_unchanged_revision_reports_only_warnings(m: Map<Seq<PathPart>, (Seq<char>, WorkflowView)>)
    ensures
        forall|f: FindingView| #[trigger] report(m, m).contains(f) ==> {
            &&& f.severity == Severity::Warning
            &&& f.category == "unknown-capability"@
            &&& f.job is None
        },
{
    assert forall|f: FindingView| #[trigger] report(m, m).contains(f) implies {
        &&& f.severity == Severity::Warning
        &&& f.category == "unknown-capability"@
        &&& f.job is None
    } by {
        let key = choose|key: Seq<PathPart>|
            m.contains_key(key) && #[trigger] workflow_findings(
                m[key].0,
                base_workflow(m, key),
                m[key].1,
            ).contains(f);
        let path = m[key].0;
        let w = m[key].1;
        assert(base_workflow(m, key) == Some(w));
        if all_job_findings(path, Some(w), w).contains(f) {
            let id = choose|id: Seq<char>|
                w.jobs.contains_key(id) && #[trigger] job_findings(
                    path,
                    id,
                    base_job(Some(w), id),
                    w.jobs[id],
                ).contains(f);
            assert(base_job(Some(w), id) == Some(w.jobs[id]));
            lemma_job_within_base_adds_nothing(path, id, w.jobs[id], w.jobs[id]);
        }
        if warning_findings(path, w).contains(f) {
            let x = choose|x: Seq<char>| #[trigger] w.warnings.contains(x) && f == warning_finding(path, x);
        }
    }
}

/// Workflows that only the base revision has change nothing: the report
/// against the base equals the report against the base restricted to the
/// head's files, and a head without workflows reports nothing.
pub proof fn lemma_base_files_outside_head_change_nothing(
    base: Map<Seq<PathPart>, (Seq<char>, WorkflowView)>,
    head: Map<Seq<PathPart>, (Seq<char>, WorkflowView)>,
)
    ensures
        report(base, head) == report(base.restrict(head.dom()), head),
        report(base, Map::empty()) == Set::<FindingView>::empty(),
{
    let r = base.restrict(head.dom());
    assert forall|f: FindingView| report(base, head).contains(f) <==> report(r, head).contains(f) by {
        if report(base, head).contains(f) {
            let key = choose|key: Seq<PathPart>|
                head.contains_key(key) && #[trigger] workflow_findings(
                    head[key].0,
                    base_workflow(base, key),
                    head[key].1,
                ).contains(f);
            assert(base_workflow(r, key) == base_workflow(base, key));
        }
        if report(r, head).contains(f) {
            let key = choose|key: Seq<PathPart>|
                head.contains_key(key) && #[trigger] workflow_findings(
                    head[key].0,
                    base_workflow(r, key),
                    head[key].1,
                ).contains(f);
            assert(base_workflow(r, key) == base_workflow(base, key));
        }
    }
    assert(report(base, head) =~= report(r, head));
    assert(report(base, Map::empty()) =~= Set::<FindingView>::empty());
}

proof fn lemma_job_findings_without_base(path: Seq<char>, id: Seq<char>, base: Option<JobView>, head: JobView)
    ensures
        job_findings(path, id, base, head).subset_of(job_findings(path, id, None, head)),
{
    assert forall|f: FindingView| #[trigger] job_findings(path, id, base, head).contains(f) implies job_findings(
        path,
        id,
        None,
        head,
    ).contains(f) by {
        if scope_findings(path, id, base, head).contains(f) {
            let s = choose|s: Seq<char>| #[trigger] adds_write_scope(base, head, s) && f == scope_finding(path, id, s);
            assert(adds_write_scope(None, head, s));
            assert(scope_findings(path, id, None, head).contains(f));
        }
        if secret_findings(path, id, base, head).contains(f) {
            let s = choose|s: Seq<char>| #[trigger] adds_secret(base, head, s) && f == secret_finding(path, id, s);
            assert(adds_secret(None, head, s));
            assert(secret_findings(path, id, None, head).contains(f));
        }
        if action_findings(path, id, base, head).contains(f) {
            let a = choose|a: Seq<char>| #[trigger] adds_mutable_action(base, head, a) && f == action_finding(path, id, a);
            assert(adds_mutable_action(None, head, a));
            assert(action_findings(path, id, None, head).contains(f));
        }
    }
}

/// A base revision can only hide findings, never add one: every finding
/// against a base is also reported against an empty base.
pub proof fn lemma_base_only_hides_findings(
    base: Map<Seq<PathPart>, (Seq<char>, WorkflowView)>,
    head: Map<Seq<PathPart>, (Seq<char>, WorkflowView)>,
)
    ensures
        report(base, head).subset_of(report(Map::empty(), head)),
{
    let e = Map::<Seq<PathPart>, (Seq<char>, WorkflowView)>::empty();
    assert forall|f: FindingView| #[trigger] report(base, head).contains(f) implies report(e, head).contains(f) by {
        let key = choose|key: Seq<PathPart>|
            head.contains_key(key) && #[trigger] workflow_findings(
                head[key].0,
                base_workflow(base, key),
                head[key].1,
            ).contains(f);
        let path = head[key].0;
        let w = head[key].1;
        let b = base_workflow(base, key);
        assert(base_workflow(e, key) == None::<WorkflowView>);
        if all_job_findings(path, b, w).contains(f) {
            let id = choose|id: Seq<char>|
                w.jobs.contains_key(id) && #[trigger] job_findings(path, id, base_job(b, id), w.jobs[id]).contains(f);
            lemma_job_findings_without_base(path, id, base_job(b, id), w.jobs[id]);
            assert(base_job(None, id) == None::<JobView>);
            assert(job_findings(path, id, base_job(None, id), w.jobs[id]).contains(f));
            assert(all_job_findings(path, None, w).contains(f));
        }
        assert(workflow_findings(path, None, w).contains(f));
    }
}

/// Once the base job holds write-all, no token permission of the head job
/// is reported: neither write-all again nor any single write scope.
pub proof fn lemma_write_all_baseline_hides_token_findings(
    path: Seq<char>,
    id: Seq<char>,
    base: JobView,
    head: JobView,
)
    requires
        base.permissions_all == Some("write-all"@),
    ensures
        forall|f: FindingView| #[trigger] job_findings(path, id, Some(base), head).contains(f) ==> f.category
            != "token-permission"@,
{
    assert(scope_findings(path, id, Some(base), head) =~= Set::<FindingView>::empty());
    assert forall|f: FindingView| #[trigger] job_findings(path, id, Some(base), head).contains(f) implies f.category
        != "token-permission"@ by {
        reveal_strlit("token-permission");
        reveal_strlit("secret-access");
        reveal_strlit("oidc");
        reveal_strlit("self-hosted-runner");
        reveal_strlit("mutable-action-reference");
        reveal_strlit("untrusted-context");
        assert("token-permission"@.len() == 16);
        assert("secret-access"@.len() == 13);
        if secret_findings(path, id, Some(base), head).contains(f) {
            let s = choose|s: Seq<char>| #[trigger]
                adds_secret(Some(base), head, s) && f == secret_finding(path, id, s);
        }
        if action_findings(path, id, Some(base), head).contains(f) {
            let a = choose|a: Seq<char>| #[trigger]
                adds_mutable_action(Some(base), head, a) && f == action_finding(path, id, a);
        }
        assert(!write_all_findings(path, id, Some(base), head).contains(f));
        assert(!scope_findings(path, id, Some(base), head).contains(f));
        if oidc_findings(path, id, Some(base), head).contains(f) {
            assert(f == oidc_finding(path, id));
        }
        if self_hosted_findings(path, id, Some(base), head).contains(f) {
            assert(f == self_hosted_finding(path, id));
        }
        if untrusted_findings(path, id, Some(base), head).contains(f) {
            assert(f == untrusted_finding(path, id));
        }
    }
}

/// Every analysis warning of a head workflow is reported, so unsupported
/// structures stay visible.
pub proof fn lemma_head_warnings_are_reported(
    base: Map<Seq<PathPart>, (Seq<char>, WorkflowView)>,
    head: Map<Seq<PathPart>, (Seq<char>, WorkflowView)>,
    key: Seq<PathPart>,
    warning: Seq<char>,
)
    requires
        head.contains_key(key),
        head[key].1.warnings.contains(warning),
    ensures
        report(base, head).contains(warning_finding(head[key].0, warning)),
{
    let f = warning_finding(head[key].0, warning);
    assert(warning_findings(head[key].0, head[key].1).contains(f));
    assert(workflow_findings(head[key].0, base_workflow(base, key), head[key].1).contains(f));
}

/// Every finding is about a workflow file of the head revision: files that
/// only the base has are not compared.
pub proof fn lemma_findings_are_about_head_files(
    base: Map<Seq<PathPart>, (Seq<char>, WorkflowView)>,
    head: Map<Seq<PathPart>, (Seq<char>, WorkflowView)>,
)
    ensures
        forall|f: FindingView| #[trigger] report(base, head).contains(f) ==> exists|key: Seq<PathPart>|
            head.contains_key(key) && #[trigger] head[key].0 == f.path,
{
    assert forall|f: FindingView| #[trigger] report(base, head).contains(f) implies exists|
        key: Seq<PathPart>,
    | head.contains_key(key) && #[trigger] head[key].0 == f.path by {
        let key = choose|key: Seq<PathPart>|
            head.contains_key(key) && #[trigger] workflow_findings(
                head[key].0,
                base_workflow(base, key),
                head[key].1,
            ).contains(f);
        let path = head[key].0;
        let b = base_workflow(base, key);
        let w = head[key].1;
        if warning_findings(path, w).contains(f) {
            let x = choose|x: Seq<char>| #[trigger] w.warnings.contains(x) && f == warning_finding(path, x);
        }
        if all_job_findings(path, b, w).contains(f) {
            let id = choose|id: Seq<char>|
                w.jobs.contains_key(id) && #[trigger] job_findings(path, id, base_job(b, id), w.jobs[id]).contains(f);
            let bj = base_job(b, id);
            let hj = w.jobs[id];
            if scope_findings(path, id, bj, hj).contains(f) {
                let x = choose|x: Seq<char>| #[trigger] adds_write_scope(bj, hj, x) && f == scope_finding(path, id, x);
            }
            if secret_findings(path, id, bj, hj).contains(f) {
                let x = choose|x: Seq<char>| #[trigger] adds_secret(bj, hj, x) && f == secret_finding(path, id, x);
            }
            if action_findings(path, id, bj, hj).contains(f) {
                let x = choose|x: Seq<char>| #[trigger] adds_mutable_action(bj, hj, x) && f == action_finding(path, id, x);
            }
        }
        assert(head[key].0 == f.path);
    }
}

// ---------------------------------------------------------------------
// Laws of action references and token permissions
// ---------------------------------------------------------------------

proof fn lemma_last_index_after(s: Seq<char>, c: char, t: Seq<char>)
    requires
        forall|j: int| 0 <= j < t.len() ==> #[trigger] t[j] != c,
    ensures
        last_index_of(s.push(c) + t, c) == s.len(),
    decreases t.len(),
{
    if t.len() == 0 {
        assert(s.push(c) + t =~= s.push(c));
    } else {
        let u = s.push(c) + t;
        assert(u.drop_last() =~= s.push(c) + t.drop_last());
        assert(u.last() == t[t.len() - 1]);
        assert forall|j: int| 0 <= j < t.drop_last().len() implies #[trigger] t.drop_last()[j] != c by {
            assert(t.drop_last()[j] == t[j]);
        }
        lemma_last_index_after(s, c, t.drop_last());
    }
}


/// What follows the last '@' of `prefix@reference`, when the reference
/// holds no '@'.
proof fn lemma_reference_after_at(prefix: Seq<char>, reference: Seq<char>)
    requires
        forall|j: int| 0 <= j < reference.len() ==> #[trigger] reference[j] != '@',
    ensures
        last_index_of(prefix + "@"@ + reference, '@') == prefix.len(),
        (prefix + "@"@ + reference).skip(prefix.len() + 1int) == reference,
{
    reveal_strlit("@");
    assert(prefix + "@"@ =~= prefix.push('@'));
    lemma_last_index_after(prefix, '@', reference);
    assert((prefix + "@"@ + reference).skip(prefix.len() + 1int) =~= reference);
}

proof fn lemma_hex_digits_have_no_at(d: Seq<char>)
    requires
        forall|j: int| 0 <= j < d.len() ==> is_hex_digit(#[trigger] d[j]),
    ensures
        forall|j: int| 0 <= j < d.len() ==> #[trigger] d[j] != '@',
{
    assert forall|j: int| 0 <= j < d.len() implies #[trigger] d[j] != '@' by {
        assert(is_hex_digit(d[j]));
        if d[j] == '@' {
            assert(('@' as u32) == 0x40);
        }
    }
}

/// An action or image pinned to a full commit SHA (forty hexadecimal
/// digits after its last '@') is not a mutable reference.
pub proof fn lemma_commit_pinned_reference_is_immutable(prefix: Seq<char>, sha: Seq<char>)
    requires
        sha.len() == 40,
        forall|j: int| 0 <= j < sha.len() ==> is_hex_digit(#[trigger] sha[j]),
    ensures
        !is_mutable_action_ref(prefix + "@"@ + sha),
{
    lemma_hex_digits_have_no_at(sha);
    lemma_reference_after_at(prefix, sha);
}

/// A reference pinned to a sha256 digest ("sha256:" and sixty-four
/// hexadecimal digits after its last '@'), such as a Docker image pinned
/// by digest, is not a mutable reference.
pub proof fn lemma_digest_pinned_reference_is_immutable(prefix: Seq<char>, digest: Seq<char>)
    requires
        digest.len() == 64,
        forall|j: int| 0 <= j < digest.len() ==> is_hex_digit(#[trigger] digest[j]),
    ensures
        !is_mutable_action_ref(prefix + "@"@ + ("sha256:"@ + digest)),
{
    reveal_strlit("sha256:");
    let reference = "sha256:"@ + digest;
    lemma_hex_digits_have_no_at(digest);
    assert forall|j: int| 0 <= j < reference.len() implies #[trigger] reference[j] != '@' by {
        if j >= 7 {
            assert(reference[j] == digest[j - 7]);
        }
    }
    lemma_reference_after_at(prefix, reference);
    assert(reference.take(7) =~= "sha256:"@);
    assert(reference.skip(7) =~= digest);
    assert(is_sha256_digest(reference));
}

/// A reference whose text after its last '@' is neither forty hexadecimal
/// digits nor "sha256:" with sixty-four hexadecimal digits can change after
/// review: it is mutable.
pub proof fn lemma_unpinned_reference_is_mutable(prefix: Seq<char>, reference: Seq<char>)
    requires
        forall|j: int| 0 <= j < reference.len() ==> #[trigger] reference[j] != '@',
        !(reference.len() == 40 && forall|j: int| 0 <= j < reference.len() ==> is_hex_digit(#[trigger] reference[j])),
        !(reference.len() == 71 && reference.take(7) == "sha256:"@ && forall|j: int|
            7 <= j < reference.len() ==> is_hex_digit(#[trigger] reference[j])),
    ensures
        is_mutable_action_ref(prefix + "@"@ + reference),
{
    reveal_strlit("sha256:");
    lemma_reference_after_at(prefix, reference);
    if is_sha256_digest(reference) {
        assert forall|j: int| 7 <= j < reference.len() implies is_hex_digit(#[trigger] reference[j]) by {
            assert(reference.skip(7)[j - 7] == reference[j]);
        }
    }
}

/// A reference without any '@' is mutable exactly when it names a Docker
/// image (`docker://`): an action without a ref is a local path.
pub proof fn lemma_reference_without_at(action: Seq<char>)
    requires
        forall|j: int| 0 <= j < action.len() ==> #[trigger] action[j] != '@',
    ensures
        is_mutable_action_ref(action) <==> starts_with(action, "docker://"@),
{
    lemma_last_index_none(action, '@');
}

proof fn lemma_last_index_none(s: Seq<char>, c: char)
    requires
        forall|j: int| 0 <= j < s.len() ==> #[trigger] s[j] != c,
    ensures
        last_index_of(s, c) == -1,
    decreases s.len(),
{
    if s.len() > 0 {
        assert(s.last() == s[s.len() - 1]);
        assert forall|j: int| 0 <= j < s.drop_last().len() implies #[trigger] s.drop_last()[j] != c by {
            assert(s.drop_last()[j] == s[j]);
        }
        lemma_last_index_none(s.drop_last(), c);
    }
}

/// Only a base job that holds exactly `write-all` hides a new write scope:
/// against any other base job (or none) that lacks `scope: write`, a head
/// job gaining `scope: write` (other than `id-token`) is reported.
pub proof fn lemma_new_write_scope_is_reported(
    path: Seq<char>,
    id: Seq<char>,
    base: Option<JobView>,
    head: JobView,
    scope: Seq<char>,
)
    requires
        head.permissions.contains_key(scope),
        head.permissions[scope] == "write"@,
        scope != "id-token"@,
        base matches Some(b) ==> b.permissions_all != Some("write-all"@) && !(b.permissions.contains_key(
            scope,
        ) && b.permissions[scope] == "write"@),
    ensures
        job_findings(path, id, base, head).contains(scope_finding(path, id, scope)),
        job_findings(path, id, base, head).contains(
            FindingView {
                severity: Severity::High,
                path,
                job: Some(id),
                category: "token-permission"@,
                message: "Added "@ + scope + ": write token permission."@,
                remediation: "Set the scope to read or none and grant write only in a narrowly scoped, reviewed job."@,
            },
        ),
{
    assert(adds_write_scope(base, head, scope));
    assert(scope_findings(path, id, base, head).contains(scope_finding(path, id, scope)));
}

/// The same at the level of a comparison: a head job that gains a write
/// scope over a base job (or a missing one) that is not `write-all` and
/// lacks that scope yields its finding in the report.
pub proof fn lemma_new_write_scope_is_in_report(
    base: Map<Seq<PathPart>, (Seq<char>, WorkflowView)>,
    head: Map<Seq<PathPart>, (Seq<char>, WorkflowView)>,
    key: Seq<PathPart>,
    id: Seq<char>,
    scope: Seq<char>,
)
    requires
        head.contains_key(key),
        head[key].1.jobs.contains_key(id),
        head[key].1.jobs[id].permissions.contains_key(scope),
        head[key].1.jobs[id].permissions[scope] == "write"@,
        scope != "id-token"@,
        base_job(base_workflow(base, key), id) matches Some(b) ==> b.permissions_all != Some(
            "write-all"@,
        ) && !(b.permissions.contains_key(scope) && b.permissions[scope] == "write"@),
    ensures
        report(base, head).contains(scope_finding(head[key].0, id, scope)),
{
    let path = head[key].0;
    let w = head[key].1;
    let b = base_workflow(base, key);
    lemma_new_write_scope_is_reported(path, id, base_job(b, id), w.jobs[id], scope);
    assert(all_job_findings(path, b, w).contains(scope_finding(path, id, scope)));
    assert(workflow_findings(path, b, w).contains(scope_finding(path, id, scope)));
}

} // verus!
