use vstd::prelude::*;

use crate::collections::{string_views, StringMap, StringSet};
use crate::expr::{
    access_views, context_accesses, context_accesses_exec, has_non_symbolic_secret_text, is_dynamic,
    is_dynamic_exec, has_untrusted_context, has_untrusted_context_exec,
    is_secret_name, is_secret_name_exec, secret_names,
};
use crate::text::chars_of;
use crate::model::{option_string_view, JobCapability, JobView, WorkflowCapability, WorkflowView};
use crate::text::{concat2, concat3, decimal, decimal_string, str_eq};
use crate::yaml::{mapping_insert, parse_yaml, parsed_yaml, yaml_eq, YamlError, key_index, key_index_exec, mapping_extend, mapping_extend_exec, as_mapping, as_mapping_exec, as_sequence, as_sequence_exec, as_str, as_str_exec, deref_entries, value_at, value_at_exec, Yaml};

verus! {

// ---------------------------------------------------------------------
// Secret references
// ---------------------------------------------------------------------

/// The symbolic secret names that the strings of a value read, in keys and
/// values alike. Tagged values and other scalars contribute none.
pub open spec fn secret_refs(y: Yaml) -> Set<Seq<char>>
    decreases y, 0int,
{
    match y {
        Yaml::Str(t) => secret_names(t@),
        Yaml::Sequence(xs) => items_secret_refs(xs@, 0),
        Yaml::Mapping(es) => entries_secret_refs(es@, 0),
        _ => Set::empty(),
    }
}

pub open spec fn items_secret_refs(xs: Seq<Yaml>, i: int) -> Set<Seq<char>>
    decreases xs, xs.len() - i,
{
    if i < 0 || i >= xs.len() {
        Set::empty()
    } else {
        secret_refs(xs[i]).union(items_secret_refs(xs, i + 1))
    }
}

pub open spec fn entries_secret_refs(es: Seq<(Yaml, Yaml)>, i: int) -> Set<Seq<char>>
    decreases es, es.len() - i,
{
    if i < 0 || i >= es.len() {
        Set::empty()
    } else {
        entry_secret_refs(es[i]).union(entries_secret_refs(es, i + 1))
    }
}

pub open spec fn entry_secret_refs(e: (Yaml, Yaml)) -> Set<Seq<char>>
    decreases e, 0int,
{
    secret_refs(e.0).union(secret_refs(e.1))
}

/// Whether some string of a value reads secrets other than by a symbolic name.
pub open spec fn non_symbolic(y: Yaml) -> bool
    decreases y, 0int,
{
    match y {
        Yaml::Str(t) => has_non_symbolic_secret_text(t@),
        Yaml::Sequence(xs) => items_non_symbolic(xs@, 0),
        Yaml::Mapping(es) => entries_non_symbolic(es@, 0),
        _ => false,
    }
}

pub open spec fn items_non_symbolic(xs: Seq<Yaml>, i: int) -> bool
    decreases xs, xs.len() - i,
{
    if i < 0 || i >= xs.len() {
        false
    } else {
        non_symbolic(xs[i]) || items_non_symbolic(xs, i + 1)
    }
}

pub open spec fn entries_non_symbolic(es: Seq<(Yaml, Yaml)>, i: int) -> bool
    decreases es, es.len() - i,
{
    if i < 0 || i >= es.len() {
        false
    } else {
        entry_non_symbolic(es[i]) || entries_non_symbolic(es, i + 1)
    }
}

pub open spec fn entry_non_symbolic(e: (Yaml, Yaml)) -> bool
    decreases e, 0int,
{
    non_symbolic(e.0) || non_symbolic(e.1)
}

/// Adds the symbolic secret names that the expressions of a text read.
pub fn collect_secret_names(text: &str, secrets: &mut StringSet)
    ensures
        final(secrets)@ == old(secrets)@.union(secret_names(text@)),
{
    let chars = chars_of(text);
    let context = chars_of("secrets");
    let accesses = context_accesses_exec(chars.as_slice(), context.as_slice());
    let ghost av = access_views(accesses@);
    let ghost start = secrets@;
    let mut i: usize = 0;
    while i < accesses.len()
        invariant
            av == access_views(accesses@),
            av == context_accesses(text@, "secrets"@),
            i <= accesses@.len(),
            secrets@ == start.union(
                Set::new(|n: Seq<char>| av.take(i as int).contains(Some(n)) && is_secret_name(n)),
            ),
        decreases accesses@.len() - i,
    {
        let ghost before = secrets@;
        assert(av[i as int] == match accesses@[i as int] {
            Some(p) => Some(p@),
            None => None::<Seq<char>>,
        });
        match &accesses[i] {
            Some(name) => {
                if is_secret_name_exec(name.as_slice()) {
                    let s = crate::text::string_of(name.as_slice());
                    secrets.insert(s);
                }
            },
            None => {},
        }
        proof {
            assert(av.take(i + 1) =~= av.take(i as int).push(av[i as int]));
            assert(secrets@ =~= start.union(
                Set::new(|n: Seq<char>| av.take(i + 1).contains(Some(n)) && is_secret_name(n)),
            )) by {
                assert forall|n: Seq<char>| av.take(i + 1).contains(Some(n)) implies av.take(i as int).contains(Some(n)) || av[i as int] == Some(n) by {
                    let k = choose|k: int| 0 <= k < av.take(i + 1).len() && #[trigger] av.take(i + 1)[k] == Some(n);
                    if k < i {
                        assert(av.take(i as int)[k] == Some(n));
                    }
                }
                assert forall|n: Seq<char>| av.take(i as int).contains(Some(n)) implies av.take(i + 1).contains(Some(n)) by {
                    let k = choose|k: int| 0 <= k < av.take(i as int).len() && #[trigger] av.take(i as int)[k] == Some(n);
                    assert(av.take(i + 1)[k] == Some(n));
                }
                if av[i as int] is Some {
                    assert(av.take(i + 1)[i as int] == av[i as int]);
                }
            }
        }
        i = i + 1;
    }
    assert(av.take(i as int) =~= av);
    assert(secrets@ =~= start.union(secret_names(text@)));
}

/// Whether the expressions of a text read secrets other than by name.
pub fn has_non_symbolic_secret_text_exec(text: &str) -> (r: bool)
    ensures
        r == has_non_symbolic_secret_text(text@),
{
    let chars = chars_of(text);
    let context = chars_of("secrets");
    let accesses = context_accesses_exec(chars.as_slice(), context.as_slice());
    let ghost av = access_views(accesses@);
    let mut i: usize = 0;
    while i < accesses.len()
        invariant
            av == access_views(accesses@),
            av == context_accesses(text@, "secrets"@),
            i <= accesses@.len(),
            forall|j: int| 0 <= j < i ==> !(#[trigger] av[j] is None || !is_secret_name(av[j]->0)),
        decreases accesses@.len() - i,
    {
        assert(av[i as int] == match accesses@[i as int] {
            Some(p) => Some(p@),
            None => None::<Seq<char>>,
        });
        match &accesses[i] {
            None => {
                return true;
            },
            Some(name) => {
                if !is_secret_name_exec(name.as_slice()) {
                    return true;
                }
            },
        }
        i = i + 1;
    }
    false
}

/// Adds the symbolic secret names that the strings of a value read.
pub fn collect_secret_references(y: &Yaml, secrets: &mut StringSet)
    ensures
        final(secrets)@ == old(secrets)@.union(secret_refs(*y)),
    decreases y, 0int,
{
    match y {
        Yaml::Str(t) => collect_secret_names(t.as_str(), secrets),
        Yaml::Sequence(xs) => collect_items_secret_refs(xs, 0, secrets),
        Yaml::Mapping(es) => collect_entries_secret_refs(es, 0, secrets),
        _ => {
            assert(old(secrets)@.union(Set::empty()) =~= old(secrets)@);
        },
    }
}

fn collect_items_secret_refs(xs: &Vec<Yaml>, i: usize, secrets: &mut StringSet)
    requires
        i <= xs@.len(),
    ensures
        final(secrets)@ == old(secrets)@.union(items_secret_refs(xs@, i as int)),
    decreases xs@, xs@.len() - i,
{
    if i >= xs.len() {
        assert(old(secrets)@.union(Set::empty()) =~= old(secrets)@);
    } else {
        collect_secret_references(&xs[i], secrets);
        collect_items_secret_refs(xs, i + 1, secrets);
        assert(secrets@ =~= old(secrets)@.union(items_secret_refs(xs@, i as int)));
    }
}

fn collect_entries_secret_refs(es: &Vec<(Yaml, Yaml)>, i: usize, secrets: &mut StringSet)
    requires
        i <= es@.len(),
    ensures
        final(secrets)@ == old(secrets)@.union(entries_secret_refs(es@, i as int)),
    decreases es@, es@.len() - i,
{
    if i >= es.len() {
        assert(old(secrets)@.union(Set::empty()) =~= old(secrets)@);
    } else {
        collect_entry_secret_refs(&es[i], secrets);
        collect_entries_secret_refs(es, i + 1, secrets);
        assert(secrets@ =~= old(secrets)@.union(entries_secret_refs(es@, i as int)));
    }
}

fn collect_entry_secret_refs(e: &(Yaml, Yaml), secrets: &mut StringSet)
    ensures
        final(secrets)@ == old(secrets)@.union(entry_secret_refs(*e)),
    decreases *e, 0int,
{
    collect_secret_references(&e.0, secrets);
    collect_secret_references(&e.1, secrets);
    assert(secrets@ =~= old(secrets)@.union(entry_secret_refs(*e)));
}

/// Whether some string of a value reads secrets other than by name.
pub fn has_non_symbolic_secret_access(y: &Yaml) -> (r: bool)
    ensures
        r == non_symbolic(*y),
    decreases y, 0int,
{
    match y {
        Yaml::Str(t) => has_non_symbolic_secret_text_exec(t.as_str()),
        Yaml::Sequence(xs) => items_non_symbolic_exec(xs, 0),
        Yaml::Mapping(es) => entries_non_symbolic_exec(es, 0),
        _ => false,
    }
}

fn items_non_symbolic_exec(xs: &Vec<Yaml>, i: usize) -> (r: bool)
    requires
        i <= xs@.len(),
    ensures
        r == items_non_symbolic(xs@, i as int),
    decreases xs@, xs@.len() - i,
{
    if i >= xs.len() {
        false
    } else {
        has_non_symbolic_secret_access(&xs[i]) || items_non_symbolic_exec(xs, i + 1)
    }
}

fn entries_non_symbolic_exec(es: &Vec<(Yaml, Yaml)>, i: usize) -> (r: bool)
    requires
        i <= es@.len(),
    ensures
        r == entries_non_symbolic(es@, i as int),
    decreases es@, es@.len() - i,
{
    if i >= es.len() {
        false
    } else {
        entry_non_symbolic_exec(&es[i]) || entries_non_symbolic_exec(es, i + 1)
    }
}

fn entry_non_symbolic_exec(e: &(Yaml, Yaml)) -> (r: bool)
    ensures
        r == entry_non_symbolic(*e),
    decreases *e, 0int,
{
    has_non_symbolic_secret_access(&e.0) || has_non_symbolic_secret_access(&e.1)
}

// ---------------------------------------------------------------------
// Triggers
// ---------------------------------------------------------------------

/// Trigger names found so far, with the warnings so far.
pub type TriggerAcc = (Set<Seq<char>>, Seq<Seq<char>>);

/// One entry of a trigger list.
pub open spec fn trigger_item(acc: TriggerAcc, y: Yaml) -> TriggerAcc {
    match as_str(y) {
        Some(t) => (acc.0.insert(t), acc.1),
        None => (acc.0, acc.1.push("workflow trigger list contains a non-string value"@)),
    }
}

pub open spec fn trigger_items(acc: TriggerAcc, xs: Seq<Yaml>, i: int) -> TriggerAcc
    decreases xs.len() - i,
{
    if i < 0 || i >= xs.len() {
        acc
    } else {
        trigger_items(trigger_item(acc, xs[i]), xs, i + 1)
    }
}

/// One event of a trigger mapping and its configuration.
pub open spec fn trigger_entry(acc: TriggerAcc, e: (Yaml, Yaml)) -> TriggerAcc {
    match as_str(e.0) {
        Some(t) => (
            acc.0.insert(t),
            if e.1 is Null || e.1 is Mapping {
                acc.1
            } else {
                acc.1.push("workflow trigger "@ + t + " configuration must be a mapping or null"@)
            },
        ),
        None => (acc.0, acc.1.push("workflow trigger map contains a non-string event name"@)),
    }
}

pub open spec fn trigger_entries(acc: TriggerAcc, es: Seq<(Yaml, Yaml)>, i: int) -> TriggerAcc
    decreases es.len() - i,
{
    if i < 0 || i >= es.len() {
        acc
    } else {
        trigger_entries(trigger_entry(acc, es[i]), es, i + 1)
    }
}

/// The triggers of an `on` value: a single event name, a list of names, or
/// a mapping from names to configurations.
pub open spec fn triggers_of(acc: TriggerAcc, v: Yaml) -> TriggerAcc {
    match v {
        Yaml::Str(t) => (acc.0.insert(t@), acc.1),
        Yaml::Sequence(xs) => trigger_items(acc, xs@, 0),
        Yaml::Mapping(es) => trigger_entries(acc, es@, 0),
        _ => (acc.0, acc.1.push("workflow triggers must be a string, list, or mapping"@)),
    }
}

/// Appends a warning.
fn warn(warnings: &mut Vec<String>, w: String)
    ensures
        string_views(final(warnings)@) == string_views(old(warnings)@).push(w@),
{
    warnings.push(w);
    assert(string_views(warnings@) =~= string_views(old(warnings)@).push(w@));
}

/// Appends a warning given as a literal.
fn warn_str(warnings: &mut Vec<String>, w: &str)
    ensures
        string_views(final(warnings)@) == string_views(old(warnings)@).push(w@),
{
    warn(warnings, String::from_str(w));
}

/// Records the triggers of an `on` value.
pub fn collect_triggers(value: &Yaml, triggers: &mut StringSet, warnings: &mut Vec<String>)
    ensures
        (final(triggers)@, string_views(final(warnings)@)) == triggers_of(
            (old(triggers)@, string_views(old(warnings)@)),
            *value,
        ),
{
    match value {
        Yaml::Str(t) => {
            triggers.insert(t.clone());
        },
        Yaml::Sequence(xs) => {
            let ghost target = trigger_items((triggers@, string_views(warnings@)), xs@, 0);
            let mut i: usize = 0;
            while i < xs.len()
                invariant
                    i <= xs@.len(),
                    trigger_items((triggers@, string_views(warnings@)), xs@, i as int) == target,
                decreases xs@.len() - i,
            {
                match as_str_exec(&xs[i]) {
                    Some(t) => {
                        triggers.insert(t.clone());
                    },
                    None => {
                        warn_str(warnings, "workflow trigger list contains a non-string value");
                    },
                }
                i = i + 1;
            }
        },
        Yaml::Mapping(es) => {
            let ghost target = trigger_entries((triggers@, string_views(warnings@)), es@, 0);
            let mut i: usize = 0;
            while i < es.len()
                invariant
                    i <= es@.len(),
                    trigger_entries((triggers@, string_views(warnings@)), es@, i as int) == target,
                decreases es@.len() - i,
            {
                let (key, configuration) = &es[i];
                match as_str_exec(key) {
                    Some(t) => {
                        triggers.insert(t.clone());
                        match configuration {
                            Yaml::Null => {},
                            Yaml::Mapping(_) => {},
                            _ => {
                                warn(warnings, concat3(
                                    "workflow trigger ",
                                    t.as_str(),
                                    " configuration must be a mapping or null",
                                ));
                            },
                        }
                    },
                    None => {
                        warn_str(warnings, "workflow trigger map contains a non-string event name");
                    },
                }
                i = i + 1;
            }
        },
        _ => {
            warn_str(warnings, "workflow triggers must be a string, list, or mapping");
        },
    }
}

// ---------------------------------------------------------------------
// Permissions
// ---------------------------------------------------------------------

/// Scopes and their access levels so far, with the warnings so far.
pub type PermissionAcc = (Map<Seq<char>, Seq<char>>, Seq<Seq<char>>);

/// The access levels that GitHub defines for a scope.
pub open spec fn is_known_access(a: Seq<char>) -> bool {
    a == "read"@ || a == "write"@ || a == "none"@
}

/// One scope of a permission mapping. An unknown access level is kept, and
/// warned about by its scope alone: the warning never repeats the value.
pub open spec fn permission_entry(acc: PermissionAcc, e: (Yaml, Yaml), context: Seq<char>) -> PermissionAcc {
    match (as_str(e.0), as_str(e.1)) {
        (Some(scope), Some(access)) => (
            acc.0.insert(scope, access),
            if is_known_access(access) {
                acc.1
            } else {
                acc.1.push(context + " permission "@ + scope + " has unsupported access level"@)
            },
        ),
        _ => (acc.0, acc.1.push(context + " permissions contain a non-string scope or access level"@)),
    }
}

pub open spec fn permission_entries(
    acc: PermissionAcc,
    es: Seq<(Yaml, Yaml)>,
    context: Seq<char>,
    i: int,
) -> PermissionAcc
    decreases es.len() - i,
{
    if i < 0 || i >= es.len() {
        acc
    } else {
        permission_entries(permission_entry(acc, es[i], context), es, context, i + 1)
    }
}

/// The permissions that a `permissions` value declares: the scope map, the
/// `read-all` or `write-all` shorthand, and the warnings after `w`.
pub open spec fn permissions_of(v: Yaml, context: Seq<char>, w: Seq<Seq<char>>) -> (
    Map<Seq<char>, Seq<char>>,
    Option<Seq<char>>,
    Seq<Seq<char>>,
) {
    if as_str(v) == Some("read-all"@) || as_str(v) == Some("write-all"@) {
        (Map::empty(), as_str(v), w)
    } else {
        match as_mapping(v) {
            Some(es) => {
                let r = permission_entries((Map::empty(), w), es, context, 0);
                (r.0, None, r.1)
            },
            None => (Map::empty(), None, w.push(context + " permissions must be a mapping"@)),
        }
    }
}

/// Reads a `permissions` value; `context` names its place in warnings.
pub fn collect_permissions(value: &Yaml, context: &str, warnings: &mut Vec<String>) -> (r: (
    StringMap<String>,
    Option<String>,
))
    ensures
        (r.0@, option_string_view(r.1), string_views(final(warnings)@)) == permissions_of(
            *value,
            context@,
            string_views(old(warnings)@),
        ),
{
    if let Some(access) = as_str_exec(value) {
        if str_eq(access.as_str(), "read-all") || str_eq(access.as_str(), "write-all") {
            proof {
                reveal_strlit("read-all");
                reveal_strlit("write-all");
            }
            return (StringMap::new(), Some(access.clone()));
        }
    }
    let es = match as_mapping_exec(value) {
        Some(es) => es,
        None => {
            warn(warnings, concat2(context, " permissions must be a mapping"));
            return (StringMap::new(), None);
        },
    };
    let mut scopes: StringMap<String> = StringMap::new();
    let ghost target = permission_entries((scopes@, string_views(warnings@)), es@, context@, 0);
    let mut i: usize = 0;
    while i < es.len()
        invariant
            i <= es@.len(),
            permission_entries((scopes@, string_views(warnings@)), es@, context@, i as int) == target,
        decreases es@.len() - i,
    {
        let (scope, access) = &es[i];
        match (as_str_exec(scope), as_str_exec(access)) {
            (Some(scope), Some(access)) => {
                let known = str_eq(access.as_str(), "read") || str_eq(access.as_str(), "write")
                    || str_eq(access.as_str(), "none");
                if !known {
                    let w = concat3(context, " permission ", scope.as_str());
                    warn(warnings, concat2(w.as_str(), " has unsupported access level"));
                }
                scopes.insert(scope.clone(), access.clone());
            },
            _ => {
                warn(warnings, concat2(context, " permissions contain a non-string scope or access level"));
            },
        }
        i = i + 1;
    }
    (scopes, None)
}

// ---------------------------------------------------------------------
// Runners
// ---------------------------------------------------------------------

/// Runner labels found so far, with the warnings so far.
pub type RunnerAcc = (Set<Seq<char>>, Seq<Seq<char>>);

/// A runner label: a dynamic one cannot be known and is warned about.
pub open spec fn runner_label(acc: RunnerAcc, r: Seq<char>, job: Seq<char>) -> RunnerAcc {
    if is_dynamic(r) {
        (acc.0, acc.1.push("job "@ + job + " runner label is dynamic"@))
    } else {
        (acc.0.insert(r), acc.1)
    }
}

/// The runners of a `runs-on` value: a label, a list of labels, or a
/// mapping with `group` and `labels`.
pub open spec fn runners_of(acc: RunnerAcc, v: Yaml, job: Seq<char>) -> RunnerAcc
    decreases v, 0int,
{
    match v {
        Yaml::Str(r) => runner_label(acc, r@, job),
        Yaml::Sequence(xs) => runner_items(acc, xs@, job, 0),
        Yaml::Mapping(es) => runner_entries(acc, es@, job, 0),
        _ => (acc.0, acc.1.push("job "@ + job + " runs-on must be a string or list"@)),
    }
}

pub open spec fn runner_items(acc: RunnerAcc, xs: Seq<Yaml>, job: Seq<char>, i: int) -> RunnerAcc
    decreases xs, xs.len() - i,
{
    if i < 0 || i >= xs.len() {
        acc
    } else {
        let next = match as_str(xs[i]) {
            Some(r) => runner_label(acc, r, job),
            None => (acc.0, acc.1.push("job "@ + job + " runner list contains a non-string label"@)),
        };
        runner_items(next, xs, job, i + 1)
    }
}

pub open spec fn runner_entries(acc: RunnerAcc, es: Seq<(Yaml, Yaml)>, job: Seq<char>, i: int) -> RunnerAcc
    decreases es, es.len() - i,
{
    if i < 0 || i >= es.len() {
        acc
    } else {
        runner_entries(runner_entry(acc, es[i], job), es, job, i + 1)
    }
}

/// One key of a `runs-on` mapping.
pub open spec fn runner_entry(acc: RunnerAcc, e: (Yaml, Yaml), job: Seq<char>) -> RunnerAcc
    decreases e, 0int,
{
    match as_str(e.0) {
        None => (acc.0, acc.1.push("job "@ + job + " runs-on contains a non-string key"@)),
        Some(k) => if k == "group"@ {
            (
                acc.0,
                acc.1.push(
                    match as_str(e.1) {
                        Some(g) => if !is_dynamic(g) {
                            "job "@ + job + " runner group is an unsupported runner-group capability"@
                        } else {
                            "job "@ + job + " runner group is dynamic"@
                        },
                        None => "job "@ + job + " runner group must be a string"@,
                    },
                ),
            )
        } else if k == "labels"@ {
            runners_of(acc, e.1, job)
        } else {
            (acc.0, acc.1.push("job "@ + job + " runs-on contains unsupported key "@ + k))
        },
    }
}

fn collect_runner_label(runner: &String, job_id: &str, runners: &mut StringSet, warnings: &mut Vec<String>)
    ensures
        (final(runners)@, string_views(final(warnings)@)) == runner_label(
            (old(runners)@, string_views(old(warnings)@)),
            runner@,
            job_id@,
        ),
{
    let chars = chars_of(runner.as_str());
    if is_dynamic_exec(chars.as_slice()) {
        warn(warnings, concat3("job ", job_id, " runner label is dynamic"));
    } else {
        runners.insert(runner.clone());
    }
}

/// Records the runner labels of a `runs-on` value.
pub fn collect_runners(value: &Yaml, job_id: &str, runners: &mut StringSet, warnings: &mut Vec<String>)
    ensures
        (final(runners)@, string_views(final(warnings)@)) == runners_of(
            (old(runners)@, string_views(old(warnings)@)),
            *value,
            job_id@,
        ),
    decreases value, 0int,
{
    match value {
        Yaml::Str(r) => collect_runner_label(r, job_id, runners, warnings),
        Yaml::Sequence(xs) => collect_runner_items(xs, job_id, 0, runners, warnings),
        Yaml::Mapping(es) => collect_runner_entries(es, job_id, 0, runners, warnings),
        _ => {
            warn(warnings, concat3("job ", job_id, " runs-on must be a string or list"));
        },
    }
}

fn collect_runner_items(
    xs: &Vec<Yaml>,
    job_id: &str,
    i: usize,
    runners: &mut StringSet,
    warnings: &mut Vec<String>,
)
    requires
        i <= xs@.len(),
    ensures
        (final(runners)@, string_views(final(warnings)@)) == runner_items(
            (old(runners)@, string_views(old(warnings)@)),
            xs@,
            job_id@,
            i as int,
        ),
    decreases xs@, xs@.len() - i,
{
    if i < xs.len() {
        match as_str_exec(&xs[i]) {
            Some(r) => collect_runner_label(r, job_id, runners, warnings),
            None => {
                warn(warnings, concat3("job ", job_id, " runner list contains a non-string label"));
            },
        }
        collect_runner_items(xs, job_id, i + 1, runners, warnings);
    }
}

fn collect_runner_entries(
    es: &Vec<(Yaml, Yaml)>,
    job_id: &str,
    i: usize,
    runners: &mut StringSet,
    warnings: &mut Vec<String>,
)
    requires
        i <= es@.len(),
    ensures
        (final(runners)@, string_views(final(warnings)@)) == runner_entries(
            (old(runners)@, string_views(old(warnings)@)),
            es@,
            job_id@,
            i as int,
        ),
    decreases es@, es@.len() - i,
{
    if i < es.len() {
        collect_runner_entry(&es[i], job_id, runners, warnings);
        collect_runner_entries(es, job_id, i + 1, runners, warnings);
    }
}

fn collect_runner_entry(e: &(Yaml, Yaml), job_id: &str, runners: &mut StringSet, warnings: &mut Vec<String>)
    ensures
        (final(runners)@, string_views(final(warnings)@)) == runner_entry(
            (old(runners)@, string_views(old(warnings)@)),
            *e,
            job_id@,
        ),
    decreases *e, 0int,
{
    let key = match as_str_exec(&e.0) {
        Some(k) => k,
        None => {
            warn(warnings, concat3("job ", job_id, " runs-on contains a non-string key"));
            return;
        },
    };
    proof {
        reveal_strlit("group");
        reveal_strlit("labels");
    }
    if str_eq(key.as_str(), "group") {
        match as_str_exec(&e.1) {
            Some(g) => {
                let chars = chars_of(g.as_str());
                if !is_dynamic_exec(chars.as_slice()) {
                    warn(warnings, concat3(
                        "job ",
                        job_id,
                        " runner group is an unsupported runner-group capability",
                    ));
                } else {
                    warn(warnings, concat3("job ", job_id, " runner group is dynamic"));
                }
            },
            None => {
                warn(warnings, concat3("job ", job_id, " runner group must be a string"));
            },
        }
    } else if str_eq(key.as_str(), "labels") {
        collect_runners(&e.1, job_id, runners, warnings);
    } else {
        let w = concat3("job ", job_id, " runs-on contains unsupported key ");
        warn(warnings, concat2(w.as_str(), key.as_str()));
    }
}

// ---------------------------------------------------------------------
// Job values: secrets, actions and scripts
// ---------------------------------------------------------------------

/// A job's capabilities as read so far, with the warnings so far.
pub type JobAcc = (JobView, Seq<Seq<char>>);

/// A `uses` value: the action reference it names.
pub open spec fn action_reference(acc: JobAcc, v: Yaml, job: Seq<char>) -> JobAcc {
    match as_str(v) {
        Some(a) => (JobView { action_refs: acc.0.action_refs.push(a), ..acc.0 }, acc.1),
        None => (acc.0, acc.1.push("job "@ + job + " uses must be a string"@)),
    }
}

/// One step: its action reference and whether its script reads
/// attacker-controlled context.
pub open spec fn step_values(acc: JobAcc, step: Yaml, job: Seq<char>) -> JobAcc {
    match as_mapping(step) {
        None => (acc.0, acc.1.push("job "@ + job + " steps contain a non-mapping value"@)),
        Some(st) => {
            let a = match value_at(st, "uses"@) {
                Some(u) => action_reference(acc, u, job),
                None => acc,
            };
            match value_at(st, "run"@) {
                Some(run) => match as_str(run) {
                    Some(script) => (
                        JobView {
                            untrusted_script_context: a.0.untrusted_script_context
                                || has_untrusted_context(script),
                            ..a.0
                        },
                        a.1,
                    ),
                    None => (a.0, a.1.push("job "@ + job + " step run must be a string"@)),
                },
                None => a,
            }
        },
    }
}

pub open spec fn steps_values(acc: JobAcc, xs: Seq<Yaml>, job: Seq<char>, i: int) -> JobAcc
    decreases xs.len() - i,
{
    if i < 0 || i >= xs.len() {
        acc
    } else {
        steps_values(step_values(acc, xs[i], job), xs, job, i + 1)
    }
}

/// Whether a job passes all of its caller's secrets on (`secrets: inherit`).
pub open spec fn inherits_secrets(job: Seq<(Yaml, Yaml)>) -> bool {
    match value_at(job, "secrets"@) {
        Some(s) => as_str(s) == Some("inherit"@),
        None => false,
    }
}

/// What a job's own mapping shows: the secrets its strings read, its
/// action references, and whether a step script reads untrusted context.
pub open spec fn job_values(acc: JobAcc, job: Seq<(Yaml, Yaml)>, id: Seq<char>) -> JobAcc {
    let a1 = (JobView { secrets: acc.0.secrets.union(entries_secret_refs(job, 0)), ..acc.0 }, acc.1);
    let a2 = if inherits_secrets(job) {
        (a1.0, a1.1.push("job "@ + id + " inherits secrets with unknown secret access"@))
    } else {
        a1
    };
    let a3 = if entries_non_symbolic(job, 0) {
        (a2.0, a2.1.push("job "@ + id + " uses non-symbolic secrets with unknown secret access"@))
    } else {
        a2
    };
    let a4 = match value_at(job, "uses"@) {
        Some(u) => action_reference(a3, u, id),
        None => a3,
    };
    match value_at(job, "steps"@) {
        None => a4,
        Some(steps) => match as_sequence(steps) {
            None => (a4.0, a4.1.push("job "@ + id + " steps must be a list"@)),
            Some(xs) => steps_values(a4, xs, id, 0),
        },
    }
}

fn collect_action_reference(value: &Yaml, job_id: &str, capability: &mut JobCapability, warnings: &mut Vec<String>)
    ensures
        (final(capability)@, string_views(final(warnings)@)) == action_reference(
            (old(capability)@, string_views(old(warnings)@)),
            *value,
            job_id@,
        ),
{
    match as_str_exec(value) {
        Some(action) => {
            capability.action_refs.push(action.clone());
            assert(string_views(capability.action_refs@) =~= string_views(
                old(capability).action_refs@,
            ).push(action@));
        },
        None => {
            warn(warnings, concat3("job ", job_id, " uses must be a string"));
        },
    }
}

fn collect_step_values(step: &Yaml, job_id: &str, capability: &mut JobCapability, warnings: &mut Vec<String>)
    ensures
        (final(capability)@, string_views(final(warnings)@)) == step_values(
            (old(capability)@, string_views(old(warnings)@)),
            *step,
            job_id@,
        ),
{
    let st = match as_mapping_exec(step) {
        Some(st) => st,
        None => {
            warn(warnings, concat3("job ", job_id, " steps contain a non-mapping value"));
            return;
        },
    };
    if let Some(uses) = value_at_exec(st, "uses") {
        collect_action_reference(uses, job_id, capability, warnings);
    }
    if let Some(run) = value_at_exec(st, "run") {
        match as_str_exec(run) {
            Some(script) => {
                let chars = chars_of(script.as_str());
                let untrusted = has_untrusted_context_exec(chars.as_slice());
                capability.untrusted_script_context = capability.untrusted_script_context || untrusted;
            },
            None => {
                warn(warnings, concat3("job ", job_id, " step run must be a string"));
            },
        }
    }
}

/// Records what a job's own mapping shows.
pub fn collect_job_values(
    job: &Vec<(Yaml, Yaml)>,
    job_id: &str,
    capability: &mut JobCapability,
    warnings: &mut Vec<String>,
)
    ensures
        (final(capability)@, string_views(final(warnings)@)) == job_values(
            (old(capability)@, string_views(old(warnings)@)),
            job@,
            job_id@,
        ),
{
    collect_entries_secret_refs(job, 0, &mut capability.secrets);
    let inherits = match value_at_exec(job, "secrets") {
        Some(s) => match as_str_exec(s) {
            Some(t) => str_eq(t.as_str(), "inherit"),
            None => false,
        },
        None => false,
    };
    proof {
        reveal_strlit("inherit");
    }
    if inherits {
        warn(warnings, concat3("job ", job_id, " inherits secrets with unknown secret access"));
    }
    if entries_non_symbolic_exec(job, 0) {
        warn(warnings, concat3("job ", job_id, " uses non-symbolic secrets with unknown secret access"));
    }
    if let Some(uses) = value_at_exec(job, "uses") {
        collect_action_reference(uses, job_id, capability, warnings);
    }
    if let Some(steps) = value_at_exec(job, "steps") {
        let xs = match as_sequence_exec(steps) {
            Some(xs) => xs,
            None => {
                warn(warnings, concat3("job ", job_id, " steps must be a list"));
                return;
            },
        };
        let ghost target = steps_values((capability@, string_views(warnings@)), xs@, job_id@, 0);
        let mut i: usize = 0;
        while i < xs.len()
            invariant
                i <= xs@.len(),
                steps_values((capability@, string_views(warnings@)), xs@, job_id@, i as int) == target,
            decreases xs@.len() - i,
        {
            collect_step_values(&xs[i], job_id, capability, warnings);
            i = i + 1;
        }
    }
}

// ---------------------------------------------------------------------
// Environment inherited from the workflow
// ---------------------------------------------------------------------

/// The value behind an optional reference.
pub open spec fn opt_deref(o: Option<&Yaml>) -> Option<Yaml> {
    match o {
        Some(y) => Some(*y),
        None => None,
    }
}

/// The env that a job's steps start from: the workflow's env with the job's
/// own env mapping inserted over it.
pub open spec fn effective_env(wenv: Seq<(Yaml, Yaml)>, job: Seq<(Yaml, Yaml)>) -> Seq<(Yaml, Yaml)> {
    match value_at(job, "env"@) {
        Some(je) => match as_mapping(je) {
            Some(jm) => mapping_extend(wenv, jm),
            None => wenv,
        },
        None => wenv,
    }
}

/// Whether an env mapping sets a key of the effective env.
pub open spec fn env_overrides(em: Seq<(Yaml, Yaml)>, effective: Seq<(Yaml, Yaml)>) -> bool {
    exists|k: int| 0 <= k < em.len() && key_index(effective, #[trigger] em[k].0) >= 0
}

/// Whether a step's own env may replace a variable of the effective env:
/// it sets one of its keys, or its env is not a mapping.
pub open spec fn step_overrides(step: Yaml, effective: Seq<(Yaml, Yaml)>) -> bool {
    match as_mapping(step) {
        Some(st) => match value_at(st, "env"@) {
            Some(env) => match as_mapping(env) {
                None => true,
                Some(em) => env_overrides(em, effective),
            },
            None => false,
        },
        None => false,
    }
}

/// Whether one of the steps may replace a variable of the effective env.
pub open spec fn some_step_overrides(xs: Seq<Yaml>, effective: Seq<(Yaml, Yaml)>) -> bool {
    exists|i: int| 0 <= i < xs.len() && step_overrides(#[trigger] xs[i], effective)
}

/// Whether some step of a job may replace a variable of the effective env.
pub open spec fn has_step_override(job: Seq<(Yaml, Yaml)>, effective: Seq<(Yaml, Yaml)>) -> bool {
    match value_at(job, "steps"@) {
        Some(steps) => match as_sequence(steps) {
            Some(xs) => some_step_overrides(xs, effective),
            None => false,
        },
        None => false,
    }
}

/// The secrets that a job reads through the workflow's env. A job that
/// calls a reusable workflow does not pass that env on.
pub open spec fn inherited_env(
    acc: JobAcc,
    workflow_env: Option<Yaml>,
    job: Seq<(Yaml, Yaml)>,
    id: Seq<char>,
) -> JobAcc {
    if value_at(job, "uses"@) is Some {
        acc
    } else {
        match workflow_env {
            None => acc,
            Some(we) => match as_mapping(we) {
                None => (acc.0, acc.1.push("workflow env must be a mapping; secret exposure is unknown"@)),
                Some(wm) => {
                    let eff = effective_env(wm, job);
                    let w1 = match value_at(job, "env"@) {
                        Some(je) => if as_mapping(je) is None {
                            acc.1.push("job "@ + id + " env override is unsupported; secret exposure is unknown"@)
                        } else {
                            acc.1
                        },
                        None => acc.1,
                    };
                    let w2 = if has_step_override(job, eff) {
                        w1.push(
                            "job "@ + id
                                + " step env override is not modeled; inherited secret exposure is conservative"@,
                        )
                    } else {
                        w1
                    };
                    let w3 = if entries_non_symbolic(eff, 0) {
                        w2.push("job "@ + id + " env uses non-symbolic secrets with unknown secret access"@)
                    } else {
                        w2
                    };
                    (JobView { secrets: acc.0.secrets.union(entries_secret_refs(eff, 0)), ..acc.0 }, w3)
                },
            },
        }
    }
}

fn step_overrides_exec(step: &Yaml, eff: &Vec<(&Yaml, &Yaml)>) -> (r: bool)
    ensures
        r == step_overrides(*step, deref_entries(eff@)),
{
    let st = match as_mapping_exec(step) {
        Some(st) => st,
        None => return false,
    };
    let env = match value_at_exec(st, "env") {
        Some(env) => env,
        None => return false,
    };
    let em = match as_mapping_exec(env) {
        Some(em) => em,
        None => return true,
    };
    let mut k: usize = 0;
    while k < em.len()
        invariant
            as_mapping(*step) == Some(st@),
            value_at(st@, "env"@) == Some(*env),
            as_mapping(*env) == Some(em@),
            k <= em@.len(),
            forall|j: int| 0 <= j < k ==> key_index(deref_entries(eff@), #[trigger] em@[j].0) < 0,
        decreases em@.len() - k,
    {
        if key_index_exec(eff, &em[k].0).is_some() {
            assert(key_index(deref_entries(eff@), em@[k as int].0) >= 0);
            assert(env_overrides(em@, deref_entries(eff@)));
            return true;
        }
        k = k + 1;
    }
    false
}

fn has_step_override_exec(job: &Vec<(Yaml, Yaml)>, eff: &Vec<(&Yaml, &Yaml)>) -> (r: bool)
    ensures
        r == has_step_override(job@, deref_entries(eff@)),
{
    let steps = match value_at_exec(job, "steps") {
        Some(steps) => steps,
        None => return false,
    };
    let xs = match as_sequence_exec(steps) {
        Some(xs) => xs,
        None => return false,
    };
    let mut i: usize = 0;
    while i < xs.len()
        invariant
            value_at(job@, "steps"@) == Some(*steps),
            as_sequence(*steps) == Some(xs@),
            i <= xs@.len(),
            forall|j: int| 0 <= j < i ==> !step_overrides(#[trigger] xs@[j], deref_entries(eff@)),
        decreases xs@.len() - i,
    {
        if step_overrides_exec(&xs[i], eff) {
            assert(step_overrides(xs@[i as int], deref_entries(eff@)));
            assert(some_step_overrides(xs@, deref_entries(eff@)));
            return true;
        }
        i = i + 1;
    }
    false
}

/// Adds the secrets that the entries behind `eff` read.
fn collect_ref_entries_secret_refs(eff: &Vec<(&Yaml, &Yaml)>, secrets: &mut StringSet)
    ensures
        final(secrets)@ == old(secrets)@.union(entries_secret_refs(deref_entries(eff@), 0)),
{
    let ghost d = deref_entries(eff@);
    let ghost start = secrets@;
    let mut i: usize = 0;
    while i < eff.len()
        invariant
            d == deref_entries(eff@),
            i <= eff@.len(),
            secrets@.union(entries_secret_refs(d, i as int)) == start.union(entries_secret_refs(d, 0)),
        decreases eff@.len() - i,
    {
        let ghost before = secrets@;
        let ghost e = d[i as int];
        assert(e == (*eff@[i as int].0, *eff@[i as int].1));
        collect_secret_references(eff[i].0, secrets);
        collect_secret_references(eff[i].1, secrets);
        assert(secrets@ == before.union(secret_refs(e.0)).union(secret_refs(e.1)));
        assert(entries_secret_refs(d, i as int) == entry_secret_refs(e).union(
            entries_secret_refs(d, i + 1),
        ));
        assert(before.union(entries_secret_refs(d, i as int)) =~= secrets@.union(
            entries_secret_refs(d, i + 1),
        ));
        i = i + 1;
    }
    assert(entries_secret_refs(d, i as int) =~= Set::empty());
    assert(secrets@ =~= secrets@.union(entries_secret_refs(d, i as int)));
}

/// Whether the entries behind `eff` read secrets other than by name.
fn ref_entries_non_symbolic(eff: &Vec<(&Yaml, &Yaml)>) -> (r: bool)
    ensures
        r == entries_non_symbolic(deref_entries(eff@), 0),
{
    let ghost d = deref_entries(eff@);
    let mut i: usize = 0;
    while i < eff.len()
        invariant
            d == deref_entries(eff@),
            i <= eff@.len(),
            entries_non_symbolic(d, 0) == entries_non_symbolic(d, i as int),
        decreases eff@.len() - i,
    {
        let ghost e = d[i as int];
        assert(e == (*eff@[i as int].0, *eff@[i as int].1));
        assert(entries_non_symbolic(d, i as int) == (entry_non_symbolic(e) || entries_non_symbolic(
            d,
            i + 1,
        )));
        if has_non_symbolic_secret_access(eff[i].0) || has_non_symbolic_secret_access(eff[i].1) {
            return true;
        }
        i = i + 1;
    }
    false
}

/// Records the secrets that a job reads through the workflow's env.
pub fn collect_inherited_env(
    workflow_env: Option<&Yaml>,
    job: &Vec<(Yaml, Yaml)>,
    job_id: &str,
    capability: &mut JobCapability,
    warnings: &mut Vec<String>,
)
    ensures
        (final(capability)@, string_views(final(warnings)@)) == inherited_env(
            (old(capability)@, string_views(old(warnings)@)),
            opt_deref(workflow_env),
            job@,
            job_id@,
        ),
{
    if value_at_exec(job, "uses").is_some() {
        return;
    }
    let we = match workflow_env {
        Some(we) => we,
        None => return,
    };
    let wm = match as_mapping_exec(we) {
        Some(wm) => wm,
        None => {
            warn_str(warnings, "workflow env must be a mapping; secret exposure is unknown");
            return;
        },
    };
    let mut eff: Vec<(&Yaml, &Yaml)> = Vec::new();
    let mut i: usize = 0;
    while i < wm.len()
        invariant
            i <= wm@.len(),
            eff@.len() == i,
            deref_entries(eff@) == wm@.take(i as int),
        decreases wm@.len() - i,
    {
        let ghost before = eff@;
        let key = &wm[i].0;
        let value = &wm[i].1;
        eff.push((key, value));
        assert(eff@ == before.push((key, value)));
        assert(eff@.len() == i + 1);
        assert forall|j: int| 0 <= j < i + 1 implies #[trigger] deref_entries(eff@)[j] == wm@.take(
            i + 1,
        )[j] by {
            if j < i {
                assert(eff@[j] == before[j]);
                assert(deref_entries(before)[j] == wm@.take(i as int)[j]);
            }
        }
        assert(deref_entries(eff@) =~= wm@.take(i + 1));
        i = i + 1;
    }
    assert(wm@.take(i as int) =~= wm@);
    if let Some(je) = value_at_exec(job, "env") {
        match as_mapping_exec(je) {
            Some(jm) => mapping_extend_exec(&mut eff, jm),
            None => {
                warn(warnings, concat3(
                    "job ",
                    job_id,
                    " env override is unsupported; secret exposure is unknown",
                ));
            },
        }
    }
    if has_step_override_exec(job, &eff) {
        warn(warnings, concat3(
            "job ",
            job_id,
            " step env override is not modeled; inherited secret exposure is conservative",
        ));
    }
    collect_ref_entries_secret_refs(&eff, &mut capability.secrets);
    if ref_entries_non_symbolic(&eff) {
        warn(warnings, concat3("job ", job_id, " env uses non-symbolic secrets with unknown secret access"));
    }
}

// ---------------------------------------------------------------------
// Jobs
// ---------------------------------------------------------------------

/// Jobs read so far by id, with the warnings so far.
pub type JobsAcc = (Map<Seq<char>, JobView>, Seq<Seq<char>>);

/// A job before its own mapping is read: it holds the workflow's
/// permissions, and is explicit when the workflow's are.
pub open spec fn job_start(
    id: Seq<char>,
    permissions: Map<Seq<char>, Seq<char>>,
    permissions_all: Option<Seq<char>>,
    explicit: bool,
) -> JobView {
    JobView {
        id,
        permissions,
        permissions_all,
        permissions_explicit: explicit,
        secrets: Set::empty(),
        oidc: false,
        runners: Set::empty(),
        action_refs: Seq::empty(),
        untrusted_script_context: false,
    }
}

/// Whether permissions let a job request an OIDC token: `id-token: write`,
/// or `write-all`.
pub open spec fn grants_oidc(permissions: Map<Seq<char>, Seq<char>>, permissions_all: Option<Seq<char>>) -> bool {
    (permissions.contains_key("id-token"@) && permissions["id-token"@] == "write"@) || permissions_all
        == Some("write-all"@)
}

/// A job's own `permissions` replace the workflow's entirely; then whether
/// its token can request OIDC.
pub open spec fn job_permissions(acc: JobAcc, job: Seq<(Yaml, Yaml)>, id: Seq<char>) -> JobAcc {
    let a = match value_at(job, "permissions"@) {
        Some(pv) => {
            let r = permissions_of(pv, "job "@ + id, acc.1);
            (JobView { permissions: r.0, permissions_all: r.1, permissions_explicit: true, ..acc.0 }, r.2)
        },
        None => acc,
    };
    let w = if !a.0.permissions_explicit {
        a.1.push("job "@ + id + " permission defaults from the repository or organization are unknown"@)
    } else {
        a.1
    };
    (JobView { oidc: grants_oidc(a.0.permissions, a.0.permissions_all), ..a.0 }, w)
}

/// Everything that one job mapping shows, in the order it is read.
pub open spec fn job_of(
    start: JobView,
    w: Seq<Seq<char>>,
    job: Seq<(Yaml, Yaml)>,
    id: Seq<char>,
    workflow_env: Option<Yaml>,
) -> JobAcc {
    let a1 = job_permissions((start, w), job, id);
    let a2 = match value_at(job, "runs-on"@) {
        Some(r) => {
            let rr = runners_of((a1.0.runners, a1.1), r, id);
            (JobView { runners: rr.0, ..a1.0 }, rr.1)
        },
        None => a1,
    };
    inherited_env(job_values(a2, job, id), workflow_env, job, id)
}

/// One entry of the `jobs` mapping.
pub open spec fn job_entry(
    acc: JobsAcc,
    e: (Yaml, Yaml),
    permissions: Map<Seq<char>, Seq<char>>,
    permissions_all: Option<Seq<char>>,
    explicit: bool,
    workflow_env: Option<Yaml>,
) -> JobsAcc {
    match as_str(e.0) {
        None => (acc.0, acc.1.push("workflow jobs contain a non-string job id"@)),
        Some(id) => match as_mapping(e.1) {
            None => (acc.0, acc.1.push("job "@ + id + " must be a mapping"@)),
            Some(job) => {
                let r = job_of(
                    job_start(id, permissions, permissions_all, explicit),
                    acc.1,
                    job,
                    id,
                    workflow_env,
                );
                (acc.0.insert(id, r.0), r.1)
            },
        },
    }
}

pub open spec fn job_entries(
    acc: JobsAcc,
    es: Seq<(Yaml, Yaml)>,
    permissions: Map<Seq<char>, Seq<char>>,
    permissions_all: Option<Seq<char>>,
    explicit: bool,
    workflow_env: Option<Yaml>,
    i: int,
) -> JobsAcc
    decreases es.len() - i,
{
    if i < 0 || i >= es.len() {
        acc
    } else {
        job_entries(
            job_entry(acc, es[i], permissions, permissions_all, explicit, workflow_env),
            es,
            permissions,
            permissions_all,
            explicit,
            workflow_env,
            i + 1,
        )
    }
}

/// The jobs of a `jobs` value.
pub open spec fn jobs_of(
    acc: JobsAcc,
    v: Yaml,
    permissions: Map<Seq<char>, Seq<char>>,
    permissions_all: Option<Seq<char>>,
    explicit: bool,
    workflow_env: Option<Yaml>,
) -> JobsAcc {
    match as_mapping(v) {
        None => (acc.0, acc.1.push("workflow jobs must be a mapping"@)),
        Some(es) => job_entries(acc, es, permissions, permissions_all, explicit, workflow_env, 0),
    }
}

fn clone_option_string(o: &Option<String>) -> (r: Option<String>)
    ensures
        option_string_view(r) == option_string_view(*o),
{
    match o {
        Some(s) => Some(s.clone()),
        None => None,
    }
}

fn read_job(
    id: &String,
    job: &Vec<(Yaml, Yaml)>,
    inherited_permissions: &StringMap<String>,
    inherited_all: &Option<String>,
    explicit: bool,
    workflow_env: Option<&Yaml>,
    warnings: &mut Vec<String>,
) -> (r: JobCapability)
    ensures
        (r@, string_views(final(warnings)@)) == job_of(
            job_start(id@, inherited_permissions@, option_string_view(*inherited_all), explicit),
            string_views(old(warnings)@),
            job@,
            id@,
            opt_deref(workflow_env),
        ),
{
    let mut capability = JobCapability {
        id: id.clone(),
        permissions: inherited_permissions.duplicate(),
        permissions_all: clone_option_string(inherited_all),
        permissions_explicit: explicit,
        secrets: StringSet::new(),
        oidc: false,
        runners: StringSet::new(),
        action_refs: Vec::new(),
        untrusted_script_context: false,
    };
    assert(string_views(capability.action_refs@) =~= Seq::<Seq<char>>::empty());
    if let Some(pv) = value_at_exec(job, "permissions") {
        let context = concat2("job ", id.as_str());
        let (scopes, all) = collect_permissions(pv, context.as_str(), warnings);
        capability.permissions = scopes;
        capability.permissions_all = all;
        capability.permissions_explicit = true;
    }
    if !capability.permissions_explicit {
        warn(warnings, concat3(
            "job ",
            id.as_str(),
            " permission defaults from the repository or organization are unknown",
        ));
    }
    let id_token = match capability.permissions.get("id-token") {
        Some(access) => str_eq(access.as_str(), "write"),
        None => false,
    };
    let all_write = match &capability.permissions_all {
        Some(access) => str_eq(access.as_str(), "write-all"),
        None => false,
    };
    capability.oidc = id_token || all_write;
    if let Some(r) = value_at_exec(job, "runs-on") {
        collect_runners(r, id.as_str(), &mut capability.runners, warnings);
    }
    collect_job_values(job, id.as_str(), &mut capability, warnings);
    collect_inherited_env(workflow_env, job, id.as_str(), &mut capability, warnings);
    capability
}

/// Records the jobs of a `jobs` value.
pub fn collect_jobs(
    value: &Yaml,
    inherited_permissions: &StringMap<String>,
    inherited_all: &Option<String>,
    explicit: bool,
    workflow_env: Option<&Yaml>,
    jobs: &mut StringMap<JobCapability>,
    warnings: &mut Vec<String>,
)
    ensures
        (final(jobs)@, string_views(final(warnings)@)) == jobs_of(
            (old(jobs)@, string_views(old(warnings)@)),
            *value,
            inherited_permissions@,
            option_string_view(*inherited_all),
            explicit,
            opt_deref(workflow_env),
        ),
{
    let es = match as_mapping_exec(value) {
        Some(es) => es,
        None => {
            warn_str(warnings, "workflow jobs must be a mapping");
            return;
        },
    };
    let ghost target = job_entries(
        (jobs@, string_views(warnings@)),
        es@,
        inherited_permissions@,
        option_string_view(*inherited_all),
        explicit,
        opt_deref(workflow_env),
        0,
    );
    let mut i: usize = 0;
    while i < es.len()
        invariant
            i <= es@.len(),
            job_entries(
                (jobs@, string_views(warnings@)),
                es@,
                inherited_permissions@,
                option_string_view(*inherited_all),
                explicit,
                opt_deref(workflow_env),
                i as int,
            ) == target,
        decreases es@.len() - i,
    {
        let (key, value) = &es[i];
        match as_str_exec(key) {
            None => {
                warn_str(warnings, "workflow jobs contain a non-string job id");
            },
            Some(id) => match as_mapping_exec(value) {
                None => {
                    warn(warnings, concat3("job ", id.as_str(), " must be a mapping"));
                },
                Some(job) => {
                    let capability = read_job(
                        id,
                        job,
                        inherited_permissions,
                        inherited_all,
                        explicit,
                        workflow_env,
                        warnings,
                    );
                    jobs.insert(id.clone(), capability);
                },
            },
        }
        i = i + 1;
    }
}

// ---------------------------------------------------------------------
// Workflows
// ---------------------------------------------------------------------

/// Where a parse error was found, as the warning names it.
pub open spec fn location_text(location: Option<(usize, usize)>) -> Seq<char> {
    match location {
        Some((line, column)) => " at line "@ + decimal(line as nat) + ", column "@ + decimal(
            column as nat,
        ),
        None => Seq::empty(),
    }
}

/// A workflow that grants nothing and has no warnings yet.
pub open spec fn empty_workflow(path: Seq<char>) -> WorkflowView {
    WorkflowView {
        path,
        triggers: Set::empty(),
        permissions: Map::empty(),
        permissions_all: None,
        permissions_explicit: false,
        jobs: Map::empty(),
        warnings: Seq::empty(),
    }
}

/// The capabilities of a workflow whose root is the mapping `wf`.
pub open spec fn workflow_of(path: Seq<char>, wf: Seq<(Yaml, Yaml)>) -> WorkflowView {
    let t = match value_at(wf, "on"@) {
        Some(on) => triggers_of((Set::empty(), Seq::empty()), on),
        None => (Set::empty(), seq!["workflow is missing required on triggers"@]),
    };
    let explicit = value_at(wf, "permissions"@) is Some;
    let p = match value_at(wf, "permissions"@) {
        Some(pv) => permissions_of(pv, "workflow"@, t.1),
        None => (Map::empty(), None, t.1),
    };
    let j = match value_at(wf, "jobs"@) {
        Some(jv) => jobs_of((Map::empty(), p.2), jv, p.0, p.1, explicit, value_at(wf, "env"@)),
        None => (Map::empty(), p.2.push("workflow is missing required jobs"@)),
    };
    WorkflowView {
        path,
        triggers: t.0,
        permissions: p.0,
        permissions_all: p.1,
        permissions_explicit: explicit,
        jobs: j.0,
        warnings: j.1,
    }
}

/// The capabilities of a workflow file, from what its YAML parsed to. A
/// file that does not parse, or whose root is not a mapping, grants
/// nothing and carries one warning.
pub open spec fn extracted(path: Seq<char>, parsed: Result<Yaml, YamlError>) -> WorkflowView {
    match parsed {
        Err(e) => WorkflowView {
            warnings: seq!["could not parse workflow YAML"@ + location_text(e.location)],
            ..empty_workflow(path)
        },
        Ok(doc) => match as_mapping(doc) {
            None => WorkflowView { warnings: seq!["workflow root must be a mapping"@], ..empty_workflow(path) },
            Some(wf) => workflow_of(path, wf),
        },
    }
}

pub(crate) fn location_string(location: Option<(usize, usize)>) -> (s: String)
    ensures
        s@ == location_text(location),
{
    match location {
        Some((line, column)) => {
            let l = decimal_string(line);
            let c = decimal_string(column);
            let a = concat3(" at line ", l.as_str(), ", column ");
            concat2(a.as_str(), c.as_str())
        },
        None => String::new(),
    }
}

/// The capabilities of a workflow file, given what its YAML parsed to,
/// without evaluating expressions or reading any secret value.
pub fn extract_document(path: String, parsed: &Result<Yaml, YamlError>) -> (r: WorkflowCapability)
    ensures
        r@ == extracted(path@, *parsed),
{
    let mut capability = WorkflowCapability {
        path,
        triggers: StringSet::new(),
        permissions: StringMap::new(),
        permissions_all: None,
        permissions_explicit: false,
        jobs: StringMap::new(),
        warnings: Vec::new(),
    };
    assert(string_views(capability.warnings@) =~= Seq::<Seq<char>>::empty());
    let document = match parsed {
        Ok(document) => document,
        Err(error) => {
            let location = location_string(error.location);
            warn(&mut capability.warnings, concat2("could not parse workflow YAML", location.as_str()));
            return capability;
        },
    };
    let workflow = match as_mapping_exec(document) {
        Some(workflow) => workflow,
        None => {
            warn_str(&mut capability.warnings, "workflow root must be a mapping");
            return capability;
        },
    };
    match value_at_exec(workflow, "on") {
        Some(on) => collect_triggers(on, &mut capability.triggers, &mut capability.warnings),
        None => {
            warn_str(&mut capability.warnings, "workflow is missing required on triggers");
        },
    }
    if let Some(pv) = value_at_exec(workflow, "permissions") {
        capability.permissions_explicit = true;
        let (scopes, all) = collect_permissions(pv, "workflow", &mut capability.warnings);
        capability.permissions = scopes;
        capability.permissions_all = all;
    }
    match value_at_exec(workflow, "jobs") {
        Some(jobs) => {
            let inherited = capability.permissions.duplicate();
            let inherited_all = clone_option_string(&capability.permissions_all);
            collect_jobs(
                jobs,
                &inherited,
                &inherited_all,
                capability.permissions_explicit,
                value_at_exec(workflow, "env"),
                &mut capability.jobs,
                &mut capability.warnings,
            );
        },
        None => {
            warn_str(&mut capability.warnings, "workflow is missing required jobs");
        },
    }
    capability
}

// ---------------------------------------------------------------------
// Laws of extraction
// ---------------------------------------------------------------------

proof fn lemma_secret_refs_are_names(y: Yaml)
    ensures
        forall|n: Seq<char>| #[trigger] secret_refs(y).contains(n) ==> is_secret_name(n),
    decreases y, 0int,
{
    match y {
        Yaml::Str(t) => {
            assert(secret_refs(y) == secret_names(t@));
        },
        Yaml::Sequence(xs) => {
            lemma_items_secret_refs_are_names(xs@, 0);
            assert(secret_refs(y) == items_secret_refs(xs@, 0));
        },
        Yaml::Mapping(es) => {
            lemma_entries_secret_refs_are_names(es@, 0);
            assert(secret_refs(y) == entries_secret_refs(es@, 0));
        },
        _ => {
            assert(secret_refs(y) == Set::<Seq<char>>::empty());
        },
    }
}

proof fn lemma_items_secret_refs_are_names(xs: Seq<Yaml>, i: int)
    ensures
        forall|n: Seq<char>| #[trigger] items_secret_refs(xs, i).contains(n) ==> is_secret_name(n),
    decreases xs, xs.len() - i,
{
    if 0 <= i < xs.len() {
        lemma_secret_refs_are_names(xs[i]);
        lemma_items_secret_refs_are_names(xs, i + 1);
        assert(items_secret_refs(xs, i) == secret_refs(xs[i]).union(items_secret_refs(xs, i + 1)));
    } else {
        assert(items_secret_refs(xs, i) == Set::<Seq<char>>::empty());
    }
}

proof fn lemma_entries_secret_refs_are_names(es: Seq<(Yaml, Yaml)>, i: int)
    ensures
        forall|n: Seq<char>| #[trigger] entries_secret_refs(es, i).contains(n) ==> is_secret_name(n),
    decreases es, es.len() - i,
{
    if 0 <= i < es.len() {
        lemma_entry_secret_refs_are_names(es[i]);
        lemma_entries_secret_refs_are_names(es, i + 1);
        assert(entries_secret_refs(es, i) == entry_secret_refs(es[i]).union(
            entries_secret_refs(es, i + 1),
        ));
    } else {
        assert(entries_secret_refs(es, i) == Set::<Seq<char>>::empty());
    }
}

proof fn lemma_entry_secret_refs_are_names(e: (Yaml, Yaml))
    ensures
        forall|n: Seq<char>| #[trigger] entry_secret_refs(e).contains(n) ==> is_secret_name(n),
    decreases e, 0int,
{
    lemma_secret_refs_are_names(e.0);
    lemma_secret_refs_are_names(e.1);
    assert(entry_secret_refs(e) == secret_refs(e.0).union(secret_refs(e.1)));
}

/// What a job holds by construction: only symbolic secret names, and an
/// OIDC flag that its effective permissions decide.
pub open spec fn job_sound(j: JobView) -> bool {
    &&& forall|n: Seq<char>| #[trigger] j.secrets.contains(n) ==> is_secret_name(n)
    &&& j.oidc == grants_oidc(j.permissions, j.permissions_all)
}

/// Two states of a job with the same token permissions and OIDC flag.
pub open spec fn same_grants(a: JobView, b: JobView) -> bool {
    a.permissions == b.permissions && a.permissions_all == b.permissions_all && a.oidc == b.oidc
}

proof fn lemma_steps_keep_grants(acc: JobAcc, xs: Seq<Yaml>, job: Seq<char>, i: int)
    ensures
        same_grants(steps_values(acc, xs, job, i).0, acc.0),
        steps_values(acc, xs, job, i).0.secrets == acc.0.secrets,
    decreases xs.len() - i,
{
    if 0 <= i < xs.len() {
        lemma_steps_keep_grants(step_values(acc, xs[i], job), xs, job, i + 1);
    }
}

proof fn lemma_job_of_sound(
    start: JobView,
    w: Seq<Seq<char>>,
    job: Seq<(Yaml, Yaml)>,
    id: Seq<char>,
    workflow_env: Option<Yaml>,
)
    requires
        forall|n: Seq<char>| #[trigger] start.secrets.contains(n) ==> is_secret_name(n),
    ensures
        job_sound(job_of(start, w, job, id, workflow_env).0),
{
    let a1 = job_permissions((start, w), job, id);
    let a2 = match value_at(job, "runs-on"@) {
        Some(r) => {
            let rr = runners_of((a1.0.runners, a1.1), r, id);
            (JobView { runners: rr.0, ..a1.0 }, rr.1)
        },
        None => a1,
    };
    assert(job_sound(a2.0));
    lemma_entries_secret_refs_are_names(job, 0);
    let a3 = job_values(a2, job, id);
    let b1 = (JobView { secrets: a2.0.secrets.union(entries_secret_refs(job, 0)), ..a2.0 }, a2.1);
    let b2 = if inherits_secrets(job) {
        (b1.0, b1.1.push("job "@ + id + " inherits secrets with unknown secret access"@))
    } else {
        b1
    };
    let b3 = if entries_non_symbolic(job, 0) {
        (b2.0, b2.1.push("job "@ + id + " uses non-symbolic secrets with unknown secret access"@))
    } else {
        b2
    };
    let b4 = match value_at(job, "uses"@) {
        Some(u) => action_reference(b3, u, id),
        None => b3,
    };
    assert(job_sound(b4.0));
    match value_at(job, "steps"@) {
        Some(steps) => match as_sequence(steps) {
            Some(xs) => lemma_steps_keep_grants(b4, xs, id, 0),
            None => {},
        },
        None => {},
    }
    assert(job_sound(a3.0));
    let r = inherited_env(a3, workflow_env, job, id);
    match workflow_env {
        Some(we) => match as_mapping(we) {
            Some(wm) => {
                lemma_entries_secret_refs_are_names(effective_env(wm, job), 0);
            },
            None => {},
        },
        None => {},
    }
    assert(job_sound(r.0));
}

proof fn lemma_job_entries_sound(
    acc: JobsAcc,
    es: Seq<(Yaml, Yaml)>,
    permissions: Map<Seq<char>, Seq<char>>,
    permissions_all: Option<Seq<char>>,
    explicit: bool,
    workflow_env: Option<Yaml>,
    i: int,
)
    requires
        forall|id: Seq<char>| #[trigger] acc.0.contains_key(id) ==> job_sound(acc.0[id]),
    ensures
        forall|id: Seq<char>|
            #[trigger] job_entries(acc, es, permissions, permissions_all, explicit, workflow_env, i).0.contains_key(id)
                ==> job_sound(
                job_entries(acc, es, permissions, permissions_all, explicit, workflow_env, i).0[id],
            ),
    decreases es.len() - i,
{
    if 0 <= i < es.len() {
        let e = es[i];
        match as_str(e.0) {
            Some(id) => match as_mapping(e.1) {
                Some(job) => {
                    lemma_job_of_sound(
                        job_start(id, permissions, permissions_all, explicit),
                        acc.1,
                        job,
                        id,
                        workflow_env,
                    );
                },
                None => {},
            },
            None => {},
        }
        let next = job_entry(acc, e, permissions, permissions_all, explicit, workflow_env);
        assert forall|id: Seq<char>| #[trigger] next.0.contains_key(id) implies job_sound(next.0[id]) by {}
        lemma_job_entries_sound(next, es, permissions, permissions_all, explicit, workflow_env, i + 1);
        assert(job_entries(acc, es, permissions, permissions_all, explicit, workflow_env, i) == job_entries(
            next,
            es,
            permissions,
            permissions_all,
            explicit,
            workflow_env,
            i + 1,
        ));
    } else {
        assert(job_entries(acc, es, permissions, permissions_all, explicit, workflow_env, i) == acc);
    }
}

/// Every job that extraction records holds only symbolic secret names, never
/// a literal value or a dynamic expression, and can request OIDC tokens
/// exactly when its effective permissions grant `id-token: write` or
/// `write-all`.
pub proof fn lemma_extracted_jobs_are_sound(path: Seq<char>, parsed: Result<Yaml, YamlError>)
    ensures
        forall|id: Seq<char>| #[trigger] extracted(path, parsed).jobs.contains_key(id) ==> job_sound(
            extracted(path, parsed).jobs[id],
        ),
{
    if let Ok(doc) = parsed {
        if let Some(wf) = as_mapping(doc) {
            let t = match value_at(wf, "on"@) {
                Some(on) => triggers_of((Set::empty(), Seq::empty()), on),
                None => (Set::empty(), seq!["workflow is missing required on triggers"@]),
            };
            let explicit = value_at(wf, "permissions"@) is Some;
            let p = match value_at(wf, "permissions"@) {
                Some(pv) => permissions_of(pv, "workflow"@, t.1),
                None => (Map::empty(), None, t.1),
            };
            if let Some(jv) = value_at(wf, "jobs"@) {
                if let Some(es) = as_mapping(jv) {
                    lemma_job_entries_sound(
                        (Map::empty(), p.2),
                        es,
                        p.0,
                        p.1,
                        explicit,
                        value_at(wf, "env"@),
                        0,
                    );
                }
            }
        }
    }
}

/// A workflow file that does not parse grants nothing, and its one warning
/// holds the parser's location but nothing of the file's text.
pub proof fn lemma_unparsed_workflow_grants_nothing(path: Seq<char>, error: YamlError)
    ensures
        extracted(path, Err(error)).triggers.is_empty(),
        extracted(path, Err(error)).jobs.is_empty(),
        extracted(path, Err(error)).permissions.is_empty(),
        extracted(path, Err(error)).permissions_all is None,
        extracted(path, Err(error)).warnings == seq![
            "could not parse workflow YAML"@ + location_text(error.location),
        ],
{
}

/// A job that declares its own permissions holds exactly those: the
/// workflow's permissions are replaced, not merged.
pub proof fn lemma_job_permissions_replace_workflow_permissions(
    acc: JobAcc,
    job: Seq<(Yaml, Yaml)>,
    id: Seq<char>,
    declared: Yaml,
)
    requires
        value_at(job, "permissions"@) == Some(declared),
    ensures
        job_permissions(acc, job, id).0.permissions == permissions_of(declared, "job "@ + id, acc.1).0,
        job_permissions(acc, job, id).0.permissions_all == permissions_of(declared, "job "@ + id, acc.1).1,
        job_permissions(acc, job, id).0.permissions_explicit,
{
}

/// Extracts the supported GitHub Actions capability fields of a workflow
/// text without evaluating expressions or reading any secret value.
pub fn extract_workflow(path: String, source: &str) -> (r: WorkflowCapability)
    ensures
        r@ == extracted(path@, parsed_yaml(source@)),
{
    extract_document(path, &parse_yaml(source))
}

// ---------------------------------------------------------------------
// Laws of action references and inherited env
// ---------------------------------------------------------------------

proof fn lemma_step_keeps_action_refs(acc: JobAcc, step: Yaml, job: Seq<char>)
    ensures
        forall|a: Seq<char>| acc.0.action_refs.contains(a) ==> #[trigger] step_values(acc, step, job).0.action_refs.contains(a),
{
    assert forall|a: Seq<char>| acc.0.action_refs.contains(a) implies #[trigger] step_values(acc, step, job).0.action_refs.contains(a) by {
        let k = choose|k: int| 0 <= k < acc.0.action_refs.len() && acc.0.action_refs[k] == a;
        match as_mapping(step) {
            Some(st) => {
                match value_at(st, "uses"@) {
                    Some(u) => {
                        let b = action_reference(acc, u, job);
                        assert(b.0.action_refs[k] == a);
                    },
                    None => {},
                }
            },
            None => {},
        }
    }
}

proof fn lemma_steps_keep_action_refs(acc: JobAcc, xs: Seq<Yaml>, job: Seq<char>, i: int)
    ensures
        forall|a: Seq<char>| acc.0.action_refs.contains(a) ==> #[trigger] steps_values(acc, xs, job, i).0.action_refs.contains(a),
    decreases xs.len() - i,
{
    if 0 <= i < xs.len() {
        lemma_step_keeps_action_refs(acc, xs[i], job);
        lemma_steps_keep_action_refs(step_values(acc, xs[i], job), xs, job, i + 1);
    }
}

/// A job that calls a reusable workflow (`uses` at the job level) records
/// that reference among its action references, whatever else it holds.
pub proof fn lemma_job_uses_is_an_action_reference(
    acc: JobAcc,
    job: Seq<(Yaml, Yaml)>,
    id: Seq<char>,
    u: Yaml,
    a: Seq<char>,
)
    requires
        value_at(job, "uses"@) == Some(u),
        as_str(u) == Some(a),
    ensures
        job_values(acc, job, id).0.action_refs.contains(a),
{
    let a1 = (JobView { secrets: acc.0.secrets.union(entries_secret_refs(job, 0)), ..acc.0 }, acc.1);
    let a2 = if inherits_secrets(job) {
        (a1.0, a1.1.push("job "@ + id + " inherits secrets with unknown secret access"@))
    } else {
        a1
    };
    let a3 = if entries_non_symbolic(job, 0) {
        (a2.0, a2.1.push("job "@ + id + " uses non-symbolic secrets with unknown secret access"@))
    } else {
        a2
    };
    let a4 = action_reference(a3, u, id);
    assert(a4.0.action_refs[a3.0.action_refs.len() as int] == a);
    match value_at(job, "steps"@) {
        Some(steps) => match as_sequence(steps) {
            Some(xs) => lemma_steps_keep_action_refs(a4, xs, id, 0),
            None => {},
        },
        None => {},
    }
}

/// The same for a whole job: its capabilities list the reference that its
/// `uses` names.
pub proof fn lemma_job_of_lists_its_uses(
    start: JobView,
    w: Seq<Seq<char>>,
    job: Seq<(Yaml, Yaml)>,
    id: Seq<char>,
    workflow_env: Option<Yaml>,
    u: Yaml,
    a: Seq<char>,
)
    requires
        value_at(job, "uses"@) == Some(u),
        as_str(u) == Some(a),
    ensures
        job_of(start, w, job, id, workflow_env).0.action_refs.contains(a),
{
    let a1 = job_permissions((start, w), job, id);
    let a2 = match value_at(job, "runs-on"@) {
        Some(r) => {
            let rr = runners_of((a1.0.runners, a1.1), r, id);
            (JobView { runners: rr.0, ..a1.0 }, rr.1)
        },
        None => a1,
    };
    lemma_job_uses_is_an_action_reference(a2, job, id, u, a);
}

proof fn lemma_key_index_found(m: Seq<(Yaml, Yaml)>, key: Yaml)
    ensures
        key_index(m, key) >= 0 ==> key_index(m, key) < m.len() && yaml_eq(key, m[key_index(m, key)].0),
        key_index(m, key) >= -1,
    decreases m.len(),
{
    if m.len() > 0 && !yaml_eq(key, m[0].0) {
        lemma_key_index_found(m.drop_first(), key);
        let r = key_index(m.drop_first(), key);
        if r >= 0 {
            assert(m.drop_first()[r] == m[r + 1]);
        }
    }
}

/// Inserting entries whose keys differ from that of entry `i` leaves entry
/// `i` where it is.
proof fn lemma_mapping_extend_keeps(m: Seq<(Yaml, Yaml)>, other: Seq<(Yaml, Yaml)>, i: int)
    requires
        0 <= i < m.len(),
        forall|j: int| 0 <= j < other.len() ==> !yaml_eq(#[trigger] other[j].0, m[i].0),
    ensures
        i < mapping_extend(m, other).len(),
        mapping_extend(m, other)[i] == m[i],
    decreases other.len(),
{
    if other.len() > 0 {
        let e = other[0];
        lemma_key_index_found(m, e.0);
        let n = mapping_insert(m, e);
        assert(n[i] == m[i]);
        assert forall|j: int| 0 <= j < other.drop_first().len() implies !yaml_eq(
            #[trigger] other.drop_first()[j].0,
            n[i].0,
        ) by {
            assert(other.drop_first()[j] == other[j + 1]);
        }
        lemma_mapping_extend_keeps(n, other.drop_first(), i);
    }
}

proof fn lemma_entries_secret_refs_hold_entry(es: Seq<(Yaml, Yaml)>, j: int, i: int)
    requires
        0 <= j <= i < es.len(),
    ensures
        secret_refs(es[i].1).subset_of(entries_secret_refs(es, j)),
    decreases i - j,
{
    if j < i {
        lemma_entries_secret_refs_hold_entry(es, j + 1, i);
    }
    assert(entries_secret_refs(es, j) == entry_secret_refs(es[j]).union(entries_secret_refs(es, j + 1)));
    assert(entry_secret_refs(es[j]) == secret_refs(es[j].0).union(secret_refs(es[j].1)));
}

/// A job that runs its own steps inherits every workflow env entry whose
/// key its own env mapping does not set: the secrets that such an entry's
/// value reads are among the job's secrets. A job env merges over the
/// workflow env; it does not replace it.
pub proof fn lemma_workflow_env_entries_are_inherited(
    acc: JobAcc,
    workflow_env: Yaml,
    wm: Seq<(Yaml, Yaml)>,
    job: Seq<(Yaml, Yaml)>,
    id: Seq<char>,
    i: int,
)
    requires
        value_at(job, "uses"@) is None,
        as_mapping(workflow_env) == Some(wm),
        0 <= i < wm.len(),
        match value_at(job, "env"@) {
            Some(je) => match as_mapping(je) {
                Some(jm) => forall|j: int| 0 <= j < jm.len() ==> !yaml_eq(#[trigger] jm[j].0, wm[i].0),
                None => true,
            },
            None => true,
        },
    ensures
        secret_refs(wm[i].1).subset_of(inherited_env(acc, Some(workflow_env), job, id).0.secrets),
{
    let eff = effective_env(wm, job);
    match value_at(job, "env"@) {
        Some(je) => match as_mapping(je) {
            Some(jm) => {
                lemma_mapping_extend_keeps(wm, jm, i);
            },
            None => {},
        },
        None => {},
    }
    assert(0 <= i < eff.len() && eff[i] == wm[i]);
    lemma_entries_secret_refs_hold_entry(eff, 0, i);
}

/// The same for a whole job.
pub proof fn lemma_job_of_inherits_workflow_env(
    start: JobView,
    w: Seq<Seq<char>>,
    job: Seq<(Yaml, Yaml)>,
    id: Seq<char>,
    workflow_env: Yaml,
    wm: Seq<(Yaml, Yaml)>,
    i: int,
)
    requires
        value_at(job, "uses"@) is None,
        as_mapping(workflow_env) == Some(wm),
        0 <= i < wm.len(),
        match value_at(job, "env"@) {
            Some(je) => match as_mapping(je) {
                Some(jm) => forall|j: int| 0 <= j < jm.len() ==> !yaml_eq(#[trigger] jm[j].0, wm[i].0),
                None => true,
            },
            None => true,
        },
    ensures
        secret_refs(wm[i].1).subset_of(job_of(start, w, job, id, Some(workflow_env)).0.secrets),
{
    let a1 = job_permissions((start, w), job, id);
    let a2 = match value_at(job, "runs-on"@) {
        Some(r) => {
            let rr = runners_of((a1.0.runners, a1.1), r, id);
            (JobView { runners: rr.0, ..a1.0 }, rr.1)
        },
        None => a1,
    };
    lemma_workflow_env_entries_are_inherited(job_values(a2, job, id), workflow_env, wm, job, id, i);
}

proof fn lemma_steps_keep_untrusted(acc: JobAcc, xs: Seq<Yaml>, job: Seq<char>, i: int)
    requires
        acc.0.untrusted_script_context,
    ensures
        steps_values(acc, xs, job, i).0.untrusted_script_context,
    decreases xs.len() - i,
{
    if 0 <= i < xs.len() {
        lemma_steps_keep_untrusted(step_values(acc, xs[i], job), xs, job, i + 1);
    }
}

proof fn lemma_untrusted_step_from(acc: JobAcc, xs: Seq<Yaml>, job: Seq<char>, i: int, k: int, script: Seq<char>)
    requires
        0 <= i <= k < xs.len(),
        as_mapping(xs[k]) is Some,
        value_at(as_mapping(xs[k])->0, "run"@) is Some,
        as_str(value_at(as_mapping(xs[k])->0, "run"@)->0) == Some(script),
        has_untrusted_context(script),
    ensures
        steps_values(acc, xs, job, i).0.untrusted_script_context,
    decreases k - i,
{
    if i < k {
        lemma_untrusted_step_from(step_values(acc, xs[i], job), xs, job, i + 1, k, script);
    } else {
        let next = step_values(acc, xs[k], job);
        assert(next.0.untrusted_script_context);
        lemma_steps_keep_untrusted(next, xs, job, k + 1);
    }
}

/// A job one of whose steps runs a script that reads untrusted `github`
/// context is marked as interpolating untrusted context.
pub proof fn lemma_untrusted_step_marks_job(
    acc: JobAcc,
    job: Seq<(Yaml, Yaml)>,
    id: Seq<char>,
    xs: Seq<Yaml>,
    k: int,
    script: Seq<char>,
)
    requires
        value_at(job, "steps"@) is Some,
        as_sequence(value_at(job, "steps"@)->0) == Some(xs),
        0 <= k < xs.len(),
        as_mapping(xs[k]) is Some,
        value_at(as_mapping(xs[k])->0, "run"@) is Some,
        as_str(value_at(as_mapping(xs[k])->0, "run"@)->0) == Some(script),
        has_untrusted_context(script),
    ensures
        job_values(acc, job, id).0.untrusted_script_context,
{
    let a1 = (JobView { secrets: acc.0.secrets.union(entries_secret_refs(job, 0)), ..acc.0 }, acc.1);
    let a2 = if inherits_secrets(job) {
        (a1.0, a1.1.push("job "@ + id + " inherits secrets with unknown secret access"@))
    } else {
        a1
    };
    let a3 = if entries_non_symbolic(job, 0) {
        (a2.0, a2.1.push("job "@ + id + " uses non-symbolic secrets with unknown secret access"@))
    } else {
        a2
    };
    let a4 = match value_at(job, "uses"@) {
        Some(u) => action_reference(a3, u, id),
        None => a3,
    };
    lemma_untrusted_step_from(a4, xs, id, 0, k, script);
}

} // verus!
