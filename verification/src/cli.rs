use vstd::prelude::*;

use crate::diff::finding_views;
use crate::extract::{extract_document, extracted, location_string, location_text};
use crate::model::{Finding, FindingView, Severity, WorkflowCapability, WorkflowView};
use crate::path::{
    lemma_parts_lt_asymmetric, lemma_parts_lt_irreflexive, part_keys, parts_lt, path_parts,
    PathMap, PathPart,
};
use crate::text::concat3;
use crate::yaml::{parse_yaml, parsed_yaml};

verus! {

/// Whether a workflow text parses as YAML.
pub open spec fn parses(source: Seq<char>) -> bool {
    parsed_yaml(source) is Ok
}

/// Where a workflow text's parse failed, as its parser reports it.
pub open spec fn failure_location(source: Seq<char>) -> Option<(usize, usize)> {
    match parsed_yaml(source) {
        Err(e) => e.location,
        Ok(_) => None,
    }
}

/// The message with which a comparison refuses a workflow that does not
/// parse: the side, the path and the parser's location, never the text.
pub open spec fn parse_failure_text(
    side: Seq<char>,
    path: Seq<char>,
    location: Option<(usize, usize)>,
) -> Seq<char> {
    side + " revision, "@ + path + ": could not parse workflow YAML"@ + location_text(location)
}

/// The capabilities of each workflow file of a revision, keyed as the
/// files are.
pub open spec fn capabilities(w: Map<Seq<PathPart>, (Seq<char>, Seq<char>)>) -> Map<
    Seq<PathPart>,
    (Seq<char>, WorkflowView),
> {
    Map::new(
        |k: Seq<PathPart>| w.contains_key(k),
        |k: Seq<PathPart>| (w[k].0, extracted(w[k].0, parsed_yaml(w[k].1))),
    )
}

/// Whether every workflow file of a revision parses.
pub open spec fn all_parse(w: Map<Seq<PathPart>, (Seq<char>, Seq<char>)>) -> bool {
    forall|k: Seq<PathPart>| #[trigger] w.contains_key(k) ==> parses(w[k].1)
}

/// Whether `k` is, in path order, the first workflow file that does not
/// parse.
pub open spec fn first_unparsed(w: Map<Seq<PathPart>, (Seq<char>, Seq<char>)>, k: Seq<PathPart>) -> bool {
    &&& w.contains_key(k)
    &&& !parses(w[k].1)
    &&& forall|k2: Seq<PathPart>| #[trigger] w.contains_key(k2) && parts_lt(k2, k) ==> parses(w[k2].1)
}

/// Whether `msg` refuses the first workflow file of a revision that does
/// not parse.
pub open spec fn refuses_first_unparsed(
    side: Seq<char>,
    w: Map<Seq<PathPart>, (Seq<char>, Seq<char>)>,
    msg: Seq<char>,
) -> bool {
    exists|k: Seq<PathPart>|
        #[trigger] first_unparsed(w, k) && msg == parse_failure_text(
            side,
            w[k].0,
            failure_location(w[k].1),
        )
}

/// Whether some position before `i` holds key `k`.
pub open spec fn seen_before(es: Seq<(String, String)>, i: int, k: Seq<PathPart>) -> bool {
    exists|j: int| 0 <= j < i && path_parts(#[trigger] es[j].0@) == k
}

/// The message for a workflow that does not parse.
pub fn parse_failure_message(side: &str, path: &str, location: Option<(usize, usize)>) -> (s: String)
    ensures
        s@ == parse_failure_text(side@, path@, location),
{
    let a = concat3(side, " revision, ", path);
    let loc = location_string(location);
    concat3(a.as_str(), ": could not parse workflow YAML", loc.as_str())
}

/// The capabilities of every workflow file of one revision, read in path
/// order. A file that does not parse is refused here, though extraction
/// alone would only warn: a comparison must not go on with a revision it
/// could not read.
pub fn collect_capabilities(side: &str, workflows: &PathMap<String>) -> (r: Result<
    PathMap<WorkflowCapability>,
    String,
>)
    ensures
        r is Ok <==> all_parse(workflows@),
        r matches Ok(m) ==> m@ == capabilities(workflows@),
        r matches Err(msg) ==> refuses_first_unparsed(side@, workflows@, msg@),
{
    let es = workflows.as_slice();
    let mut out: PathMap<WorkflowCapability> = PathMap::new();
    let mut i: usize = 0;
    while i < es.len()
        invariant
            i <= es@.len(),
            part_keys(es@).no_duplicates(),
            crate::path::parts_strictly_sorted(part_keys(es@)),
            crate::path::path_map_of(es@) == workflows@,
            forall|j: int|
                0 <= j < es@.len() ==> workflows@.contains_key(#[trigger] path_parts(es@[j].0@))
                    && workflows@[path_parts(es@[j].0@)] == (es@[j].0@, es@[j].1@),
            forall|k: Seq<PathPart>| #[trigger]
                workflows@.contains_key(k) ==> part_keys(es@).contains(k),
            forall|k: Seq<PathPart>| #[trigger] out@.contains_key(k) <==> seen_before(es@, i as int, k),
            forall|j: int|
                0 <= j < i ==> #[trigger] out@[path_parts(es@[j].0@)] == (
                    es@[j].0@,
                    extracted(es@[j].0@, parsed_yaml(es@[j].1@)),
                ),
            forall|j: int| 0 <= j < i ==> parses(#[trigger] es@[j].1@),
        decreases es@.len() - i,
    {
        let (path, source) = &es[i];
        let parsed = parse_yaml(source.as_str());
        if let Err(error) = &parsed {
            let msg = parse_failure_message(side, path.as_str(), error.location);
            proof {
                let k = path_parts(es@[i as int].0@);
                assert forall|k2: Seq<PathPart>| #[trigger] workflows@.contains_key(k2) && parts_lt(
                    k2,
                    k,
                ) implies parses(workflows@[k2].1) by {
                    let j = choose|j: int| 0 <= j < part_keys(es@).len() && part_keys(es@)[j] == k2;
                    assert(part_keys(es@)[j] == path_parts(es@[j].0@));
                    assert(part_keys(es@)[i as int] == k);
                    if j >= i {
                        if j == i {
                            lemma_parts_lt_irreflexive(k);
                        } else {
                            lemma_parts_lt_asymmetric(k, k2);
                        }
                    }
                }
                assert(first_unparsed(workflows@, k));
            }
            return Err(msg);
        }
        let capability = extract_document(path.clone(), &parsed);
        proof {
            let k = path_parts(es@[i as int].0@);
            if out@.contains_key(k) {
                let j = choose|j: int| 0 <= j < i && path_parts(#[trigger] es@[j].0@) == k;
                assert(part_keys(es@)[j] == part_keys(es@)[i as int]);
            }
        }
        let ghost before = out@;
        out.insert(path.clone(), capability);
        proof {
            assert forall|k: Seq<PathPart>| #[trigger] out@.contains_key(k) <==> seen_before(
                es@,
                i + 1,
                k,
            ) by {
                if seen_before(es@, i + 1, k) {
                    let j = choose|j: int| 0 <= j < i + 1 && path_parts(#[trigger] es@[j].0@) == k;
                    if j < i {
                        assert(seen_before(es@, i as int, k));
                    }
                }
                if before.contains_key(k) {
                    let j = choose|j: int| 0 <= j < i && path_parts(#[trigger] es@[j].0@) == k;
                    assert(seen_before(es@, i + 1, k));
                }
                if k == path_parts(es@[i as int].0@) {
                    assert(seen_before(es@, i + 1, k));
                }
            }
            assert forall|j: int| 0 <= j < i + 1 implies #[trigger] out@[path_parts(es@[j].0@)] == (
                es@[j].0@,
                extracted(es@[j].0@, parsed_yaml(es@[j].1@)),
            ) by {
                if j < i {
                    assert(part_keys(es@)[j] == path_parts(es@[j].0@));
                    assert(part_keys(es@)[i as int] == path_parts(es@[i as int].0@));
                }
            }
        }
        i = i + 1;
    }
    proof {
        assert(out@ =~= capabilities(workflows@)) by {
            assert forall|k: Seq<PathPart>| out@.contains_key(k) <==> workflows@.contains_key(k) by {
                if out@.contains_key(k) {
                    let j = choose|j: int| 0 <= j < i && path_parts(#[trigger] es@[j].0@) == k;
                }
                if workflows@.contains_key(k) {
                    let j = choose|j: int| 0 <= j < part_keys(es@).len() && part_keys(es@)[j] == k;
                    assert(part_keys(es@)[j] == path_parts(es@[j].0@));
                    assert(seen_before(es@, i as int, k));
                }
            }
            assert forall|k: Seq<PathPart>| #[trigger] out@.contains_key(k) implies out@[k]
                == capabilities(workflows@)[k] by {
                let j = choose|j: int| 0 <= j < i && path_parts(#[trigger] es@[j].0@) == k;
            }
        }
        assert forall|k: Seq<PathPart>| #[trigger] workflows@.contains_key(k) implies parses(
            workflows@[k].1,
        ) by {
            let j = choose|j: int| 0 <= j < part_keys(es@).len() && part_keys(es@)[j] == k;
            assert(part_keys(es@)[j] == path_parts(es@[j].0@));
        }
    }
    Ok(out)
}

/// Whether any finding is of high severity.
pub open spec fn has_high(fs: Seq<FindingView>) -> bool {
    exists|i: int| 0 <= i < fs.len() && (#[trigger] fs[i]).severity == Severity::High
}

/// The exit status of a comparison that produced a report: 2 when some
/// finding is high, so that automation can block the change, and 0
/// otherwise (warnings alone do not fail).
pub fn exit_status(findings: &[Finding]) -> (code: u8)
    ensures
        code == (if has_high(finding_views(findings@)) { 2u8 } else { 0u8 }),
{
    let ghost fv = finding_views(findings@);
    let mut i: usize = 0;
    while i < findings.len()
        invariant
            fv == finding_views(findings@),
            i <= findings@.len(),
            forall|j: int| 0 <= j < i ==> (#[trigger] fv[j]).severity != Severity::High,
        decreases findings@.len() - i,
    {
        match findings[i].severity {
            Severity::High => {
                assert(fv[i as int].severity == Severity::High);
                return 2;
            },
            Severity::Warning => {},
        }
        i = i + 1;
    }
    0
}

} // verus!
