//! What holds of findings and of what the engine reports.

use vstd::multiset::Multiset;
use vstd::prelude::*;
use vstd::utf8::*;

use crate::content::{content_findings, finding_text, same_content};
use crate::engine::{
    all_normalized, check_engine_exit, describe_recoverable_scan_warning, description, fatal_errors,
    is_recoverable_scan_warning, read_bounded, recoverable, run_from_document, scan_arguments,
    scanned_set, wait_for_child, warnings_of, ChildStep, OpenGrepDocument, OpenGrepRun,
    ReportedError,
};
use crate::error::{Deadline, ScanError};
use crate::findings::{
    append_findings, build_inspector_url, contents_of, normalize_finding, normalized, placeless,
    rewrite_finding_location, RawFinding,
};
use crate::json::Json;
use crate::models::{FindingView, OpenGrepFinding};
use crate::order::text_le;
use crate::paths::{relative_target_path, reported_path};
use crate::promises::lists::{
    lemma_listed_positions, lemma_positions_where, lemma_same_positions, positions_where,
};
use crate::promises::texts::{lemma_after_last, stands_behind_last};
use crate::promises::values::decimal_value;
use crate::text::{after_last, joined, truncated, utf8_fault, views};

verus! {

/// A finding of the engine is submitted just where its path can be reported, and its message and
/// its inspector URL are short enough. It is submitted under the part of the rule behind the last
/// dot, whole, at the reported path, and with everything else as the engine gave it.
pub proof fn law_findings_are_submitted_whole(
    finding: RawFinding,
    finding_path: &[u8],
    target_directory: &[u8],
    inspector_base: &str,
    path: Result<String, ScanError>,
    result: Result<OpenGrepFinding, ScanError>,
)
    requires
        finding_path@ == finding.path@,
        call_ensures(relative_target_path, (finding_path, target_directory), path),
        call_ensures(normalize_finding, (finding, target_directory, inspector_base), result),
    ensures
        match result {
            Ok(found) => {
                &&& path matches Ok(text)
                &&& encode_utf8(finding.extra.message@).len() <= 1024
                &&& encode_utf8(inspector_base@ + text@).len() <= 2048
                &&& stands_behind_last(finding.check_id@, '.', found.rule_id@)
                &&& found.path@ == text@
                &&& found.start_line == finding.start.line
                &&& found.end_line == finding.end.line
                &&& found.message@ == finding.extra.message@
                &&& found.severity@ == finding.extra.severity@
                &&& found.evidence@ == finding.extra.metadata.evidence@
                &&& found.confidence@ == finding.extra.metadata.confidence@
                &&& found.execution_context@ == finding.extra.metadata.execution_context@
                &&& found.inspector_url@ == inspector_base@ + text@
            },
            Err(error) => match path {
                Err(fault) => error == fault,
                Ok(text) => if encode_utf8(finding.extra.message@).len() > 1024 {
                    error == ScanError::MessageTooLong
                } else {
                    &&& encode_utf8(inspector_base@ + text@).len() > 2048
                    &&& error == ScanError::InspectorUrlTooLong
                },
            },
        },
{
    lemma_after_last(finding.check_id@, '.');
}

/// A finding is moved just where the path and the inspector URL are short enough; nothing else of
/// it changes.
pub proof fn law_moved_findings_change_their_place_alone(
    finding: &OpenGrepFinding,
    path: &str,
    inspector_base: &str,
    result: Result<OpenGrepFinding, ScanError>,
)
    requires
        call_ensures(rewrite_finding_location, (finding, path, inspector_base), result),
    ensures
        match result {
            Ok(found) => {
                &&& encode_utf8(path@).len() <= 1024
                &&& encode_utf8(inspector_base@ + path@).len() <= 2048
                &&& found@ == (FindingView {
                    path: path@,
                    inspector_url: inspector_base@ + path@,
                    ..finding@
                })
            },
            Err(error) => if encode_utf8(path@).len() > 1024 {
                error == ScanError::PathTooLong
            } else {
                &&& encode_utf8(inspector_base@ + path@).len() > 2048
                &&& error == ScanError::InspectorUrlTooLong
            },
        },
{
}

/// An inspector URL is the path behind the URL of the distribution, where that is short enough.
pub proof fn law_inspector_urls_end_in_the_path(
    inspector_base: &str,
    path: &str,
    result: Result<String, ScanError>,
)
    requires
        call_ensures(build_inspector_url, (inspector_base, path), result),
    ensures
        match result {
            Ok(url) => url@ == inspector_base@ + path@ && encode_utf8(url@).len() <= 2048,
            Err(error) => {
                &&& encode_utf8(inspector_base@ + path@).len() > 2048
                &&& error == ScanError::InspectorUrlTooLong
            },
        },
{
}

/// Findings are added all or not at all, and not beyond what a job may report.
pub proof fn law_findings_are_added_together(
    findings: &mut Vec<OpenGrepFinding>,
    additional: Vec<OpenGrepFinding>,
    result: Result<(), ScanError>,
)
    requires
        call_ensures(append_findings, (findings, additional), result),
    ensures
        result is Ok <==> old(findings)@.len() + additional@.len() <= 500,
        result is Ok ==> final(findings)@ == old(findings)@ + additional@,
        result matches Err(error) ==> {
            &&& error == ScanError::TooManyFindings
            &&& final(findings)@ == old(findings)@
        },
{
}

/// What a finding says of contents: all of it but the path and the inspector URL.
pub open spec fn bare(finding: FindingView) -> FindingView {
    FindingView { path: Seq::empty(), inspector_url: Seq::empty(), ..finding }
}

/// What findings say of contents, each as often as it is said.
pub open spec fn bare_contents(findings: Seq<FindingView>) -> Multiset<FindingView> {
    Seq::new(findings.len(), |i: int| bare(findings[i])).to_multiset()
}

pub proof fn lemma_contents(findings: Seq<FindingView>)
    ensures
        contents_of(findings) == bare_contents(findings),
{
    assert(Seq::new(findings.len(), |i: int| placeless(findings[i])) =~= Seq::new(
        findings.len(),
        |i: int| bare(findings[i]),
    ));
}

/// Lists of findings have the same contents just where one says what the other does, each as often,
/// whatever the places and the order.
pub proof fn law_contents_are_all_but_the_places(
    first: &[OpenGrepFinding],
    second: &[OpenGrepFinding],
    same: bool,
)
    requires
        call_ensures(same_content, (first, second), same),
    ensures
        same <==> bare_contents(views(first@)) == bare_contents(views(second@)),
{
    lemma_contents(views(first@));
    lemma_contents(views(second@));
}

/// Contents are the JSON texts of the findings without their places, each as often, in order.
pub proof fn law_contents_are_texts_in_order(findings: &[OpenGrepFinding], values: Vec<String>)
    requires
        call_ensures(content_findings, (findings,), values),
    ensures
        views(values@).to_multiset() == Seq::new(
            findings@.len(),
            |i: int| finding_text(bare(findings@[i]@)),
        ).to_multiset(),
        forall|i: int, j: int|
            0 <= i < j < values@.len() ==> text_le(
                (#[trigger] values@[i])@,
                (#[trigger] values@[j])@,
            ),
{
    let all = views(findings@);
    assert(crate::content::content_texts(all) =~= Seq::new(
        findings@.len(),
        |i: int| finding_text(bare(findings@[i]@)),
    ));
    assert forall|i: int, j: int| 0 <= i < j < values@.len() implies text_le(
        (#[trigger] values@[i])@,
        (#[trigger] values@[j])@,
    ) by {
        let leq = |left: Seq<char>, right: Seq<char>| text_le(left, right);
        assert(leq(views(values@)[i], views(values@)[j]));
    }
}

/// Whether a member is a text.
pub open spec fn is_text(member: Option<&Json>, text: Seq<char>) -> bool {
    member matches Some(Json::Text(held)) && held@ == text
}

/// Whether a member is an array that starts with a text.
pub open spec fn starts_with_text(member: Option<&Json>, text: Seq<char>) -> bool {
    &&& member matches Some(Json::Array(items))
    &&& items@.len() > 0
    &&& items@[0] matches Json::Text(held)
    &&& held@ == text
}

/// An error is recoverable just where its level is `warn` and its type is `Timeout` or an array that
/// starts with `PartialParsing`. No other member counts: two errors with the same level and type
/// are both recoverable, or neither is.
pub proof fn law_recoverable_errors_are_warnings_of_two_kinds(
    error: &Json,
    level: Option<&Json>,
    kind: Option<&Json>,
    result: bool,
    other: &Json,
    other_result: bool,
)
    requires
        call_ensures(Json::get, (error, "level"), level),
        call_ensures(Json::get, (error, "type"), kind),
        call_ensures(is_recoverable_scan_warning, (error,), result),
        call_ensures(Json::get, (other, "level"), level),
        call_ensures(Json::get, (other, "type"), kind),
        call_ensures(is_recoverable_scan_warning, (other,), other_result),
    ensures
        result <==> is_text(level, "warn"@) && (is_text(kind, "Timeout"@) || starts_with_text(
            kind,
            "PartialParsing"@,
        )),
        other_result == result,
{
}

/// The start of a text, up to a number of characters.
pub open spec fn start_of(text: Seq<char>, limit: int) -> Seq<char> {
    if text.len() <= limit {
        text
    } else {
        text.subrange(0, limit)
    }
}

/// A warning that a rule timed out names the rule, behind its last dot; any other one names the
/// file, behind the last slash of its path.
pub proof fn law_warnings_name_their_rule_or_file(
    error: &Json,
    kind: Option<&Json>,
    rule: Option<&Json>,
    path: Option<&Json>,
    text: String,
)
    requires
        call_ensures(Json::get, (error, "type"), kind),
        call_ensures(Json::get, (error, "rule_id"), rule),
        call_ensures(Json::get, (error, "path"), path),
        call_ensures(describe_recoverable_scan_warning, (error,), text),
    ensures
        is_text(kind, "Timeout"@) ==> match rule {
            Some(Json::Text(rule_id)) => exists|part: Seq<char>|
                {
                    &&& #[trigger] stands_behind_last(rule_id@, '.', part)
                    &&& text@ == "OpenGrep rule "@ + start_of(part, 200) + " timed out"@
                },
            _ => text@ == "OpenGrep rule timed out"@,
        },
        !is_text(kind, "Timeout"@) ==> match path {
            Some(Json::Text(path)) => exists|part: Seq<char>|
                {
                    &&& #[trigger] stands_behind_last(path@, '/', part)
                    &&& text@ == "OpenGrep partially parsed "@ + start_of(part, 256)
                },
            _ => text@ == "OpenGrep partially parsed a target file"@,
        },
{
    if is_text(kind, "Timeout"@) {
        if let Some(Json::Text(rule_id)) = rule {
            lemma_after_last(rule_id@, '.');
            let part = after_last(rule_id@, '.');
            assert(truncated(part, 200) =~= start_of(part, 200));
        }
    } else {
        match path {
            Some(Json::Text(path)) => {
                lemma_after_last(path@, '/');
                let part = after_last(path@, '/');
                assert(truncated(part, 256) =~= start_of(part, 256));
            },
            _ => {
                reveal_strlit("OpenGrep partially parsed ");
                reveal_strlit("a target file");
                reveal_strlit("OpenGrep partially parsed a target file");
                assert("OpenGrep partially parsed "@ + "a target file"@
                    =~= "OpenGrep partially parsed a target file"@);
            },
        }
    }
}

proof fn lemma_errors(errors: Seq<ReportedError>)
    ensures
        ({
            let voids = |i: int| !recoverable(errors[i].value);
            fatal_errors(errors) == positions_where(errors.len(), voids).map_values(
                |i: int| errors[i].text@,
            )
        }),
        fatal_errors(errors).len() == 0 ==> warnings_of(errors) == Seq::new(
            errors.len(),
            |i: int| description(errors[i].value),
        ),
        fatal_errors(errors).len() == 0 <==> forall|i: int|
            0 <= i < errors.len() ==> recoverable((#[trigger] errors[i]).value),
    decreases errors.len(),
{
    let voids = |i: int| !recoverable(errors[i].value);
    let text = |i: int| errors[i].text@;
    lemma_positions_where(0, voids);
    if errors.len() > 0 {
        let before = errors.drop_last();
        let n = before.len();
        let earlier = |i: int| !recoverable(before[i].value);
        lemma_errors(before);
        lemma_positions_where(n, voids);
        assert(forall|i: int| 0 <= i < n ==> before[i] == errors[i]);
        assert forall|i: int| 0 <= i < n implies #[trigger] earlier(i) == voids(i) by {
            assert(before[i] == errors[i]);
        }
        lemma_same_positions(n, earlier, voids);
        lemma_listed_positions(n, voids);
        assert(errors[n as int] == errors.last());
        assert(positions_where(n, voids).map_values(|i: int| before[i].text@)
            =~= positions_where(n, voids).map_values(text));
        assert(fatal_errors(errors) =~= positions_where(errors.len(), voids).map_values(text));
        if fatal_errors(errors).len() == 0 {
            assert(warnings_of(errors) =~= Seq::new(
                errors.len(),
                |i: int| description(errors[i].value),
            ));
            assert forall|i: int| 0 <= i < errors.len() implies recoverable(
                (#[trigger] errors[i]).value,
            ) by {
                if i < n {
                    assert(recoverable(before[i].value));
                }
            }
        }
        if forall|i: int| 0 <= i < errors.len() ==> recoverable((#[trigger] errors[i]).value) {
            assert forall|i: int| 0 <= i < n implies recoverable((#[trigger] before[i]).value) by {
                assert(recoverable(errors[i].value));
            }
        }
    } else {
        assert(fatal_errors(errors) =~= positions_where(errors.len(), voids).map_values(text));
        assert(warnings_of(errors) =~= Seq::new(
            errors.len(),
            |i: int| description(errors[i].value),
        ));
    }
}

proof fn lemma_scanned(paths: Seq<Vec<u8>>, directory: Seq<u8>)
    ensures
        match scanned_set(paths, directory) {
            Ok(set) => {
                &&& forall|i: int|
                    0 <= i < paths.len() ==> reported_path((#[trigger] paths[i])@, directory) is Ok
                &&& forall|path: Seq<char>| #[trigger]
                    set.contains(path) <==> exists|i: int|
                        0 <= i < paths.len() && reported_path((#[trigger] paths[i])@, directory)
                            == Ok::<Seq<char>, ScanError>(path)
            },
            Err(error) => exists|i: int|
                {
                    &&& 0 <= i < paths.len()
                    &&& reported_path((#[trigger] paths[i])@, directory) == Err::<
                        Seq<char>,
                        ScanError,
                    >(error)
                    &&& forall|j: int|
                        0 <= j < i ==> reported_path((#[trigger] paths[j])@, directory) is Ok
                },
        },
    decreases paths.len(),
{
    if paths.len() > 0 {
        let before = paths.drop_last();
        lemma_scanned(before, directory);
        assert(paths[paths.len() - 1] == paths.last());
        assert(forall|i: int| 0 <= i < before.len() ==> before[i] == paths[i]);
        match scanned_set(before, directory) {
            Ok(earlier) => match reported_path(paths.last()@, directory) {
                Ok(last) => {
                    let set = scanned_set(paths, directory)->Ok_0;
                    assert forall|i: int| 0 <= i < paths.len() implies reported_path(
                        (#[trigger] paths[i])@,
                        directory,
                    ) is Ok by {
                        if i < before.len() {
                            assert(reported_path(before[i]@, directory) is Ok);
                        }
                    }
                    assert forall|path: Seq<char>| #[trigger] set.contains(path) <==> exists|i: int|
                        0 <= i < paths.len() && reported_path((#[trigger] paths[i])@, directory)
                            == Ok::<Seq<char>, ScanError>(path) by {
                        if earlier.contains(path) {
                            let i = choose|i: int|
                                0 <= i < before.len() && reported_path(
                                    (#[trigger] before[i])@,
                                    directory,
                                ) == Ok::<Seq<char>, ScanError>(path);
                            assert(reported_path(paths[i]@, directory) == Ok::<
                                Seq<char>,
                                ScanError,
                            >(path));
                        } else if path == last {
                            assert(reported_path(paths[paths.len() - 1]@, directory) == Ok::<
                                Seq<char>,
                                ScanError,
                            >(path));
                        } else if exists|i: int|
                            0 <= i < paths.len() && reported_path((#[trigger] paths[i])@, directory)
                                == Ok::<Seq<char>, ScanError>(path) {
                            let i = choose|i: int|
                                0 <= i < paths.len() && reported_path(
                                    (#[trigger] paths[i])@,
                                    directory,
                                ) == Ok::<Seq<char>, ScanError>(path);
                            assert(i < before.len());
                            assert(reported_path(before[i]@, directory) == Ok::<
                                Seq<char>,
                                ScanError,
                            >(path));
                        }
                    }
                },
                Err(error) => {
                    let i = paths.len() - 1;
                    assert forall|j: int| 0 <= j < i implies reported_path(
                        (#[trigger] paths[j])@,
                        directory,
                    ) is Ok by {
                        assert(reported_path(before[j]@, directory) is Ok);
                    }
                    assert(reported_path(paths[i]@, directory) == Err::<Seq<char>, ScanError>(
                        error,
                    ));
                },
            },
            Err(error) => {
                let i = choose|i: int|
                    {
                        &&& 0 <= i < before.len()
                        &&& reported_path((#[trigger] before[i])@, directory) == Err::<
                            Seq<char>,
                            ScanError,
                        >(error)
                        &&& forall|j: int|
                            0 <= j < i ==> reported_path((#[trigger] before[j])@, directory) is Ok
                    };
                assert forall|j: int| 0 <= j < i implies reported_path(
                    (#[trigger] paths[j])@,
                    directory,
                ) is Ok by {
                    assert(reported_path(before[j]@, directory) is Ok);
                }
                assert(reported_path(paths[i]@, directory) == Err::<Seq<char>, ScanError>(error));
            },
        }
    }
}

proof fn lemma_all_normalized(results: Seq<RawFinding>, directory: Seq<u8>, base: Seq<char>)
    ensures
        match all_normalized(results, directory, base) {
            Ok(found) => {
                &&& found.len() == results.len()
                &&& forall|i: int|
                    0 <= i < results.len() ==> normalized(#[trigger] results[i], directory, base)
                        == Ok::<FindingView, ScanError>(found[i])
            },
            Err(error) => exists|i: int|
                {
                    &&& 0 <= i < results.len()
                    &&& normalized(#[trigger] results[i], directory, base) == Err::<
                        FindingView,
                        ScanError,
                    >(error)
                    &&& forall|j: int|
                        0 <= j < i ==> normalized(#[trigger] results[j], directory, base) is Ok
                },
        },
    decreases results.len(),
{
    if results.len() > 0 {
        let before = results.drop_last();
        lemma_all_normalized(before, directory, base);
        assert(results[results.len() - 1] == results.last());
        assert(forall|i: int| 0 <= i < before.len() ==> before[i] == results[i]);
        match all_normalized(before, directory, base) {
            Ok(earlier) => {
                assert forall|j: int| 0 <= j < before.len() implies normalized(
                    #[trigger] results[j],
                    directory,
                    base,
                ) == Ok::<FindingView, ScanError>(earlier[j]) by {
                    assert(normalized(before[j], directory, base) == Ok::<FindingView, ScanError>(
                        earlier[j],
                    ));
                }
                if let Err(error) = normalized(results.last(), directory, base) {
                    assert(normalized(results[results.len() - 1], directory, base) == Err::<
                        FindingView,
                        ScanError,
                    >(error));
                }
            },
            Err(error) => {
                let i = choose|i: int|
                    {
                        &&& 0 <= i < before.len()
                        &&& normalized(#[trigger] before[i], directory, base) == Err::<
                            FindingView,
                            ScanError,
                        >(error)
                        &&& forall|j: int|
                            0 <= j < i ==> normalized(#[trigger] before[j], directory, base) is Ok
                    };
                assert forall|j: int| 0 <= j < i implies normalized(
                    #[trigger] results[j],
                    directory,
                    base,
                ) is Ok by {
                    assert(normalized(before[j], directory, base) is Ok);
                }
                assert(normalized(results[i], directory, base) == Err::<FindingView, ScanError>(
                    error,
                ));
            },
        }
    }
}

/// A JSON array of values, which are given as they are written.
pub open spec fn array_of(items: Seq<Seq<char>>) -> Seq<char> {
    seq!['['] + joined(items, seq![',']) + seq![']']
}

/// What the parts of a report are read as, each on its own.
pub struct Readings {
    /// Whether each error is recoverable, and what is said of it.
    pub verdicts: Seq<bool>,
    pub descriptions: Seq<String>,
    /// What is reported of each scanned path.
    pub reported: Seq<Result<String, ScanError>>,
    /// What is submitted for each finding.
    pub submitted: Seq<Result<OpenGrepFinding, ScanError>>,
}

/// Whether these are the readings of a report.
pub open spec fn are_readings(
    document: OpenGrepDocument,
    target_directory: &[u8],
    inspector_base: &str,
    paths: Seq<&[u8]>,
    readings: Readings,
) -> bool {
    &&& readings.verdicts.len() == document.errors@.len()
    &&& readings.descriptions.len() == document.errors@.len()
    &&& paths.len() == document.paths.scanned@.len()
    &&& readings.reported.len() == document.paths.scanned@.len()
    &&& readings.submitted.len() == document.results@.len()
    &&& forall|i: int|
        0 <= i < document.errors@.len() ==> call_ensures(
            is_recoverable_scan_warning,
            (&(#[trigger] document.errors@[i]).value,),
            readings.verdicts[i],
        ) && call_ensures(
            describe_recoverable_scan_warning,
            (&document.errors@[i].value,),
            readings.descriptions[i],
        )
    &&& forall|i: int|
        0 <= i < paths.len() ==> (#[trigger] paths[i])@ == document.paths.scanned@[i]@
            && call_ensures(
            relative_target_path,
            (paths[i], target_directory),
            readings.reported[i],
        )
    &&& forall|i: int|
        0 <= i < document.results@.len() ==> call_ensures(
            normalize_finding,
            (#[trigger] document.results@[i], target_directory, inspector_base),
            readings.submitted[i],
        )
}

/// Whether a result is a view, or the same failure.
spec fn agrees<T: View>(result: Result<T, ScanError>, view: Result<T::V, ScanError>) -> bool {
    match result {
        Ok(value) => view == Ok::<T::V, ScanError>(value@),
        Err(fault) => view == Err::<T::V, ScanError>(fault),
    }
}

proof fn lemma_readings(
    document: OpenGrepDocument,
    target_directory: &[u8],
    inspector_base: &str,
    paths: Seq<&[u8]>,
    readings: Readings,
)
    requires
        are_readings(document, target_directory, inspector_base, paths, readings),
    ensures
        forall|i: int|
            0 <= i < readings.verdicts.len() ==> #[trigger] readings.verdicts[i] == recoverable(
                document.errors@[i].value,
            ),
        forall|i: int|
            0 <= i < readings.descriptions.len() ==> (#[trigger] readings.descriptions[i])@
                == description(document.errors@[i].value),
        forall|i: int|
            0 <= i < readings.reported.len() ==> agrees(
                #[trigger] readings.reported[i],
                reported_path(document.paths.scanned@[i]@, target_directory@),
            ),
        forall|i: int|
            0 <= i < readings.submitted.len() ==> agrees(
                #[trigger] readings.submitted[i],
                normalized(document.results@[i], target_directory@, inspector_base@),
            ),
{
    assert forall|i: int| 0 <= i < readings.verdicts.len() implies #[trigger] readings.verdicts[i]
        == recoverable(document.errors@[i].value) by {
        let given = document.errors@[i];
    }
    assert forall|i: int| 0 <= i < readings.descriptions.len() implies (
    #[trigger] readings.descriptions[i])@ == description(document.errors@[i].value) by {
        let given = document.errors@[i];
    }
    assert forall|i: int| 0 <= i < readings.reported.len() implies agrees(
        #[trigger] readings.reported[i],
        reported_path(document.paths.scanned@[i]@, target_directory@),
    ) by {
        assert(paths[i]@ == document.paths.scanned@[i]@);
    }
    assert forall|i: int| 0 <= i < readings.submitted.len() implies agrees(
        #[trigger] readings.submitted[i],
        normalized(document.results@[i], target_directory@, inspector_base@),
    ) by {
        let given = document.results@[i];
    }
}

/// A run has what its report has: the report has no error that is not recoverable and no skipped
/// rule; the run has every finding, as it is submitted, in order, a warning for every error in
/// order, and just the scanned paths, as they are reported.
#[verifier::spinoff_prover]
#[verifier::rlimit(40)]
pub proof fn law_runs_have_all_of_their_report(
    document: OpenGrepDocument,
    target_directory: &[u8],
    inspector_base: &str,
    paths: Seq<&[u8]>,
    readings: Readings,
    run: OpenGrepRun,
)
    requires
        are_readings(document, target_directory, inspector_base, paths, readings),
        call_ensures(run_from_document, (document, target_directory, inspector_base), Ok(run)),
    ensures
        forall|i: int| 0 <= i < readings.verdicts.len() ==> #[trigger] readings.verdicts[i],
        document.skipped_rules@.len() == 0,
        run.findings@.len() == readings.submitted.len(),
        forall|i: int|
            0 <= i < run.findings@.len() ==> (readings.submitted[i] matches Ok(found) && found@ == (
            #[trigger] run.findings@[i])@),
        run.warnings@.len() == readings.descriptions.len(),
        forall|i: int|
            0 <= i < run.warnings@.len() ==> readings.descriptions[i]@ == (
            #[trigger] run.warnings@[i])@,
        forall|i: int| 0 <= i < readings.reported.len() ==> (#[trigger] readings.reported[i]) is Ok,
        forall|path: Seq<char>| #[trigger]
            run.scanned_paths@.contains(path) <==> exists|i: int|
                0 <= i < readings.reported.len() && ((
                #[trigger] readings.reported[i]) matches Ok(text) && text@ == path),
{
    let errors = document.errors@;
    let directory = target_directory@;
    let base = inspector_base@;
    let scanned = document.paths.scanned@;
    lemma_readings(document, target_directory, inspector_base, paths, readings);
    lemma_errors(errors);
    lemma_scanned(scanned, directory);
    lemma_all_normalized(document.results@, directory, base);
    assert(views(document.skipped_rules@).len() == document.skipped_rules@.len());
    assert(views(run.findings@).len() == run.findings@.len());
    assert(views(run.warnings@).len() == run.warnings@.len());
    assert forall|i: int| 0 <= i < readings.verdicts.len() implies #[trigger] readings.verdicts[i] by {
        assert(recoverable(errors[i].value));
    }
    assert forall|i: int| 0 <= i < run.findings@.len() implies (readings.submitted[i] matches Ok(
        found,
    ) && found@ == (#[trigger] run.findings@[i])@) by {
        let given = readings.submitted[i];
        assert(normalized(document.results@[i], directory, base) == Ok::<FindingView, ScanError>(
            views(run.findings@)[i],
        ));
    }
    assert forall|i: int| 0 <= i < run.warnings@.len() implies readings.descriptions[i]@ == (
    #[trigger] run.warnings@[i])@ by {
        assert(views(run.warnings@)[i] == description(errors[i].value));
        let given = readings.descriptions[i];
    }
    assert forall|i: int| 0 <= i < readings.reported.len() implies (
    #[trigger] readings.reported[i]) is Ok by {
        assert(reported_path(scanned[i]@, directory) is Ok);
    }
    assert forall|path: Seq<char>| #[trigger]
        run.scanned_paths@.contains(path) <==> exists|i: int|
        0 <= i < readings.reported.len() && ((#[trigger] readings.reported[i]) matches Ok(text)
            && text@ == path) by {
        let set = scanned_set(scanned, directory)->Ok_0;
        assert(set == run.scanned_paths@);
        assert(set.contains(path) == run.scanned_paths@.contains(path));
        if set.contains(path) {
            let i = choose|i: int|
                0 <= i < scanned.len() && reported_path((#[trigger] scanned[i])@, directory)
                    == Ok::<Seq<char>, ScanError>(path);
            assert(agrees(readings.reported[i], reported_path(scanned[i]@, directory)));
        }
        if exists|i: int|
            0 <= i < readings.reported.len() && ((#[trigger] readings.reported[i]) matches Ok(text)
                && text@ == path) {
            let i = choose|i: int|
                0 <= i < readings.reported.len() && ((
                #[trigger] readings.reported[i]) matches Ok(text) && text@ == path);
            assert(agrees(readings.reported[i], reported_path(scanned[i]@, directory)));
            assert(reported_path(scanned[i]@, directory) == Ok::<Seq<char>, ScanError>(path));
        }
    }
}

/// Whether a failure is the first in a list.
pub open spec fn is_first_failure<T>(results: Seq<Result<T, ScanError>>, error: ScanError) -> bool {
    exists|i: int|
        {
            &&& 0 <= i < results.len()
            &&& #[trigger] results[i] == Err::<T, ScanError>(error)
            &&& forall|j: int| 0 <= j < i ==> (#[trigger] results[j]) is Ok
        }
}

/// Whether no result in a list is a failure.
pub open spec fn none_fails<T>(results: Seq<Result<T, ScanError>>) -> bool {
    forall|i: int| 0 <= i < results.len() ==> (#[trigger] results[i]) is Ok
}

/// A report gives no run only where an error is not recoverable, or a rule was skipped, or a path
/// cannot be reported, or a finding cannot be submitted. The failure has all errors that are not
/// recoverable, or else all skipped rules, or else it is the first of a path, or else the first of a
/// finding.
#[verifier::spinoff_prover]
#[verifier::rlimit(40)]
pub proof fn law_reports_fail_for_a_reason(
    document: OpenGrepDocument,
    target_directory: &[u8],
    inspector_base: &str,
    paths: Seq<&[u8]>,
    readings: Readings,
    error: ScanError,
)
    requires
        are_readings(document, target_directory, inspector_base, paths, readings),
        call_ensures(run_from_document, (document, target_directory, inspector_base), Err(error)),
    ensures
        if exists|i: int| 0 <= i < readings.verdicts.len() && !#[trigger] readings.verdicts[i] {
            &&& error matches ScanError::EngineErrors(json)
            &&& json@ == array_of(
                positions_where(
                    readings.verdicts.len(),
                    |i: int| !readings.verdicts[i],
                ).map_values(|i: int| document.errors@[i].text@),
            )
        } else if document.skipped_rules@.len() > 0 {
            &&& error matches ScanError::SkippedRules(json)
            &&& json@ == array_of(views(document.skipped_rules@))
        } else if !none_fails(readings.reported) {
            is_first_failure(readings.reported, error)
        } else {
            is_first_failure(readings.submitted, error)
        },
{
    let errors = document.errors@;
    let directory = target_directory@;
    let base = inspector_base@;
    let scanned = document.paths.scanned@;
    let results = document.results@;
    let verdicts = readings.verdicts;
    lemma_readings(document, target_directory, inspector_base, paths, readings);
    lemma_errors(errors);
    lemma_scanned(scanned, directory);
    lemma_all_normalized(results, directory, base);
    assert(views(document.skipped_rules@).len() == document.skipped_rules@.len());
    if exists|i: int| 0 <= i < verdicts.len() && !#[trigger] verdicts[i] {
        let i = choose|i: int| 0 <= i < verdicts.len() && !#[trigger] verdicts[i];
        assert(!recoverable(errors[i].value));
        lemma_brackets();
        let voids = |i: int| !recoverable(errors[i].value);
        let voided = |i: int| !readings.verdicts[i];
        assert forall|i: int| 0 <= i < errors.len() implies #[trigger] voids(i) == voided(i) by {
            assert(verdicts[i] == recoverable(errors[i].value));
        }
        lemma_same_positions(errors.len(), voids, voided);
    } else {
        assert forall|i: int| 0 <= i < errors.len() implies recoverable(
            (#[trigger] errors[i]).value,
        ) by {
            assert(verdicts[i]);
        }
        if document.skipped_rules@.len() > 0 {
            lemma_brackets();
        } else {
            match scanned_set(scanned, directory) {
                Err(fault) => {
                    let k = choose|k: int|
                        {
                            &&& 0 <= k < scanned.len()
                            &&& reported_path((#[trigger] scanned[k])@, directory) == Err::<
                                Seq<char>,
                                ScanError,
                            >(fault)
                            &&& forall|j: int|
                                0 <= j < k ==> reported_path((#[trigger] scanned[j])@, directory)
                                    is Ok
                        };
                    assert(agrees(
                        readings.reported[k],
                        reported_path(scanned[k]@, directory),
                    ));
                    assert(readings.reported[k] == Err::<String, ScanError>(error));
                    assert forall|j: int| 0 <= j < k implies (
                    #[trigger] readings.reported[j]) is Ok by {
                        assert(reported_path(scanned[j]@, directory) is Ok);
                    }
                },
                Ok(_) => {
                    assert forall|j: int| 0 <= j < readings.reported.len() implies (
                    #[trigger] readings.reported[j]) is Ok by {
                        assert(reported_path(scanned[j]@, directory) is Ok);
                    }
                    let k = choose|k: int|
                        {
                            &&& 0 <= k < results.len()
                            &&& normalized(#[trigger] results[k], directory, base) == Err::<
                                FindingView,
                                ScanError,
                            >(error)
                            &&& forall|j: int|
                                0 <= j < k ==> normalized(#[trigger] results[j], directory, base)
                                    is Ok
                        };
                    assert(agrees(
                        readings.submitted[k],
                        normalized(results[k], directory, base),
                    ));
                    assert(readings.submitted[k] == Err::<OpenGrepFinding, ScanError>(error));
                    assert forall|j: int| 0 <= j < k implies (
                    #[trigger] readings.submitted[j]) is Ok by {
                        assert(normalized(results[j], directory, base) is Ok);
                    }
                },
            }
        }
    }
}

proof fn lemma_brackets()
    ensures
        "["@ == seq!['['],
        "]"@ == seq![']'],
        ","@ == seq![','],
{
    reveal_strlit("[");
    reveal_strlit("]");
    reveal_strlit(",");
    assert("["@ =~= seq!['[']);
    assert("]"@ =~= seq![']']);
    assert(","@ =~= seq![',']);
}

/// A program is left alone once it has exited. Before that it is stopped where it has printed too
/// much to either stream, or else where its time is over; otherwise it is waited for.
pub proof fn law_programs_are_stopped_in_time(
    exited: bool,
    stdout_len: u64,
    stderr_len: u64,
    elapsed: u128,
    deadline: u128,
    missed: Deadline,
    step: ChildStep,
)
    requires
        call_ensures(
            wait_for_child,
            (exited, stdout_len, stderr_len, elapsed, deadline, missed),
            step,
        ),
    ensures
        step is Finished <==> exited,
        step == ChildStep::Kill(ScanError::OutputTooLarge) <==> !exited && (stdout_len > 4194304
            || stderr_len > 4194304),
        step == ChildStep::Kill(ScanError::Timeout(missed)) <==> !exited && stdout_len <= 4194304
            && stderr_len <= 4194304 && elapsed >= deadline,
        step is Wait <==> !exited && stdout_len <= 4194304 && stderr_len <= 4194304 && elapsed
            < deadline,
{
}

/// Output is taken just where it is short enough and UTF-8, and is taken whole.
pub proof fn law_output_is_taken_whole(bytes: Vec<u8>, result: Result<String, ScanError>)
    requires
        call_ensures(read_bounded, (bytes,), result),
    ensures
        result is Ok <==> bytes@.len() <= 4194304 && valid_utf8(bytes@),
        result matches Ok(text) ==> encode_utf8(text@) == bytes@,
        result matches Err(error) ==> if bytes@.len() > 4194304 {
            error == ScanError::OutputTooLarge
        } else {
            error matches ScanError::OutputNotUtf8(reason) && reason@ == utf8_fault(bytes@)
        },
{
    if valid_utf8(bytes@) {
        decode_utf8_encode_utf8(bytes@);
    }
}

/// A failure of the engine is told with its status and the start of what it printed.
pub proof fn law_engine_failures_are_told(
    success: bool,
    status: &str,
    stderr: &str,
    result: Result<(), ScanError>,
)
    requires
        call_ensures(check_engine_exit, (success, status, stderr), result),
    ensures
        result is Ok <==> success,
        result matches Err(error) ==> {
            &&& error matches ScanError::EngineExit { status: given, stderr: shown }
            &&& given@ == status@
            &&& shown@ == start_of(stderr@, 1024)
        },
{
    assert(truncated(stderr@, 1024) =~= start_of(stderr@, 1024));
}

/// The engine is called with the rules, the directory and the limits, one job, and five seconds for
/// each rule; both directories have to be UTF-8.
pub proof fn law_the_engine_is_called_with_its_limits(
    rules_directory: Vec<u8>,
    target_directory: Vec<u8>,
    max_scan_size: u64,
    result: Result<Vec<String>, ScanError>,
)
    requires
        call_ensures(scan_arguments, (rules_directory, target_directory, max_scan_size), result),
    ensures
        result is Ok <==> valid_utf8(rules_directory@) && valid_utf8(target_directory@),
        result matches Ok(arguments) ==> {
            &&& arguments@.len() == 12
            &&& arguments@[0]@ == "scan"@
            &&& arguments@[1]@ == "--config"@
            &&& encode_utf8(arguments@[2]@) == rules_directory@
            &&& arguments@[3]@ == "--json"@
            &&& arguments@[4]@ == "--no-git-ignore"@
            &&& arguments@[5]@ == "--jobs"@
            &&& arguments@[6]@ == "1"@
            &&& arguments@[7]@ == "--timeout"@
            &&& arguments@[8]@ == "5"@
            &&& arguments@[9]@ == "--max-target-bytes"@
            &&& decimal_value(arguments@[10]@) == max_scan_size
            &&& encode_utf8(arguments@[11]@) == target_directory@
        },
        result matches Err(error) ==> error == (if valid_utf8(rules_directory@) {
            ScanError::TargetPathNotUtf8
        } else {
            ScanError::RulePathNotUtf8
        }),
{
    if let Ok(arguments) = result {
        decode_utf8_encode_utf8(rules_directory@);
        decode_utf8_encode_utf8(target_directory@);
        crate::promises::values::lemma_decimal_value(max_scan_size as nat);
        let all = views(arguments@);
        assert(all.len() == arguments@.len());
        assert(forall|i: int| 0 <= i < 12 ==> (#[trigger] arguments@[i])@ == all[i]);
    }
}

} // verus!
