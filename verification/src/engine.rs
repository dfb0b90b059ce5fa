//! The OpenGrep engine: how it is called, how long it may run, and what its output means.

use vstd::prelude::*;
use vstd::utf8::*;

use crate::error::{Deadline, ScanError, MAX_OPENGREP_OUTPUT_BYTES};
use crate::findings::{normalize_finding, normalized, RawFinding};
use crate::index::TextSet;
use crate::json::{array_text, write_array, Json};
use crate::models::{FindingView, OpenGrepFinding};
use crate::numbers::{decimal, format_decimal};
use crate::paths::{relative_target_path, reported_path};
use crate::text::{
    after_last, suffix_after, text_equal, truncate, truncated, utf8_fault, utf8_text, views,
};

verus! {

/// How long one run of the engine may take, in nanoseconds.
pub const SCAN_DEADLINE_NS: u128 = 60_000_000_000;

/// How long the inspection of a rule corpus may take, in nanoseconds.
pub const RULE_INSPECTION_DEADLINE_NS: u128 = 10_000_000_000;

/// How many characters of a failed program's output are reported.
pub const REPORTED_STDERR_CHARS: usize = 1024;

/// The files that the engine scanned.
#[derive(Debug)]
pub struct ScannedPaths {
    pub scanned: Vec<Vec<u8>>,
}

/// An error that the engine reports.
#[derive(Debug)]
pub struct ReportedError {
    /// The error.
    pub value: Json,
    /// The error as it is written in JSON.
    pub text: String,
}

/// The engine's report.
#[derive(Debug)]
pub struct OpenGrepDocument {
    pub paths: ScannedPaths,
    pub results: Vec<RawFinding>,
    pub errors: Vec<ReportedError>,
    /// The rules that were left out, as they are written in JSON.
    pub skipped_rules: Vec<String>,
}

/// What a run of the engine gave.
pub struct OpenGrepRun {
    pub findings: Vec<OpenGrepFinding>,
    pub warnings: Vec<String>,
    pub scanned_paths: TextSet,
}

/// What to do with a running program.
#[derive(Debug)]
pub enum ChildStep {
    /// It is done.
    Finished,
    /// Look again later.
    Wait,
    /// Stop it, and fail.
    Kill(ScanError),
}

/// Decides what to do with a program, given whether it has exited, how much it has printed to
/// either stream, and for how long it has run.
pub fn wait_for_child(
    exited: bool,
    stdout_len: u64,
    stderr_len: u64,
    elapsed: u128,
    deadline: u128,
    missed: Deadline,
) -> (step: ChildStep)
    ensures
        step == (if exited {
            ChildStep::Finished
        } else if stdout_len > MAX_OPENGREP_OUTPUT_BYTES || stderr_len > MAX_OPENGREP_OUTPUT_BYTES {
            ChildStep::Kill(ScanError::OutputTooLarge)
        } else if elapsed >= deadline {
            ChildStep::Kill(ScanError::Timeout(missed))
        } else {
            ChildStep::Wait
        }),
{
    if exited {
        ChildStep::Finished
    } else if stdout_len > MAX_OPENGREP_OUTPUT_BYTES || stderr_len > MAX_OPENGREP_OUTPUT_BYTES {
        ChildStep::Kill(ScanError::OutputTooLarge)
    } else if elapsed >= deadline {
        ChildStep::Kill(ScanError::Timeout(missed))
    } else {
        ChildStep::Wait
    }
}

/// The text of an output stream, of which one byte more than is taken may have been read.
pub fn read_bounded(bytes: Vec<u8>) -> (result: Result<String, ScanError>)
    ensures
        match result {
            Ok(text) => {
                &&& bytes@.len() <= MAX_OPENGREP_OUTPUT_BYTES
                &&& valid_utf8(bytes@)
                &&& text@ == decode_utf8(bytes@)
            },
            Err(error) => if bytes@.len() > MAX_OPENGREP_OUTPUT_BYTES {
                error == ScanError::OutputTooLarge
            } else {
                &&& !valid_utf8(bytes@)
                &&& error matches ScanError::OutputNotUtf8(reason)
                &&& reason@ == utf8_fault(bytes@)
            },
        },
{
    if bytes.len() as u64 > MAX_OPENGREP_OUTPUT_BYTES {
        return Err(ScanError::OutputTooLarge);
    }
    match utf8_text(bytes) {
        Ok(text) => Ok(text),
        Err(reason) => Err(ScanError::OutputNotUtf8(reason)),
    }
}

/// Fails where the engine did, with the start of what it printed.
pub fn check_engine_exit(success: bool, status: &str, stderr: &str) -> (result: Result<
    (),
    ScanError,
>)
    ensures
        match result {
            Ok(()) => success,
            Err(error) => {
                &&& !success
                &&& error matches ScanError::EngineExit { status: given, stderr: shown }
                &&& given@ == status@
                &&& shown@ == truncated(stderr@, REPORTED_STDERR_CHARS as nat)
            },
        },
{
    if success {
        Ok(())
    } else {
        Err(
            ScanError::EngineExit {
                status: status.to_owned(),
                stderr: truncate(stderr, REPORTED_STDERR_CHARS),
            },
        )
    }
}

/// The arguments that the engine is called with.
pub open spec fn engine_arguments(
    rules_directory: Seq<char>,
    target_directory: Seq<char>,
    max_scan_size: u64,
) -> Seq<Seq<char>> {
    seq![
        "scan"@,
        "--config"@,
        rules_directory,
        "--json"@,
        "--no-git-ignore"@,
        "--jobs"@,
        "1"@,
        "--timeout"@,
        "5"@,
        "--max-target-bytes"@,
        decimal(max_scan_size as nat),
        target_directory,
    ]
}

/// The arguments that the engine is called with to scan a directory.
pub fn scan_arguments(
    rules_directory: Vec<u8>,
    target_directory: Vec<u8>,
    max_scan_size: u64,
) -> (result: Result<Vec<String>, ScanError>)
    ensures
        match result {
            Ok(arguments) => {
                &&& valid_utf8(rules_directory@)
                &&& valid_utf8(target_directory@)
                &&& views(arguments@) == engine_arguments(
                    decode_utf8(rules_directory@),
                    decode_utf8(target_directory@),
                    max_scan_size,
                )
            },
            Err(error) => if !valid_utf8(rules_directory@) {
                error == ScanError::RulePathNotUtf8
            } else {
                &&& !valid_utf8(target_directory@)
                &&& error == ScanError::TargetPathNotUtf8
            },
        },
{
    let rules = match utf8_text(rules_directory) {
        Ok(text) => text,
        Err(_) => return Err(ScanError::RulePathNotUtf8),
    };
    let target = match utf8_text(target_directory) {
        Ok(text) => text,
        Err(_) => return Err(ScanError::TargetPathNotUtf8),
    };
    let size = format_decimal(max_scan_size);
    let mut arguments: Vec<String> = Vec::new();
    arguments.push("scan".to_owned());
    arguments.push("--config".to_owned());
    arguments.push(rules);
    arguments.push("--json".to_owned());
    arguments.push("--no-git-ignore".to_owned());
    arguments.push("--jobs".to_owned());
    arguments.push("1".to_owned());
    arguments.push("--timeout".to_owned());
    arguments.push("5".to_owned());
    arguments.push("--max-target-bytes".to_owned());
    arguments.push(size);
    arguments.push(target);
    assert(views(arguments@) =~= engine_arguments(
        decode_utf8(rules_directory@),
        decode_utf8(target_directory@),
        max_scan_size,
    ));
    Ok(arguments)
}

/// Whether the results beside an error are still good: a warning that a rule timed out, or that a
/// file was parsed in part.
pub open spec fn recoverable(error: Json) -> bool {
    &&& error.text_field("level"@) == Some("warn"@)
    &&& {
        ||| error.text_field("type"@) == Some("Timeout"@)
        ||| error.first_text("type"@) == Some("PartialParsing"@)
    }
}

/// Whether the results beside an error are still good.
pub fn is_recoverable_scan_warning(error: &Json) -> (result: bool)
    ensures
        result == recoverable(*error),
{
    match error.get_text("level") {
        Some(level) => if !text_equal(level, "warn") {
            return false;
        },
        None => return false,
    }
    let timeout = match error.get_text("type") {
        Some(kind) => text_equal(kind, "Timeout"),
        None => false,
    };
    timeout || match error.get_first_text("type") {
        Some(kind) => text_equal(kind, "PartialParsing"),
        None => false,
    }
}

/// What is said of a recoverable warning.
pub open spec fn description(error: Json) -> Seq<char> {
    if error.text_field("type"@) == Some("Timeout"@) {
        match error.text_field("rule_id"@) {
            None => "OpenGrep rule timed out"@,
            Some(rule_id) => "OpenGrep rule "@ + truncated(after_last(rule_id, '.'), 200)
                + " timed out"@,
        }
    } else {
        let path = match error.text_field("path"@) {
            None => "a target file"@,
            Some(path) => after_last(path, '/'),
        };
        "OpenGrep partially parsed "@ + truncated(path, 256)
    }
}

/// Says what a recoverable warning is about.
pub fn describe_recoverable_scan_warning(error: &Json) -> (text: String)
    ensures
        text@ == description(*error),
{
    let timeout = match error.get_text("type") {
        Some(kind) => text_equal(kind, "Timeout"),
        None => false,
    };
    if timeout {
        return match error.get_text("rule_id") {
            None => "OpenGrep rule timed out".to_owned(),
            Some(rule_id) => {
                let mut text = "OpenGrep rule ".to_owned();
                text.append(truncate(suffix_after(rule_id, '.').as_str(), 200).as_str());
                text.append(" timed out");
                text
            },
        };
    }
    let path = match error.get_text("path") {
        None => "a target file".to_owned(),
        Some(path) => suffix_after(path, '/'),
    };
    let mut text = "OpenGrep partially parsed ".to_owned();
    text.append(truncate(path.as_str(), 256).as_str());
    text
}

/// The errors that void the results, as they are written.
pub open spec fn fatal_errors(errors: Seq<ReportedError>) -> Seq<Seq<char>>
    decreases errors.len(),
{
    if errors.len() == 0 {
        Seq::empty()
    } else {
        let before = fatal_errors(errors.drop_last());
        if recoverable(errors.last().value) {
            before
        } else {
            before.push(errors.last().text@)
        }
    }
}

/// What is said of the recoverable errors.
pub open spec fn warnings_of(errors: Seq<ReportedError>) -> Seq<Seq<char>>
    decreases errors.len(),
{
    if errors.len() == 0 {
        Seq::empty()
    } else {
        let before = warnings_of(errors.drop_last());
        if recoverable(errors.last().value) {
            before.push(description(errors.last().value))
        } else {
            before
        }
    }
}

/// The paths that are reported for the files that the engine scanned; the first fault counts.
pub open spec fn scanned_set(paths: Seq<Vec<u8>>, target_directory: Seq<u8>) -> Result<
    Set<Seq<char>>,
    ScanError,
>
    decreases paths.len(),
{
    if paths.len() == 0 {
        Ok(Set::empty())
    } else {
        match scanned_set(paths.drop_last(), target_directory) {
            Err(error) => Err(error),
            Ok(before) => match reported_path(paths.last()@, target_directory) {
                Err(error) => Err(error),
                Ok(path) => Ok(before.insert(path)),
            },
        }
    }
}

/// The findings that are submitted for those of the engine; the first fault counts.
pub open spec fn all_normalized(
    results: Seq<RawFinding>,
    target_directory: Seq<u8>,
    inspector_base: Seq<char>,
) -> Result<Seq<FindingView>, ScanError>
    decreases results.len(),
{
    if results.len() == 0 {
        Ok(Seq::empty())
    } else {
        match all_normalized(results.drop_last(), target_directory, inspector_base) {
            Err(error) => Err(error),
            Ok(before) => match normalized(results.last(), target_directory, inspector_base) {
                Err(error) => Err(error),
                Ok(finding) => Ok(before.push(finding)),
            },
        }
    }
}

/// A fault among the first paths is the fault of all of them.
proof fn lemma_scanned_fault_stays(paths: Seq<Vec<u8>>, directory: Seq<u8>, end: int)
    requires
        0 <= end <= paths.len(),
        scanned_set(paths.take(end), directory) is Err,
    ensures
        scanned_set(paths, directory) == scanned_set(paths.take(end), directory),
    decreases paths.len() - end,
{
    if end == paths.len() {
        assert(paths.take(end) == paths);
    } else {
        assert(paths.take(end + 1).drop_last() == paths.take(end));
        lemma_scanned_fault_stays(paths, directory, end + 1);
    }
}

/// A fault among the first findings is the fault of all of them.
proof fn lemma_normalized_fault_stays(
    results: Seq<RawFinding>,
    directory: Seq<u8>,
    base: Seq<char>,
    end: int,
)
    requires
        0 <= end <= results.len(),
        all_normalized(results.take(end), directory, base) is Err,
    ensures
        all_normalized(results, directory, base) == all_normalized(
            results.take(end),
            directory,
            base,
        ),
    decreases results.len() - end,
{
    if end == results.len() {
        assert(results.take(end) == results);
    } else {
        assert(results.take(end + 1).drop_last() == results.take(end));
        lemma_normalized_fault_stays(results, directory, base, end + 1);
    }
}

/// Collects the paths that the engine scanned.
fn collect_scanned(paths: &[Vec<u8>], target_directory: &[u8]) -> (result: Result<
    TextSet,
    ScanError,
>)
    ensures
        match result {
            Ok(set) => scanned_set(paths@, target_directory@) == Ok::<
                Set<Seq<char>>,
                ScanError,
            >(set@),
            Err(error) => scanned_set(paths@, target_directory@) == Err::<
                Set<Seq<char>>,
                ScanError,
            >(error),
        },
{
    let mut set = TextSet::new();
    let mut i: usize = 0;
    while i < paths.len()
        invariant
            i <= paths@.len(),
            scanned_set(paths@.take(i as int), target_directory@) == Ok::<
                Set<Seq<char>>,
                ScanError,
            >(set@),
        decreases paths@.len() - i,
    {
        assert(paths@.take(i + 1).drop_last() == paths@.take(i as int));
        assert(paths@.take(i + 1).last() == paths@[i as int]);
        match relative_target_path(paths[i].as_slice(), target_directory) {
            Ok(path) => set.insert(path),
            Err(error) => {
                proof {
                    lemma_scanned_fault_stays(paths@, target_directory@, i + 1);
                }
                return Err(error);
            },
        }
        i += 1;
    }
    assert(paths@.take(paths@.len() as int) == paths@);
    Ok(set)
}

/// Turns the findings of the engine into those that are submitted.
fn normalize_findings(
    results: Vec<RawFinding>,
    target_directory: &[u8],
    inspector_base: &str,
) -> (result: Result<Vec<OpenGrepFinding>, ScanError>)
    ensures
        match result {
            Ok(findings) => all_normalized(results@, target_directory@, inspector_base@) == Ok::<
                Seq<FindingView>,
                ScanError,
            >(views(findings@)),
            Err(error) => all_normalized(results@, target_directory@, inspector_base@) == Err::<
                Seq<FindingView>,
                ScanError,
            >(error),
        },
{
    let ghost all = results@;
    let mut findings: Vec<OpenGrepFinding> = Vec::new();
    assert(views(findings@) == Seq::<FindingView>::empty());
    for finding in it: results
        invariant
            it.seq() == all,
            all_normalized(all.take(it.index() as int), target_directory@, inspector_base@) == Ok::<
                Seq<FindingView>,
                ScanError,
            >(views(findings@)),
    {
        let ghost i = it.index() as int;
        let ghost before = views(findings@);
        assert(all.take(i + 1).drop_last() == all.take(i));
        assert(all.take(i + 1).last() == all[i]);
        match normalize_finding(finding, target_directory, inspector_base) {
            Ok(found) => {
                findings.push(found);
                assert(views(findings@) == before.push(found@));
            },
            Err(error) => {
                proof {
                    lemma_normalized_fault_stays(all, target_directory@, inspector_base@, i + 1);
                }
                return Err(error);
            },
        }
    }
    assert(all.take(all.len() as int) == all);
    Ok(findings)
}

/// Whether a run is what a report means.
pub open spec fn means(
    document: OpenGrepDocument,
    target_directory: Seq<u8>,
    inspector_base: Seq<char>,
    result: Result<OpenGrepRun, ScanError>,
) -> bool {
    let fatal = fatal_errors(document.errors@);
    let skipped = views(document.skipped_rules@);
    let scanned = scanned_set(document.paths.scanned@, target_directory);
    let findings = all_normalized(document.results@, target_directory, inspector_base);
    match result {
        Ok(run) => {
            &&& fatal.len() == 0
            &&& skipped.len() == 0
            &&& scanned == Ok::<Set<Seq<char>>, ScanError>(run.scanned_paths@)
            &&& findings == Ok::<Seq<FindingView>, ScanError>(views(run.findings@))
            &&& views(run.warnings@) == warnings_of(document.errors@)
        },
        Err(error) => if fatal.len() > 0 {
            &&& error matches ScanError::EngineErrors(json)
            &&& json@ == array_text(fatal)
        } else if skipped.len() > 0 {
            &&& error matches ScanError::SkippedRules(json)
            &&& json@ == array_text(skipped)
        } else {
            match scanned {
                Err(fault) => error == fault,
                Ok(_) => findings == Err::<Seq<FindingView>, ScanError>(error),
            }
        },
    }
}

/// What a run of the engine gave, from its report. Errors that void the results and skipped rules
/// fail the run; recoverable errors become warnings, and the findings are kept.
pub fn run_from_document(
    document: OpenGrepDocument,
    target_directory: &[u8],
    inspector_base: &str,
) -> (result: Result<OpenGrepRun, ScanError>)
    ensures
        means(document, target_directory@, inspector_base@, result),
{
    let ghost errors = document.errors@;
    let mut fatal: Vec<String> = Vec::new();
    let mut warnings: Vec<String> = Vec::new();
    assert(views(warnings@) == Seq::<Seq<char>>::empty());
    assert(views(fatal@) == Seq::<Seq<char>>::empty());
    for error in it: document.errors
        invariant
            it.seq() == errors,
            views(fatal@) == fatal_errors(errors.take(it.index() as int)),
            views(warnings@) == warnings_of(errors.take(it.index() as int)),
    {
        let ghost i = it.index() as int;
        let ghost before = views(warnings@);
        let ghost voided = views(fatal@);
        assert(errors.take(i + 1).drop_last() == errors.take(i));
        assert(errors.take(i + 1).last() == errors[i]);
        if is_recoverable_scan_warning(&error.value) {
            warnings.push(describe_recoverable_scan_warning(&error.value));
            assert(views(warnings@) == before.push(description(error.value)));
        } else {
            fatal.push(error.text);
            assert(views(fatal@) == voided.push(error.text@));
        }
    }
    assert(errors.take(errors.len() as int) == errors);
    assert(views(fatal@).len() == fatal@.len());
    assert(views(document.skipped_rules@).len() == document.skipped_rules@.len());
    if fatal.len() > 0 {
        return Err(ScanError::EngineErrors(write_array(fatal.as_slice())));
    }
    if document.skipped_rules.len() > 0 {
        return Err(ScanError::SkippedRules(write_array(document.skipped_rules.as_slice())));
    }
    let scanned_paths = match collect_scanned(document.paths.scanned.as_slice(), target_directory) {
        Ok(set) => set,
        Err(error) => return Err(error),
    };
    let findings = match normalize_findings(document.results, target_directory, inspector_base) {
        Ok(findings) => findings,
        Err(error) => return Err(error),
    };
    Ok(OpenGrepRun { findings, warnings, scanned_paths })
}

} // verus!
