//! Findings: from what the engine reports to what is submitted.

use vstd::prelude::*;
use vstd::multiset::Multiset;
use vstd::utf8::*;

use crate::error::{ScanError, MAX_FINDINGS};
use crate::models::{FindingView, OpenGrepFinding};
use crate::paths::{relative_target_path, reported_path};
use crate::text::{after_last, suffix_after};

verus! {

/// The most bytes of a message that is reported.
pub const MAX_MESSAGE_BYTES: usize = 1024;

/// The most bytes of an inspector URL that is reported.
pub const MAX_INSPECTOR_URL_BYTES: usize = 2048;

/// A position in a file.
#[derive(Debug)]
pub struct Position {
    pub line: u64,
}

/// What a rule says of its findings.
#[derive(Debug)]
pub struct FindingMetadata {
    pub evidence: String,
    pub confidence: String,
    pub execution_context: String,
}

/// The details of a finding.
#[derive(Debug)]
pub struct FindingExtra {
    pub message: String,
    pub severity: String,
    pub metadata: FindingMetadata,
}

/// A finding as the engine reports it.
#[derive(Debug)]
pub struct RawFinding {
    /// The rule, behind the path of the file that holds it.
    pub check_id: String,
    /// The file, absolute or relative to what was scanned.
    pub path: Vec<u8>,
    pub start: Position,
    pub end: Position,
    pub extra: FindingExtra,
}

/// The inspector URL of a file, or why there is none.
pub open spec fn inspector_url(base: Seq<char>, path: Seq<char>) -> Result<Seq<char>, ScanError> {
    if encode_utf8(base + path).len() > MAX_INSPECTOR_URL_BYTES {
        Err(ScanError::InspectorUrlTooLong)
    } else {
        Ok(base + path)
    }
}

/// Builds the inspector URL of a file: the path behind the URL of its distribution.
pub fn build_inspector_url(inspector_base: &str, path: &str) -> (result: Result<String, ScanError>)
    ensures
        match result {
            Ok(url) => inspector_url(inspector_base@, path@) == Ok::<Seq<char>, ScanError>(url@),
            Err(error) => inspector_url(inspector_base@, path@) == Err::<Seq<char>, ScanError>(
                error,
            ),
        },
{
    let mut url = inspector_base.to_owned();
    url.append(path);
    if url.as_str().as_bytes().len() > MAX_INSPECTOR_URL_BYTES {
        return Err(ScanError::InspectorUrlTooLong);
    }
    Ok(url)
}

/// The finding that is submitted for one that the engine reports, or why there is none.
pub open spec fn normalized(
    finding: RawFinding,
    target_directory: Seq<u8>,
    inspector_base: Seq<char>,
) -> Result<FindingView, ScanError> {
    match reported_path(finding.path@, target_directory) {
        Err(error) => Err(error),
        Ok(path) => if encode_utf8(finding.extra.message@).len() > MAX_MESSAGE_BYTES {
            Err(ScanError::MessageTooLong)
        } else {
            match inspector_url(inspector_base, path) {
                Err(error) => Err(error),
                Ok(url) => Ok(
                    FindingView {
                        rule_id: after_last(finding.check_id@, '.'),
                        path,
                        start_line: finding.start.line,
                        end_line: finding.end.line,
                        message: finding.extra.message@,
                        severity: finding.extra.severity@,
                        evidence: finding.extra.metadata.evidence@,
                        confidence: finding.extra.metadata.confidence@,
                        execution_context: finding.extra.metadata.execution_context@,
                        inspector_url: url,
                    },
                ),
            }
        },
    }
}

/// Turns a finding of the engine into one that is submitted.
pub fn normalize_finding(
    finding: RawFinding,
    target_directory: &[u8],
    inspector_base: &str,
) -> (result: Result<OpenGrepFinding, ScanError>)
    ensures
        match result {
            Ok(found) => normalized(finding, target_directory@, inspector_base@) == Ok::<
                FindingView,
                ScanError,
            >(found@),
            Err(error) => normalized(finding, target_directory@, inspector_base@) == Err::<
                FindingView,
                ScanError,
            >(error),
        },
{
    let path = match relative_target_path(finding.path.as_slice(), target_directory) {
        Ok(path) => path,
        Err(error) => return Err(error),
    };
    if finding.extra.message.as_str().as_bytes().len() > MAX_MESSAGE_BYTES {
        return Err(ScanError::MessageTooLong);
    }
    let inspector_url = match build_inspector_url(inspector_base, path.as_str()) {
        Ok(url) => url,
        Err(error) => return Err(error),
    };
    let rule_id = suffix_after(finding.check_id.as_str(), '.');
    Ok(
        OpenGrepFinding {
            rule_id,
            path,
            start_line: finding.start.line,
            end_line: finding.end.line,
            message: finding.extra.message,
            severity: finding.extra.severity,
            evidence: finding.extra.metadata.evidence,
            confidence: finding.extra.metadata.confidence,
            execution_context: finding.extra.metadata.execution_context,
            inspector_url,
        },
    )
}

/// A finding moved to another file, or why it cannot be.
pub open spec fn relocated(
    finding: FindingView,
    path: Seq<char>,
    inspector_base: Seq<char>,
) -> Result<FindingView, ScanError> {
    if encode_utf8(path).len() > crate::paths::MAX_PATH_BYTES {
        Err(ScanError::PathTooLong)
    } else {
        match inspector_url(inspector_base, path) {
            Err(error) => Err(error),
            Ok(url) => Ok(FindingView { path, inspector_url: url, ..finding }),
        }
    }
}

/// Moves a finding to another file with the same contents.
pub fn rewrite_finding_location(
    finding: &OpenGrepFinding,
    path: &str,
    inspector_base: &str,
) -> (result: Result<OpenGrepFinding, ScanError>)
    ensures
        match result {
            Ok(found) => relocated(finding@, path@, inspector_base@) == Ok::<
                FindingView,
                ScanError,
            >(found@),
            Err(error) => relocated(finding@, path@, inspector_base@) == Err::<
                FindingView,
                ScanError,
            >(error),
        },
{
    if path.as_bytes().len() > crate::paths::MAX_PATH_BYTES {
        return Err(ScanError::PathTooLong);
    }
    let mut finding = finding.clone();
    finding.path = path.to_owned();
    finding.inspector_url = match build_inspector_url(inspector_base, path) {
        Ok(url) => url,
        Err(error) => return Err(error),
    };
    Ok(finding)
}

/// Adds findings, unless there would be more than a job may report.
pub fn append_findings(
    findings: &mut Vec<OpenGrepFinding>,
    additional: Vec<OpenGrepFinding>,
) -> (result: Result<(), ScanError>)
    ensures
        match result {
            Ok(()) => {
                &&& old(findings)@.len() + additional@.len() <= MAX_FINDINGS
                &&& final(findings)@ == old(findings)@ + additional@
            },
            Err(error) => {
                &&& old(findings)@.len() + additional@.len() > MAX_FINDINGS
                &&& error == ScanError::TooManyFindings
                &&& final(findings)@ == old(findings)@
            },
        },
{
    if findings.len() > MAX_FINDINGS || additional.len() > MAX_FINDINGS - findings.len() {
        return Err(ScanError::TooManyFindings);
    }
    let mut additional = additional;
    findings.append(&mut additional);
    Ok(())
}

/// A finding without its place: what of it depends on the contents of the file alone.
pub open spec fn placeless(finding: FindingView) -> FindingView {
    FindingView { path: Seq::empty(), inspector_url: Seq::empty(), ..finding }
}

/// Findings without their places, in no order.
pub open spec fn contents_of(findings: Seq<FindingView>) -> Multiset<FindingView> {
    Seq::new(findings.len(), |i: int| placeless(findings[i])).to_multiset()
}

} // verus!
