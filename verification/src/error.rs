//! What can go wrong in a scan, and the text that is reported for it.

use vstd::prelude::*;

use crate::numbers::{decimal, format_decimal, HexError};

verus! {

/// The most findings that one job may report.
pub const MAX_FINDINGS: usize = 500;

/// The most bytes that are taken from either output stream of the engine.
pub const MAX_OPENGREP_OUTPUT_BYTES: u64 = 4194304;

/// The deadlines that a scan can miss.
#[derive(Clone, Copy, Debug, PartialEq, Eq, Structural)]
pub enum Deadline {
    /// One run of the engine on a target directory.
    Scan,
    /// The inspection of a rule corpus.
    RuleInspection,
    /// The preparation of one distribution.
    Preparation,
}

/// What one link in the chain of causes of a failure is.
#[derive(Clone, Copy, Debug, PartialEq, Eq, Structural)]
pub enum Cause {
    /// A deadline of the worker that was missed.
    ScanTimeout,
    /// An HTTP request that timed out.
    HttpTimeout,
    /// An input or output operation that timed out.
    IoTimeout,
    /// Anything else.
    Other,
}

/// A failure of a scan.
#[derive(Debug)]
pub enum ScanError {
    /// The job was made for other rules than those that are loaded.
    RulesMismatch,
    /// The package has more distributions than are scanned.
    TooManyDistributions { count: usize, limit: usize },
    /// There is no identifier left for another target.
    TargetIdOverflow,
    /// An alias names a distribution that was not prepared.
    UnknownDistribution,
    /// There are more findings than a job may report.
    TooManyFindings,
    /// A path in the engine's output names no file.
    InvalidTargetPath,
    /// The name of a target is not its identifier.
    InvalidTargetId(HexError),
    /// A text is not a URL; the reason is given.
    InvalidUrl(String),
    /// The API is not one that the worker may talk to.
    UnsupportedOrigin,
    /// The rule corpus holds no file.
    EmptyRules,
    /// The inspection of the rules listed no rule.
    NoRules,
    /// The inspection of the rules failed: its exit status and what it printed.
    InspectionExit { status: String, stderr: String },
    /// The engine failed: its exit status and what it printed.
    EngineExit { status: String, stderr: String },
    /// The directory of the rules has a path that is not UTF-8.
    RulePathNotUtf8,
    /// The directory that is scanned has a path that is not UTF-8.
    TargetPathNotUtf8,
    /// A path is empty.
    EmptyPath,
    /// A path does not stay below the directory that it is relative to.
    UnsafePath,
    /// An absolute path is not below the target directory.
    PrefixNotFound,
    /// A path is not UTF-8.
    PathNotUtf8,
    /// A path is too long to be reported.
    PathTooLong,
    /// The message of a finding is too long to be reported.
    MessageTooLong,
    /// An inspector URL is too long to be reported.
    InspectorUrlTooLong,
    /// The engine printed more than is taken from it.
    OutputTooLarge,
    /// The engine's output is not UTF-8; the reason is given.
    OutputNotUtf8(String),
    /// The engine reported errors that void its results, in JSON.
    EngineErrors(String),
    /// The engine left rules out, in JSON.
    SkippedRules(String),
    /// Fallback groups would hold no target.
    EmptyGroup,
    /// The target directory holds something that is not a file.
    NonFileEntry,
    /// Cached results turned out to be wrong after some had been used.
    CacheRejected,
    /// A deadline was missed.
    Timeout(Deadline),
    /// Something outside failed: what is reported of it, and the chain of its causes.
    Outside { text: String, causes: Vec<Cause> },
}

/// The text that stands for a missed deadline.
pub open spec fn deadline_text(deadline: Deadline) -> Seq<char> {
    match deadline {
        Deadline::Scan => "OpenGrep exceeded the scan deadline"@,
        Deadline::RuleInspection => "OpenGrep rule inspection exceeded its deadline"@,
        Deadline::Preparation => "OpenGrep preparation exceeded the distribution deadline"@,
    }
}

/// The text that stands for a malformed target identifier.
pub open spec fn hex_error_text(error: HexError) -> Seq<char> {
    match error {
        HexError::Empty => "cannot parse integer from empty string"@,
        HexError::InvalidDigit => "invalid digit found in string"@,
        HexError::Overflow => "number too large to fit in target type"@,
    }
}

impl ScanError {
    /// The text that is reported for a failure.
    pub open spec fn text(self) -> Seq<char> {
        match self {
            ScanError::RulesMismatch => "job rules do not match the loaded rules snapshot"@,
            ScanError::TooManyDistributions { count, limit } => "package contains "@ + decimal(
                count as nat,
            ) + " distributions, exceeding the "@ + decimal(limit as nat)
                + "-distribution limit"@,
            ScanError::TargetIdOverflow => "OpenGrep target identifier overflowed"@,
            ScanError::UnknownDistribution => "finding references an unknown distribution"@,
            ScanError::TooManyFindings => "OpenGrep produced more than "@ + decimal(
                MAX_FINDINGS as nat,
            ) + " findings"@,
            ScanError::InvalidTargetPath => "OpenGrep returned an invalid target path"@,
            ScanError::InvalidTargetId(error) => hex_error_text(error),
            ScanError::InvalidUrl(reason) => reason@,
            ScanError::UnsupportedOrigin =>
                "OpenGrep worker requires a supported Dragonfly API origin"@,
            ScanError::EmptyRules => "OpenGrep rule corpus is empty"@,
            ScanError::NoRules => "OpenGrep rule inspection returned no rules"@,
            ScanError::InspectionExit { status, stderr } =>
                "OpenGrep rule inspection exited with "@ + status@ + ": "@ + stderr@,
            ScanError::EngineExit { status, stderr } => "OpenGrep exited with "@ + status@ + ": "@
                + stderr@,
            ScanError::RulePathNotUtf8 => "rule path is not UTF-8"@,
            ScanError::TargetPathNotUtf8 => "target path is not UTF-8"@,
            ScanError::EmptyPath => "path must not be empty"@,
            ScanError::UnsafePath => "path must contain only normal relative components"@,
            ScanError::PrefixNotFound => "prefix not found"@,
            ScanError::PathNotUtf8 => "finding path is not UTF-8"@,
            ScanError::PathTooLong => "finding path exceeds 1024 characters"@,
            ScanError::MessageTooLong => "finding message exceeds 1024 characters"@,
            ScanError::InspectorUrlTooLong => "finding inspector URL exceeds 2048 characters"@,
            ScanError::OutputTooLarge => "OpenGrep output exceeded "@ + decimal(
                MAX_OPENGREP_OUTPUT_BYTES as nat,
            ) + " bytes"@,
            ScanError::OutputNotUtf8(reason) => reason@,
            ScanError::EngineErrors(json) => "OpenGrep reported scan errors: "@ + json@,
            ScanError::SkippedRules(json) => "OpenGrep skipped rules: "@ + json@,
            ScanError::EmptyGroup => "OpenGrep fallback group size must be positive"@,
            ScanError::NonFileEntry => "package target contains a non-file entry"@,
            ScanError::CacheRejected =>
                "Cross-package cache validation failed; reuse disabled and this job's cached results discarded"@,
            ScanError::Timeout(deadline) => deadline_text(deadline),
            ScanError::Outside { text, causes } => text@,
        }
    }

    /// Whether a failure is a timeout: a missed deadline, or a failure outside that has a timeout
    /// anywhere in its chain of causes.
    pub open spec fn is_timeout(self) -> bool {
        match self {
            ScanError::Timeout(_) => true,
            ScanError::Outside { text, causes } => exists|i: int|
                0 <= i < causes@.len() && #[trigger] causes@[i] != Cause::Other,
            _ => false,
        }
    }

    /// The text that is reported for a failure.
    pub fn message(&self) -> (message: String)
        ensures
            message@ == self.text(),
    {
        match self {
            ScanError::RulesMismatch =>
                "job rules do not match the loaded rules snapshot".to_owned(),
            ScanError::TooManyDistributions { count, limit } => {
                let mut message = "package contains ".to_owned();
                message.append(format_decimal(*count as u64).as_str());
                message.append(" distributions, exceeding the ");
                message.append(format_decimal(*limit as u64).as_str());
                message.append("-distribution limit");
                message
            },
            ScanError::TargetIdOverflow => "OpenGrep target identifier overflowed".to_owned(),
            ScanError::UnknownDistribution =>
                "finding references an unknown distribution".to_owned(),
            ScanError::TooManyFindings => {
                let mut message = "OpenGrep produced more than ".to_owned();
                message.append(format_decimal(MAX_FINDINGS as u64).as_str());
                message.append(" findings");
                message
            },
            ScanError::InvalidTargetPath => "OpenGrep returned an invalid target path".to_owned(),
            ScanError::InvalidTargetId(error) => match error {
                HexError::Empty => "cannot parse integer from empty string".to_owned(),
                HexError::InvalidDigit => "invalid digit found in string".to_owned(),
                HexError::Overflow => "number too large to fit in target type".to_owned(),
            },
            ScanError::InvalidUrl(reason) => reason.clone(),
            ScanError::UnsupportedOrigin =>
                "OpenGrep worker requires a supported Dragonfly API origin".to_owned(),
            ScanError::EmptyRules => "OpenGrep rule corpus is empty".to_owned(),
            ScanError::NoRules => "OpenGrep rule inspection returned no rules".to_owned(),
            ScanError::InspectionExit { status, stderr } => {
                let mut message = "OpenGrep rule inspection exited with ".to_owned();
                message.append(status.as_str());
                message.append(": ");
                message.append(stderr.as_str());
                message
            },
            ScanError::EngineExit { status, stderr } => {
                let mut message = "OpenGrep exited with ".to_owned();
                message.append(status.as_str());
                message.append(": ");
                message.append(stderr.as_str());
                message
            },
            ScanError::RulePathNotUtf8 => "rule path is not UTF-8".to_owned(),
            ScanError::TargetPathNotUtf8 => "target path is not UTF-8".to_owned(),
            ScanError::EmptyPath => "path must not be empty".to_owned(),
            ScanError::UnsafePath =>
                "path must contain only normal relative components".to_owned(),
            ScanError::PrefixNotFound => "prefix not found".to_owned(),
            ScanError::PathNotUtf8 => "finding path is not UTF-8".to_owned(),
            ScanError::PathTooLong => "finding path exceeds 1024 characters".to_owned(),
            ScanError::MessageTooLong => "finding message exceeds 1024 characters".to_owned(),
            ScanError::InspectorUrlTooLong =>
                "finding inspector URL exceeds 2048 characters".to_owned(),
            ScanError::OutputTooLarge => {
                let mut message = "OpenGrep output exceeded ".to_owned();
                message.append(format_decimal(MAX_OPENGREP_OUTPUT_BYTES).as_str());
                message.append(" bytes");
                message
            },
            ScanError::OutputNotUtf8(reason) => reason.clone(),
            ScanError::EngineErrors(json) => {
                let mut message = "OpenGrep reported scan errors: ".to_owned();
                message.append(json.as_str());
                message
            },
            ScanError::SkippedRules(json) => {
                let mut message = "OpenGrep skipped rules: ".to_owned();
                message.append(json.as_str());
                message
            },
            ScanError::EmptyGroup => "OpenGrep fallback group size must be positive".to_owned(),
            ScanError::NonFileEntry => "package target contains a non-file entry".to_owned(),
            ScanError::CacheRejected =>
                "Cross-package cache validation failed; reuse disabled and this job's cached results discarded".to_owned(),
            ScanError::Timeout(deadline) => match deadline {
                Deadline::Scan => "OpenGrep exceeded the scan deadline".to_owned(),
                Deadline::RuleInspection =>
                    "OpenGrep rule inspection exceeded its deadline".to_owned(),
                Deadline::Preparation =>
                    "OpenGrep preparation exceeded the distribution deadline".to_owned(),
            },
            ScanError::Outside { text, causes } => text.clone(),
        }
    }
}

/// Whether a failure is a timeout.
pub fn is_timeout_error(error: &ScanError) -> (result: bool)
    ensures
        result == error.is_timeout(),
{
    match error {
        ScanError::Timeout(_) => true,
        ScanError::Outside { text, causes } => {
            let mut i: usize = 0;
            while i < causes.len()
                invariant
                    *error == (ScanError::Outside { text: *text, causes: *causes }),
                    i <= causes@.len(),
                    forall|j: int| 0 <= j < i ==> causes@[j] == Cause::Other,
                decreases causes@.len() - i,
            {
                if causes[i] != Cause::Other {
                    return true;
                }
                i += 1;
            }
            false
        },
        _ => false,
    }
}

/// Fails once a deadline has been reached; both times count from one origin.
pub fn ensure_scan_time_remaining(now: u128, deadline: u128) -> (result: Result<(), ScanError>)
    ensures
        match result {
            Ok(()) => now < deadline,
            Err(error) => now >= deadline && error == ScanError::Timeout(Deadline::Preparation),
        },
{
    if now >= deadline {
        return Err(ScanError::Timeout(Deadline::Preparation));
    }
    Ok(())
}

} // verus!
