//! The worker as a client of the API: the rules that it has loaded, and the reports that it makes.

use vstd::prelude::*;

use crate::error::ScanError;
use crate::models::{
    CacheAction, CacheMode, CacheStats, Job, OpenGrepScanResult, ReportedOpenGrepResult,
    SubmitOpenGrepResultsError, SubmitOpenGrepResultsSuccess,
};
use crate::origin::{origin_text, supported_api, url_parts, validate_api_origin, validation};
use crate::scan::{ScanJobOutcome, REASON_CHARS};
use crate::text::{text_equal, trim_end, truncate, truncated, without_trailing};

verus! {

/// How the distributions of a package are scanned.
#[derive(Clone, Copy, Debug, PartialEq, Eq, Structural)]
pub enum ScanMode {
    /// Together, each distinct file once.
    Batched,
    /// One by one.
    ByDistribution,
}

/// A worker with a loaded rule corpus.
#[derive(Debug)]
pub struct OpenGrepClient {
    base_url: String,
    content_reuse_safe: bool,
    cache_mode: CacheMode,
    /// The commit of the loaded rules.
    pub rules_hash: String,
}

/// A worker as a mathematical value.
pub struct ClientView {
    /// The API, without slashes at the end.
    pub base_url: Seq<char>,
    /// Whether the findings of the loaded rules depend on the contents of a file alone.
    pub content_reuse_safe: bool,
    pub cache_mode: CacheMode,
    pub rules_hash: Seq<char>,
}

impl View for OpenGrepClient {
    type V = ClientView;

    closed spec fn view(&self) -> ClientView {
        ClientView {
            base_url: self.base_url@,
            content_reuse_safe: self.content_reuse_safe,
            cache_mode: self.cache_mode,
            rules_hash: self.rules_hash@,
        }
    }
}

/// Whether a base URL is a supported API without the slashes at its end.
pub open spec fn fenced(base_url: Seq<char>) -> bool {
    exists|given: Seq<char>|
        {
            &&& base_url == without_trailing(given, '/')
            &&& #[trigger] url_parts(given) matches Ok(parts)
            &&& supported_api(parts, origin_text(given))
        }
}

/// The milliseconds that fit into 64 bits.
pub open spec fn clamped(elapsed_ms: u128) -> u64 {
    if elapsed_ms > u64::MAX {
        u64::MAX
    } else {
        elapsed_ms as u64
    }
}

impl OpenGrepClient {
    /// Whether the worker talks to a supported API.
    pub open spec fn wf(self) -> bool {
        fenced(self@.base_url)
    }

    /// A worker for an API, with the rules that it has loaded from there. Fails unless the API is
    /// supported.
    pub fn new(
        base_url: &str,
        rules_hash: String,
        content_reuse_safe: bool,
        cache_mode: CacheMode,
    ) -> (result: Result<Self, ScanError>)
        ensures
            match result {
                Ok(client) => {
                    &&& validation(base_url@, Ok(()))
                    &&& client.wf()
                    &&& client@ == (ClientView {
                        base_url: without_trailing(base_url@, '/'),
                        content_reuse_safe,
                        cache_mode,
                        rules_hash: rules_hash@,
                    })
                },
                Err(error) => validation(base_url@, Err(error)),
            },
    {
        if let Err(error) = validate_api_origin(base_url) {
            return Err(error);
        }
        assert(url_parts(base_url@) is Ok);
        Ok(
            OpenGrepClient {
                base_url: trim_end(base_url, '/'),
                content_reuse_safe,
                cache_mode,
                rules_hash,
            },
        )
    }

    /// The API, without slashes at the end.
    pub fn base_url(&self) -> (base_url: &str)
        ensures
            base_url@ == self@.base_url,
    {
        self.base_url.as_str()
    }

    /// Replaces the loaded rules, by others or by the same, and says what is to be done to the kept
    /// results.
    pub fn refresh_rules(&mut self, rules_hash: String, content_reuse_safe: bool) -> (action:
        CacheAction)
        ensures
            action == CacheAction::Reset,
            final(self)@ == (ClientView {
                rules_hash: rules_hash@,
                content_reuse_safe,
                ..old(self)@
            }),
            old(self).wf() ==> final(self).wf(),
    {
        self.rules_hash = rules_hash;
        self.content_reuse_safe = content_reuse_safe;
        CacheAction::Reset
    }

    /// How a job is scanned. Fails where it was made for other rules than those that are loaded.
    pub fn scan_job(&self, job: &Job) -> (result: Result<ScanMode, ScanError>)
        ensures
            result == (if job.hash@ != self@.rules_hash {
                Err::<ScanMode, ScanError>(ScanError::RulesMismatch)
            } else if self@.content_reuse_safe {
                Ok(ScanMode::Batched)
            } else {
                Ok(ScanMode::ByDistribution)
            }),
    {
        if !text_equal(job.hash.as_str(), self.rules_hash.as_str()) {
            return Err(ScanError::RulesMismatch);
        }
        if self.content_reuse_safe {
            Ok(ScanMode::Batched)
        } else {
            Ok(ScanMode::ByDistribution)
        }
    }

    /// The statistics of a job that has not started.
    pub fn new_stats(&self) -> (stats: CacheStats)
        ensures
            stats.scanner@ == "opengrep"@,
            stats.mode == self@.cache_mode,
            stats.reused_files == 0,
            stats.reused_bytes == 0,
            stats.engine_files == 0,
            stats.engine_bytes == 0,
            stats.engine_us == 0,
            stats.inserted_files == 0,
            stats.validated_files == 0,
            stats.mismatched_files == 0,
    {
        CacheStats::new("opengrep", self.cache_mode)
    }

    /// Reports a job: the findings where it was scanned, the reason where it could not be.
    pub fn run_job(
        &self,
        job: &Job,
        outcome: Result<ScanJobOutcome, ScanError>,
        elapsed_ms: u128,
        scan_reuse: CacheStats,
    ) -> (report: ReportedOpenGrepResult)
        ensures
            report.scan_reuse == scan_reuse,
            match outcome {
                Ok(outcome) => {
                    &&& report.result matches OpenGrepScanResult::Success(success)
                    &&& success.name@ == job.name@
                    &&& success.version@ == job.version@
                    &&& success.attempt == job.attempt
                    &&& success.assignment_id@ == job.assignment_id@
                    &&& success.commit@ == job.hash@
                    &&& success.duration_ms == clamped(elapsed_ms)
                    &&& success.findings == outcome.findings
                    &&& success.partial_reason == outcome.partial_reason
                },
                Err(error) => {
                    &&& report.result matches OpenGrepScanResult::Error(failure)
                    &&& failure.name@ == job.name@
                    &&& failure.version@ == job.version@
                    &&& failure.attempt == job.attempt
                    &&& failure.assignment_id@ == job.assignment_id@
                    &&& failure.duration_ms == clamped(elapsed_ms)
                    &&& failure.reason@ == truncated(error.text(), REASON_CHARS as nat)
                    &&& failure.reason@.len() <= REASON_CHARS
                },
            },
    {
        let duration_ms: u64 = if elapsed_ms > u64::MAX as u128 {
            u64::MAX
        } else {
            elapsed_ms as u64
        };
        let result = match outcome {
            Ok(outcome) => OpenGrepScanResult::Success(
                SubmitOpenGrepResultsSuccess {
                    name: job.name.clone(),
                    version: job.version.clone(),
                    attempt: job.attempt,
                    assignment_id: job.assignment_id.clone(),
                    commit: job.hash.clone(),
                    duration_ms,
                    findings: outcome.findings,
                    partial_reason: outcome.partial_reason,
                },
            ),
            Err(error) => OpenGrepScanResult::Error(
                SubmitOpenGrepResultsError {
                    name: job.name.clone(),
                    version: job.version.clone(),
                    attempt: job.attempt,
                    assignment_id: job.assignment_id.clone(),
                    duration_ms,
                    reason: truncate(error.message().as_str(), REASON_CHARS),
                },
            ),
        };
        ReportedOpenGrepResult { result, scan_reuse }
    }
}

} // verus!
