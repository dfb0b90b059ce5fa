//! What the worker exchanges with the API, and the statistics of a scan.

use vstd::prelude::*;

verus! {

/// A leased package.
#[derive(Debug, PartialEq)]
pub struct Job {
    /// The commit of the rules that the package is to be scanned with.
    pub hash: String,
    /// The name of the package.
    pub name: String,
    /// The version of the package.
    pub version: String,
    /// Where the distributions of the package are.
    pub distributions: Vec<String>,
    /// How often the package has been leased.
    pub attempt: u64,
    /// The lease.
    pub assignment_id: String,
}

/// A rule corpus: its commit, and its files by relative path.
#[derive(Debug)]
pub struct OpenGrepRulesResponse {
    /// The commit of the rules.
    pub hash: String,
    /// The relative path and the contents of each file.
    pub rules: Vec<(String, String)>,
}

impl OpenGrepRulesResponse {
    /// Whether no path occurs twice.
    pub open spec fn wf(self) -> bool {
        forall|i: int, j: int|
            0 <= i < j < self.rules@.len() ==> (#[trigger] self.rules@[i]).0@ != (
            #[trigger] self.rules@[j]).0@
    }
}

/// A finding of a rule in a file.
#[derive(Debug, PartialEq)]
pub struct OpenGrepFinding {
    /// The rule, without the path of the file that holds it.
    pub rule_id: String,
    /// The file, relative to what was scanned.
    pub path: String,
    /// The first line.
    pub start_line: u64,
    /// The last line.
    pub end_line: u64,
    /// What was found.
    pub message: String,
    /// How severe it is.
    pub severity: String,
    /// What kind of evidence it is.
    pub evidence: String,
    /// How sure the rule is.
    pub confidence: String,
    /// When the code is run.
    pub execution_context: String,
    /// Where to look at the file.
    pub inspector_url: String,
}

/// A finding as a mathematical value.
pub struct FindingView {
    pub rule_id: Seq<char>,
    pub path: Seq<char>,
    pub start_line: u64,
    pub end_line: u64,
    pub message: Seq<char>,
    pub severity: Seq<char>,
    pub evidence: Seq<char>,
    pub confidence: Seq<char>,
    pub execution_context: Seq<char>,
    pub inspector_url: Seq<char>,
}

impl View for OpenGrepFinding {
    type V = FindingView;

    open spec fn view(&self) -> FindingView {
        FindingView {
            rule_id: self.rule_id@,
            path: self.path@,
            start_line: self.start_line,
            end_line: self.end_line,
            message: self.message@,
            severity: self.severity@,
            evidence: self.evidence@,
            confidence: self.confidence@,
            execution_context: self.execution_context@,
            inspector_url: self.inspector_url@,
        }
    }
}

impl Clone for OpenGrepFinding {
    fn clone(&self) -> (copy: Self)
        ensures
            copy == *self,
    {
        OpenGrepFinding {
            rule_id: self.rule_id.clone(),
            path: self.path.clone(),
            start_line: self.start_line,
            end_line: self.end_line,
            message: self.message.clone(),
            severity: self.severity.clone(),
            evidence: self.evidence.clone(),
            confidence: self.confidence.clone(),
            execution_context: self.execution_context.clone(),
            inspector_url: self.inspector_url.clone(),
        }
    }
}

/// The report of a job that was scanned.
#[derive(Debug, PartialEq)]
pub struct SubmitOpenGrepResultsSuccess {
    pub name: String,
    pub version: String,
    pub attempt: u64,
    pub assignment_id: String,
    /// The commit of the rules.
    pub commit: String,
    /// How long the scan took, in milliseconds.
    pub duration_ms: u64,
    pub findings: Vec<OpenGrepFinding>,
    /// Why the findings may be incomplete.
    pub partial_reason: Option<String>,
}

/// The report of a job that could not be scanned.
#[derive(Debug, PartialEq)]
pub struct SubmitOpenGrepResultsError {
    pub name: String,
    pub version: String,
    pub attempt: u64,
    pub assignment_id: String,
    /// How long the attempt took, in milliseconds.
    pub duration_ms: u64,
    /// Why the job could not be scanned.
    pub reason: String,
}

/// The report of a job.
#[derive(Debug)]
pub enum OpenGrepScanResult {
    Success(SubmitOpenGrepResultsSuccess),
    Error(SubmitOpenGrepResultsError),
}

/// How results are reused across packages.
#[derive(Clone, Copy, Debug, PartialEq, Eq, Structural)]
pub enum CacheMode {
    /// No results are kept.
    Off,
    /// Results are kept, and every one is compared with a fresh scan.
    Observe,
    /// Results are kept and used.
    Reuse,
}

/// What is to be done to the kept results.
#[derive(Clone, Copy, Debug, PartialEq, Eq, Structural)]
pub enum CacheAction {
    /// Nothing.
    Leave,
    /// Use none of them any more, and keep no others, until they are forgotten.
    Disable,
    /// Forget all of them, and from now on keep and use results again.
    Reset,
}

/// What reuse did in one job.
#[derive(Debug)]
pub struct CacheStats {
    /// The scanner.
    pub scanner: String,
    /// The mode of the cache.
    pub mode: CacheMode,
    /// Files whose results were taken from the cache.
    pub reused_files: u64,
    /// The bytes of those files.
    pub reused_bytes: u64,
    /// Files that the engine was given.
    pub engine_files: u64,
    /// The bytes of those files.
    pub engine_bytes: u64,
    /// How long the engine ran, in microseconds.
    pub engine_us: u128,
    /// Files whose results were put into the cache.
    pub inserted_files: u64,
    /// Files whose cached results were compared with fresh ones.
    pub validated_files: u64,
    /// Files whose cached results differed from fresh ones.
    pub mismatched_files: u64,
}

impl CacheStats {
    /// Statistics of a job that has not started.
    pub fn new(scanner: &str, mode: CacheMode) -> (stats: Self)
        ensures
            stats.scanner@ == scanner@,
            stats.mode == mode,
            stats.reused_files == 0,
            stats.reused_bytes == 0,
            stats.engine_files == 0,
            stats.engine_bytes == 0,
            stats.engine_us == 0,
            stats.inserted_files == 0,
            stats.validated_files == 0,
            stats.mismatched_files == 0,
    {
        CacheStats {
            scanner: scanner.to_owned(),
            mode,
            reused_files: 0,
            reused_bytes: 0,
            engine_files: 0,
            engine_bytes: 0,
            engine_us: 0,
            inserted_files: 0,
            validated_files: 0,
            mismatched_files: 0,
        }
    }
}

/// The report of a job, with what reuse did in it.
#[derive(Debug)]
pub struct ReportedOpenGrepResult {
    /// The report.
    pub result: OpenGrepScanResult,
    /// What reuse did.
    pub scan_reuse: CacheStats,
}

} // verus!
