//! The course of a scan: what is done next, given what came of what was done before.

use vstd::prelude::*;

use crate::engine::{OpenGrepRun, SCAN_DEADLINE_NS};
use crate::error::{is_timeout_error, ScanError, MAX_FINDINGS};
use crate::findings::append_findings;
use crate::index::TextSet;
use crate::models::{FindingView, Job, OpenGrepFinding};
use crate::origin::{parse_url, url_parts, ParsedUrl};
use crate::package::{
    plan_for, planned_aliases, with_distribution, Commit, DistributionTargetPlan, PackageTarget,
    PackageView,
};
use crate::paths::target_path_in;
use crate::text::{join, joined, lemma_views_add, truncate, truncated, views};

verus! {

/// How many characters of a reason are reported.
pub const REASON_CHARS: usize = 2048;

/// What a scan gave.
#[derive(Debug)]
pub struct ScanJobOutcome {
    pub findings: Vec<OpenGrepFinding>,
    /// Why the findings may be incomplete.
    pub partial_reason: Option<String>,
}

/// What a distribution can time out in.
#[derive(Clone, Copy, Debug, PartialEq, Eq, Structural)]
pub enum Stage {
    Download,
    Preparation,
    Scan,
}

/// What is said of a distribution that timed out.
pub open spec fn stage_text(stage: Stage, distribution: Seq<char>) -> Seq<char> {
    let start = match stage {
        Stage::Download => "Timed out downloading or extracting distribution "@,
        Stage::Preparation => "Timed out preparing distribution "@,
        Stage::Scan => "Timed out scanning distribution "@,
    };
    start + distribution
}

/// Says that a distribution timed out.
pub fn stage_warning(stage: Stage, distribution: &str) -> (warning: String)
    ensures
        warning@ == stage_text(stage, distribution@),
{
    let mut warning = match stage {
        Stage::Download => "Timed out downloading or extracting distribution ".to_owned(),
        Stage::Preparation => "Timed out preparing distribution ".to_owned(),
        Stage::Scan => "Timed out scanning distribution ".to_owned(),
    };
    warning.append(distribution);
    warning
}

/// What is reported of warnings: nothing where there is none.
pub open spec fn reason_for(warnings: Seq<Seq<char>>) -> Option<Seq<char>> {
    if warnings.len() == 0 {
        None
    } else {
        Some(truncated(joined(warnings, "; "@), REASON_CHARS as nat))
    }
}

/// Why findings may be incomplete, from the warnings.
pub fn partial_reason(warnings: &[String]) -> (reason: Option<String>)
    ensures
        match reason {
            Some(text) => {
                &&& reason_for(views(warnings@)) == Some(text@)
                &&& text@.len() <= REASON_CHARS
            },
            None => reason_for(views(warnings@)) is None,
        },
{
    if warnings.len() == 0 {
        return None;
    }
    let all = join(warnings, "; ");
    Some(truncate(all.as_str(), REASON_CHARS))
}

/// Copies texts.
pub fn copy_texts(texts: &[String]) -> (copy: Vec<String>)
    ensures
        copy@ == texts@,
{
    let mut copy: Vec<String> = Vec::new();
    let mut i: usize = 0;
    while i < texts.len()
        invariant
            i <= texts@.len(),
            copy@ == texts@.take(i as int),
        decreases texts@.len() - i,
    {
        copy.push(texts[i].clone());
        i += 1;
    }
    assert(texts@.take(texts@.len() as int) =~= texts@);
    copy
}

/// Fails where a package has more distributions than are scanned.
pub fn check_distributions(job: &Job, max_distributions: usize) -> (result: Result<(), ScanError>)
    ensures
        match result {
            Ok(()) => job.distributions@.len() <= max_distributions,
            Err(error) => {
                &&& job.distributions@.len() > max_distributions
                &&& error == (ScanError::TooManyDistributions {
                    count: job.distributions@.len() as usize,
                    limit: max_distributions,
                })
            },
        },
{
    let count: usize = job.distributions.len();
    if count > max_distributions {
        return Err(ScanError::TooManyDistributions { count, limit: max_distributions });
    }
    Ok(())
}

/// The distributions of a package, one after another, until one times out.
pub struct DistributionQueue {
    distributions: Vec<String>,
    current: usize,
    stopped: bool,
}

/// A queue as a mathematical value.
pub struct QueueView {
    pub distributions: Seq<Seq<char>>,
    /// The one whose turn it is.
    pub current: nat,
    /// Whether one timed out.
    pub stopped: bool,
}

impl View for DistributionQueue {
    type V = QueueView;

    closed spec fn view(&self) -> QueueView {
        QueueView {
            distributions: views(self.distributions@),
            current: self.current as nat,
            stopped: self.stopped,
        }
    }
}

impl QueueView {
    /// Whether there is a distribution left to scan.
    pub open spec fn is_active(self) -> bool {
        !self.stopped && self.current < self.distributions.len()
    }

    /// The queue once a distribution is done.
    pub open spec fn advanced(self) -> QueueView {
        QueueView { current: self.current + 1, ..self }
    }

    /// The queue once a distribution timed out.
    pub open spec fn halted(self) -> QueueView {
        QueueView { stopped: true, ..self }
    }
}

/// What a distribution is, as a URL.
pub open spec fn is_next_url(
    queue: QueueView,
    result: Result<Option<ParsedUrl>, ScanError>,
) -> bool {
    if !queue.is_active() {
        result matches Ok(None)
    } else {
        match url_parts(queue.distributions[queue.current as int]) {
            Ok(parts) => result matches Ok(Some(url)) && url@ == parts,
            Err(reason) => result matches Err(ScanError::InvalidUrl(shown)) && shown@ == reason,
        }
    }
}

impl DistributionQueue {
    /// The distributions of a job, if they are not too many.
    pub fn new(job: &Job, max_distributions: usize) -> (result: Result<Self, ScanError>)
        ensures
            match result {
                Ok(queue) => {
                    &&& job.distributions@.len() <= max_distributions
                    &&& queue@ == (QueueView {
                        distributions: views(job.distributions@),
                        current: 0,
                        stopped: false,
                    })
                },
                Err(error) => {
                    &&& job.distributions@.len() > max_distributions
                    &&& error == (ScanError::TooManyDistributions {
                        count: job.distributions@.len() as usize,
                        limit: max_distributions,
                    })
                },
            },
    {
        match check_distributions(job, max_distributions) {
            Err(error) => Err(error),
            Ok(()) => Ok(
                DistributionQueue {
                    distributions: copy_texts(job.distributions.as_slice()),
                    current: 0,
                    stopped: false,
                },
            ),
        }
    }

    /// Where the next distribution is; nothing where all are done or one timed out.
    pub fn next(&self) -> (result: Result<Option<ParsedUrl>, ScanError>)
        ensures
            is_next_url(self@, result),
    {
        if self.stopped || self.current >= self.distributions.len() {
            return Ok(None);
        }
        match parse_url(self.distributions[self.current].as_str()) {
            Ok(url) => Ok(Some(url)),
            Err(reason) => Err(ScanError::InvalidUrl(reason)),
        }
    }

    /// Goes on to the next distribution.
    fn advance(&mut self)
        requires
            old(self)@.is_active(),
        ensures
            final(self)@ == old(self)@.advanced(),
    {
        let total: usize = self.distributions.len();
        assert(self.current < total);
        self.current = self.current + 1;
    }

    /// Stops at a distribution that timed out in a stage, with a warning.
    fn halt(&mut self, stage: Stage) -> (warning: String)
        requires
            old(self)@.is_active(),
        ensures
            final(self)@ == old(self)@.halted(),
            warning@ == stage_text(
                stage,
                old(self)@.distributions[old(self)@.current as int],
            ),
    {
        self.stopped = true;
        stage_warning(stage, self.distributions[self.current].as_str())
    }
}

/// A package whose distributions are prepared to be scanned together.
pub struct BatchedPreparation {
    queue: DistributionQueue,
    package: PackageTarget,
    warnings: Vec<String>,
    prepared: u32,
}

/// A preparation as a mathematical value.
pub struct PreparationView {
    pub queue: QueueView,
    pub package: PackageView,
    pub warnings: Seq<Seq<char>>,
    /// How many distributions are prepared, as far as that can be counted.
    pub prepared: u32,
}

impl View for BatchedPreparation {
    type V = PreparationView;

    closed spec fn view(&self) -> PreparationView {
        PreparationView {
            queue: self.queue@,
            package: self.package@,
            warnings: views(self.warnings@),
            prepared: self.prepared,
        }
    }
}

/// Whether every distribution before the current one is prepared, and none else, and there is a
/// warning just where a distribution timed out.
pub open spec fn in_step(preparation: PreparationView) -> bool {
    &&& preparation.queue.current <= preparation.queue.distributions.len()
    &&& preparation.package.inspectors.len() == preparation.queue.current
    &&& preparation.prepared == (if preparation.queue.current > u32::MAX {
        u32::MAX as nat
    } else {
        preparation.queue.current
    })
    &&& preparation.queue.stopped <==> preparation.warnings.len() > 0
    &&& preparation.queue.stopped ==> preparation.queue.current
        < preparation.queue.distributions.len()
}

impl BatchedPreparation {
    /// Whether the package is well formed and in step with the queue.
    pub closed spec fn wf(self) -> bool {
        &&& self.package.wf()
        &&& in_step(self@)
    }

    /// The preparation is in step all along: the distributions before the current one are prepared,
    /// in order, and no other is; once one has timed out, none follows.
    pub proof fn law_preparation_is_in_step(self)
        requires
            self.wf(),
        ensures
            in_step(self@),
    {
    }

    /// The preparation of a job whose targets go into a directory.
    pub fn new(job: &Job, max_distributions: usize, directory: Vec<u8>) -> (result: Result<
        Self,
        ScanError,
    >)
        ensures
            match result {
                Ok(preparation) => {
                    &&& job.distributions@.len() <= max_distributions
                    &&& preparation.wf()
                    &&& preparation@ == (PreparationView {
                        queue: QueueView {
                            distributions: views(job.distributions@),
                            current: 0,
                            stopped: false,
                        },
                        package: PackageView {
                            directory: directory@,
                            identities: Map::empty(),
                            inspectors: Seq::empty(),
                            next_target_id: 0,
                            deduplicated_files: 0,
                        },
                        warnings: Seq::empty(),
                        prepared: 0,
                    })
                },
                Err(error) => {
                    &&& job.distributions@.len() > max_distributions
                    &&& error == (ScanError::TooManyDistributions {
                        count: job.distributions@.len() as usize,
                        limit: max_distributions,
                    })
                },
            },
    {
        let queue = match DistributionQueue::new(job, max_distributions) {
            Ok(queue) => queue,
            Err(error) => return Err(error),
        };
        let warnings: Vec<String> = Vec::new();
        assert(views(warnings@) =~= Seq::<Seq<char>>::empty());
        Ok(
            BatchedPreparation {
                queue,
                package: PackageTarget::new(directory),
                warnings,
                prepared: 0,
            },
        )
    }

    /// Where the next distribution is; nothing where all are prepared or one timed out.
    pub fn next(&self) -> (result: Result<Option<ParsedUrl>, ScanError>)
        ensures
            is_next_url(self@.queue, result),
    {
        self.queue.next()
    }

    /// The package so far.
    pub fn package(&self) -> (package: &PackageTarget)
        requires
            self.wf(),
        ensures
            package.wf(),
            package@ == self@.package,
    {
        &self.package
    }

    /// Takes a failure in a stage of the current distribution: a timeout ends the preparation with
    /// a warning, anything else fails it.
    pub fn stage_failed(&mut self, stage: Stage, error: ScanError) -> (result: Result<
        (),
        ScanError,
    >)
        requires
            old(self).wf(),
            old(self)@.queue.is_active(),
        ensures
            match result {
                Ok(()) => {
                    &&& error.is_timeout()
                    &&& final(self).wf()
                    &&& final(self)@ == (PreparationView {
                        queue: old(self)@.queue.halted(),
                        warnings: old(self)@.warnings.push(
                            stage_text(
                                stage,
                                old(self)@.queue.distributions[old(self)@.queue.current as int],
                            ),
                        ),
                        ..old(self)@
                    })
                },
                Err(shown) => {
                    &&& !error.is_timeout()
                    &&& shown == error
                    &&& *final(self) == *old(self)
                },
            },
    {
        if !is_timeout_error(&error) {
            return Err(error);
        }
        let ghost before = views(self.warnings@);
        let warning = self.queue.halt(stage);
        self.warnings.push(warning);
        assert(views(self.warnings@) =~= before.push(warning@));
        Ok(())
    }

    /// Takes the plan of the current distribution, adds it to the package, and goes on to the next
    /// one.
    pub fn planned(
        &mut self,
        plan: DistributionTargetPlan,
        inspector: String,
    ) -> (result: Result<Commit, ScanError>)
        requires
            old(self).wf(),
            old(self)@.queue.is_active(),
            plan_for(old(self)@.package.identities, plan@),
        ensures
            match result {
                Ok(commit) => {
                    &&& old(self)@.package.next_target_id + plan@.pending.len() <= u64::MAX
                    &&& final(self).wf()
                    &&& final(self)@ == (PreparationView {
                        queue: old(self)@.queue.advanced(),
                        package: with_distribution(
                            old(self)@.package,
                            plan@,
                            inspector@,
                            plan@.pending.len() as int,
                        ),
                        warnings: old(self)@.warnings,
                        prepared: if old(self)@.prepared == u32::MAX {
                            u32::MAX
                        } else {
                            (old(self)@.prepared + 1) as u32
                        },
                    })
                    &&& views(commit.aliases@) == planned_aliases(old(self)@.package, plan@)
                    &&& commit.links@.len() == plan@.pending.len()
                    &&& forall|k: int|
                        0 <= k < commit.links@.len() ==> {
                            &&& (#[trigger] commit.links@[k]).source@ == plan@.pending[k].1
                            &&& commit.links@[k].destination@ == target_path_in(
                                old(self)@.package.directory,
                                (old(self)@.package.next_target_id + k) as u64,
                                plan@.pending[k].0.extension,
                            )
                        }
                },
                Err(error) => {
                    &&& old(self)@.package.next_target_id + plan@.pending.len() > u64::MAX
                    &&& error == ScanError::TargetIdOverflow
                    &&& final(self)@ == (PreparationView {
                        package: with_distribution(
                            old(self)@.package,
                            plan@,
                            inspector@,
                            u64::MAX - old(self)@.package.next_target_id,
                        ),
                        ..old(self)@
                    })
                },
            },
    {
        let commit = match self.package.commit_distribution(plan, inspector) {
            Ok(commit) => commit,
            Err(error) => return Err(error),
        };
        self.prepared = if self.prepared == u32::MAX {
            u32::MAX
        } else {
            self.prepared + 1
        };
        self.queue.advance();
        Ok(commit)
    }

    /// The prepared package, how many distributions it has, and the warnings.
    pub fn finish(self) -> (result: (PackageTarget, u32, Vec<String>))
        requires
            self.wf(),
        ensures
            result.0.wf(),
            result.0@ == self@.package,
            result.1 == self@.prepared,
            views(result.2@) == self@.warnings,
    {
        (self.package, self.prepared, self.warnings)
    }
}

/// A package whose distributions are scanned one by one.
pub struct DistributionScan {
    queue: DistributionQueue,
    findings: Vec<OpenGrepFinding>,
    warnings: Vec<String>,
}

/// A scan by distributions as a mathematical value.
pub struct DistributionScanView {
    pub queue: QueueView,
    pub findings: Seq<FindingView>,
    pub warnings: Seq<Seq<char>>,
}

impl View for DistributionScan {
    type V = DistributionScanView;

    closed spec fn view(&self) -> DistributionScanView {
        DistributionScanView {
            queue: self.queue@,
            findings: views(self.findings@),
            warnings: views(self.warnings@),
        }
    }
}

impl DistributionScanView {
    /// The scan once a distribution timed out in a stage.
    pub open spec fn timed_out(self, stage: Stage) -> DistributionScanView {
        DistributionScanView {
            queue: self.queue.halted(),
            warnings: self.warnings.push(
                stage_text(stage, self.queue.distributions[self.queue.current as int]),
            ),
            ..self
        }
    }

    /// The scan once the engine has run on a distribution.
    pub open spec fn with_run(self, findings: Seq<FindingView>, warnings: Seq<Seq<char>>) -> Self {
        DistributionScanView {
            queue: self.queue.advanced(),
            findings: self.findings + findings,
            warnings: self.warnings + warnings,
        }
    }
}

impl DistributionScan {
    /// Whether there are no more findings than a job may report.
    pub open spec fn wf(self) -> bool {
        self@.findings.len() <= MAX_FINDINGS
    }

    /// The scan of a job.
    pub fn new(job: &Job, max_distributions: usize) -> (result: Result<Self, ScanError>)
        ensures
            match result {
                Ok(scan) => {
                    &&& job.distributions@.len() <= max_distributions
                    &&& scan.wf()
                    &&& scan@ == (DistributionScanView {
                        queue: QueueView {
                            distributions: views(job.distributions@),
                            current: 0,
                            stopped: false,
                        },
                        findings: Seq::empty(),
                        warnings: Seq::empty(),
                    })
                },
                Err(error) => {
                    &&& job.distributions@.len() > max_distributions
                    &&& error == (ScanError::TooManyDistributions {
                        count: job.distributions@.len() as usize,
                        limit: max_distributions,
                    })
                },
            },
    {
        let queue = match DistributionQueue::new(job, max_distributions) {
            Ok(queue) => queue,
            Err(error) => return Err(error),
        };
        let findings: Vec<OpenGrepFinding> = Vec::new();
        let warnings: Vec<String> = Vec::new();
        assert(views(findings@) =~= Seq::<FindingView>::empty());
        assert(views(warnings@) =~= Seq::<Seq<char>>::empty());
        Ok(DistributionScan { queue, findings, warnings })
    }

    /// Where the next distribution is; nothing where all are scanned or one timed out.
    pub fn next(&self) -> (result: Result<Option<ParsedUrl>, ScanError>)
        ensures
            is_next_url(self@.queue, result),
    {
        self.queue.next()
    }

    /// Takes a failure in a stage of the current distribution: a timeout ends the scan with a
    /// warning, anything else fails it.
    pub fn stage_failed(&mut self, stage: Stage, error: ScanError) -> (result: Result<
        (),
        ScanError,
    >)
        requires
            old(self).wf(),
            old(self)@.queue.is_active(),
        ensures
            final(self).wf(),
            match result {
                Ok(()) => {
                    &&& error.is_timeout()
                    &&& final(self)@ == old(self)@.timed_out(stage)
                },
                Err(shown) => {
                    &&& !error.is_timeout()
                    &&& shown == error
                    &&& *final(self) == *old(self)
                },
            },
    {
        if !is_timeout_error(&error) {
            return Err(error);
        }
        self.halt(stage);
        Ok(())
    }

    /// Ends the scan at a distribution that timed out in a stage.
    fn halt(&mut self, stage: Stage)
        requires
            old(self)@.queue.is_active(),
        ensures
            final(self)@ == old(self)@.timed_out(stage),
    {
        let ghost before = views(self.warnings@);
        let warning = self.queue.halt(stage);
        self.warnings.push(warning);
        assert(views(self.warnings@) =~= before.push(warning@));
    }

    /// Takes how long the current distribution took to be downloaded, and gives how long the engine
    /// may run on it; nothing, with a warning, where no time is left.
    pub fn downloaded(&mut self, elapsed: u128) -> (remaining: Option<u128>)
        requires
            old(self).wf(),
            old(self)@.queue.is_active(),
        ensures
            final(self).wf(),
            match remaining {
                Some(left) => {
                    &&& elapsed + left == SCAN_DEADLINE_NS
                    &&& *final(self) == *old(self)
                },
                None => {
                    &&& elapsed > SCAN_DEADLINE_NS
                    &&& final(self)@ == old(self)@.timed_out(Stage::Preparation)
                },
            },
    {
        if elapsed > SCAN_DEADLINE_NS {
            self.halt(Stage::Preparation);
            return None;
        }
        Some(SCAN_DEADLINE_NS - elapsed)
    }

    /// Takes what the engine found in the current distribution, and goes on to the next one.
    pub fn scanned(&mut self, run: OpenGrepRun) -> (result: Result<(), ScanError>)
        requires
            old(self).wf(),
            old(self)@.queue.is_active(),
        ensures
            final(self).wf(),
            match result {
                Ok(()) => {
                    &&& old(self)@.findings.len() + run.findings@.len() <= MAX_FINDINGS
                    &&& final(self)@ == old(self)@.with_run(
                        views(run.findings@),
                        views(run.warnings@),
                    )
                },
                Err(error) => {
                    &&& old(self)@.findings.len() + run.findings@.len() > MAX_FINDINGS
                    &&& error == ScanError::TooManyFindings
                    &&& final(self)@ == old(self)@
                },
            },
    {
        proof {
            lemma_views_add(self.findings@, run.findings@);
            lemma_views_add(self.warnings@, run.warnings@);
        }
        match append_findings(&mut self.findings, run.findings) {
            Ok(()) => {},
            Err(error) => return Err(error),
        }
        let mut warnings = run.warnings;
        self.warnings.append(&mut warnings);
        self.queue.advance();
        Ok(())
    }

    /// What the scan gave.
    pub fn finish(self) -> (outcome: ScanJobOutcome)
        requires
            self.wf(),
        ensures
            outcome.findings@.len() <= MAX_FINDINGS,
            views(outcome.findings@) == self@.findings,
            match outcome.partial_reason {
                Some(text) => reason_for(self@.warnings) == Some(text@),
                None => reason_for(self@.warnings) is None,
            },
    {
        let partial_reason = partial_reason(self.warnings.as_slice());
        assert(views(self.findings@).len() == self.findings@.len());
        ScanJobOutcome { findings: self.findings, partial_reason }
    }
}

/// How long the engine may run on a whole package, in nanoseconds: as long as on each of its
/// distributions, and at least once.
pub fn package_deadline(distributions: u32) -> (deadline: u128)
    ensures
        deadline == SCAN_DEADLINE_NS * (if distributions == 0 {
            1
        } else {
            distributions as int
        }),
{
    let count: u128 = if distributions == 0 {
        1
    } else {
        distributions as u128
    };
    assert(SCAN_DEADLINE_NS * count <= SCAN_DEADLINE_NS * 0xffff_ffff) by (nonlinear_arith)
        requires
            count <= 0xffff_ffff,
    ;
    SCAN_DEADLINE_NS * count
}

/// The URL that findings in canonical targets have until they are put into their places.
pub fn placeholder_inspector() -> (url: &'static str)
    ensures
        url@ == "https://opengrep-target.invalid/"@,
{
    "https://opengrep-target.invalid/"
}

/// What to do after the engine ran on a whole package.
pub enum PackageStep {
    /// Use what it gave.
    Done(OpenGrepRun),
    /// Run it on groups of targets.
    RetryInGroups,
    /// Fail.
    Fail(ScanError),
}

/// Decides what to do after the engine ran on a whole package: a timeout is retried in groups.
pub fn run_package_target(result: Result<OpenGrepRun, ScanError>) -> (step: PackageStep)
    ensures
        match result {
            Ok(run) => step == PackageStep::Done(run),
            Err(error) => if error.is_timeout() {
                step == PackageStep::RetryInGroups
            } else {
                step == PackageStep::Fail(error)
            },
        },
{
    match result {
        Ok(run) => PackageStep::Done(run),
        Err(error) => if is_timeout_error(&error) {
            PackageStep::RetryInGroups
        } else {
            PackageStep::Fail(error)
        },
    }
}

/// The targets of a package scanned in groups of bounded size.
pub struct GroupedScan {
    max_entries: usize,
    group_size: usize,
    stopped: bool,
    findings: Vec<OpenGrepFinding>,
    warnings: Vec<String>,
}

/// A scan in groups as a mathematical value.
pub struct GroupedView {
    /// How many targets a group holds when it is scanned.
    pub max_entries: usize,
    /// How many targets the current group holds.
    pub group_size: usize,
    /// Whether a group timed out or failed, so that nothing follows.
    pub stopped: bool,
    pub findings: Seq<FindingView>,
    pub warnings: Seq<Seq<char>>,
}

impl View for GroupedScan {
    type V = GroupedView;

    closed spec fn view(&self) -> GroupedView {
        GroupedView {
            max_entries: self.max_entries,
            group_size: self.group_size,
            stopped: self.stopped,
            findings: views(self.findings@),
            warnings: views(self.warnings@),
        }
    }
}

/// What is said of a group that timed out.
pub open spec fn group_timeout_text() -> Seq<char> {
    "Timed out scanning a fallback package target group"@
}

/// What a run of the engine on a group does to the findings and the warnings, and whether the
/// scan goes on.
pub open spec fn is_group_result(
    findings: Seq<FindingView>,
    warnings: Seq<Seq<char>>,
    run: Result<OpenGrepRun, ScanError>,
    next_findings: Seq<FindingView>,
    next_warnings: Seq<Seq<char>>,
    result: Result<bool, ScanError>,
) -> bool {
    match run {
        Ok(run) => if findings.len() + run.findings@.len() <= MAX_FINDINGS {
            &&& result == Ok::<bool, ScanError>(true)
            &&& next_findings == findings + views(run.findings@)
            &&& next_warnings == warnings + views(run.warnings@)
        } else {
            &&& result == Err::<bool, ScanError>(ScanError::TooManyFindings)
            &&& next_findings == findings
            &&& next_warnings == warnings
        },
        Err(error) => if error.is_timeout() {
            &&& result == Ok::<bool, ScanError>(false)
            &&& next_findings == findings
            &&& next_warnings == warnings.push(group_timeout_text())
        } else {
            &&& result == Err::<bool, ScanError>(error)
            &&& next_findings == findings
            &&& next_warnings == warnings
        },
    }
}

/// Takes what a run of the engine on a group gave. Whether the scan goes on: it ends, with a
/// warning, where the group timed out.
pub fn run_opengrep_group(
    run: Result<OpenGrepRun, ScanError>,
    findings: &mut Vec<OpenGrepFinding>,
    warnings: &mut Vec<String>,
) -> (result: Result<bool, ScanError>)
    ensures
        is_group_result(
            views(old(findings)@),
            views(old(warnings)@),
            run,
            views(final(findings)@),
            views(final(warnings)@),
            result,
        ),
{
    match run {
        Ok(run) => {
            proof {
                lemma_views_add(findings@, run.findings@);
                lemma_views_add(warnings@, run.warnings@);
            }
            match append_findings(findings, run.findings) {
                Ok(()) => {},
                Err(error) => return Err(error),
            }
            let mut more = run.warnings;
            warnings.append(&mut more);
            Ok(true)
        },
        Err(error) => if is_timeout_error(&error) {
            let ghost before = views(warnings@);
            warnings.push("Timed out scanning a fallback package target group".to_owned());
            assert(views(warnings@) =~= before.push(group_timeout_text()));
            Ok(false)
        } else {
            Err(error)
        },
    }
}

/// A scan in groups without targets.
pub open spec fn no_group(max_entries: usize) -> GroupedView {
    GroupedView {
        max_entries,
        group_size: 0,
        stopped: false,
        findings: Seq::empty(),
        warnings: Seq::empty(),
    }
}

/// A scan in groups once another target is in the current group.
pub open spec fn with_entry(scan: GroupedView) -> GroupedView {
    GroupedView { group_size: (scan.group_size + 1) as usize, ..scan }
}

/// Whether the current group is full.
pub open spec fn is_due(scan: GroupedView) -> bool {
    scan.group_size == scan.max_entries
}

/// Whether the current group has targets.
pub open spec fn rest_left(scan: GroupedView) -> bool {
    scan.group_size > 0
}

/// Whether taking what the engine gave for the current group leads from one state to another, with
/// a result.
pub open spec fn is_group_step(
    before: GroupedView,
    run: Result<OpenGrepRun, ScanError>,
    after: GroupedView,
    result: Result<bool, ScanError>,
) -> bool {
    &&& after.max_entries == before.max_entries
    &&& after.group_size == 0
    &&& after.stopped == (result != Ok::<bool, ScanError>(true))
    &&& is_group_result(
        before.findings,
        before.warnings,
        run,
        after.findings,
        after.warnings,
        result,
    )
}

impl GroupedScan {
    /// Whether the current group is not due yet.
    pub closed spec fn wf(self) -> bool {
        self.group_size < self.max_entries
    }

    /// No target yet.
    pub fn new(max_entries: usize) -> (result: Result<Self, ScanError>)
        ensures
            match result {
                Ok(scan) => {
                    &&& max_entries > 0
                    &&& scan.wf()
                    &&& scan@ == no_group(max_entries)
                },
                Err(error) => max_entries == 0 && error == ScanError::EmptyGroup,
            },
    {
        if max_entries == 0 {
            return Err(ScanError::EmptyGroup);
        }
        let findings: Vec<OpenGrepFinding> = Vec::new();
        let warnings: Vec<String> = Vec::new();
        assert(views(findings@) =~= Seq::<FindingView>::empty());
        assert(views(warnings@) =~= Seq::<Seq<char>>::empty());
        Ok(GroupedScan { max_entries, group_size: 0, stopped: false, findings, warnings })
    }

    /// Fails where an entry of the target directory is not a file.
    pub fn check_entry(is_file: bool) -> (result: Result<(), ScanError>)
        ensures
            match result {
                Ok(()) => is_file,
                Err(error) => !is_file && error == ScanError::NonFileEntry,
            },
    {
        if is_file {
            Ok(())
        } else {
            Err(ScanError::NonFileEntry)
        }
    }

    /// Puts another target into the current group. Whether the group is then to be scanned.
    pub fn add_entry(&mut self) -> (due: bool)
        requires
            old(self).wf(),
            !old(self)@.stopped,
        ensures
            final(self)@ == with_entry(old(self)@),
            old(self)@.group_size + 1 <= old(self)@.max_entries,
            due == is_due(final(self)@),
            !due ==> final(self).wf(),
    {
        self.group_size = self.group_size + 1;
        self.group_size == self.max_entries
    }

    /// Whether the last group, which is not full, has targets.
    pub fn has_rest(&self) -> (result: bool)
        ensures
            result == rest_left(self@),
    {
        self.group_size > 0
    }

    /// Takes what the engine gave for the current group, and starts a new group where the scan goes
    /// on, which is returned.
    pub fn group_scanned(&mut self, run: Result<OpenGrepRun, ScanError>) -> (result: Result<
        bool,
        ScanError,
    >)
        requires
            old(self)@.max_entries > 0,
            0 < old(self)@.group_size <= old(self)@.max_entries,
            !old(self)@.stopped,
        ensures
            final(self).wf(),
            is_group_step(old(self)@, run, final(self)@, result),
    {
        self.group_size = 0;
        let result = run_opengrep_group(run, &mut self.findings, &mut self.warnings);
        self.stopped = match &result {
            Ok(goes_on) => !*goes_on,
            Err(_) => true,
        };
        result
    }

    /// What all groups gave. No target counts as scanned, so none of the results is kept for reuse.
    pub fn finish(self) -> (run: OpenGrepRun)
        ensures
            views(run.findings@) == self@.findings,
            views(run.warnings@) == self@.warnings,
            run.scanned_paths@ == Set::<Seq<char>>::empty(),
    {
        OpenGrepRun {
            findings: self.findings,
            warnings: self.warnings,
            scanned_paths: TextSet::new(),
        }
    }
}

} // verus!
