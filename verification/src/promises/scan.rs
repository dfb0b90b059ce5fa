//! What holds of the course of a scan.

use vstd::prelude::*;

use crate::engine::OpenGrepRun;
use crate::error::{is_timeout_error, ScanError};
use crate::models::{FindingView, Job};
use crate::origin::{url_parts, ParsedUrl};
use crate::package::{Commit, DistributionTargetPlan, PackageTarget};
use crate::promises::findings::start_of;
use crate::scan::{
    check_distributions, package_deadline, partial_reason, placeholder_inspector,
    run_opengrep_group, run_package_target, stage_warning, BatchedPreparation, DistributionQueue,
    DistributionScan, DistributionScanView, GroupedScan, PackageStep, QueueView, ScanJobOutcome,
    Stage,
};
use crate::text::{joined, truncated, views};

verus! {

/// The start of what is said of a distribution that timed out in a stage.
pub open spec fn stage_words(stage: Stage) -> Seq<char> {
    match stage {
        Stage::Download => "Timed out downloading or extracting distribution "@,
        Stage::Preparation => "Timed out preparing distribution "@,
        Stage::Scan => "Timed out scanning distribution "@,
    }
}

/// A warning of a timeout names the stage and the distribution.
pub proof fn law_timeouts_name_their_distribution(
    stage: Stage,
    distribution: &str,
    warning: String,
)
    requires
        call_ensures(stage_warning, (stage, distribution), warning),
    ensures
        warning@ == stage_words(stage) + distribution@,
{
}

/// There is a reason just where there are warnings: they are all in it, in order, as far as it is
/// reported.
pub proof fn law_reasons_are_the_warnings(warnings: &[String], reason: Option<String>)
    requires
        call_ensures(partial_reason, (warnings,), reason),
    ensures
        reason is Some <==> warnings@.len() > 0,
        reason matches Some(text) ==> text@ == start_of(
            joined(views(warnings@), seq![';', ' ']),
            2048,
        ),
{
    reveal_strlit("; ");
    assert("; "@ =~= seq![';', ' ']);
    assert(views(warnings@).len() == warnings@.len());
    let all = joined(views(warnings@), seq![';', ' ']);
    assert(truncated(all, 2048) =~= start_of(all, 2048));
}

/// A package is scanned where it has no more distributions than are allowed.
pub proof fn law_distributions_are_limited(
    job: &Job,
    max_distributions: usize,
    result: Result<(), ScanError>,
)
    requires
        job.distributions@.len() <= usize::MAX,
        call_ensures(check_distributions, (job, max_distributions), result),
    ensures
        result is Ok <==> job.distributions@.len() <= max_distributions,
        result matches Err(error) ==> {
            &&& error matches ScanError::TooManyDistributions { count, limit }
            &&& count == job.distributions@.len()
            &&& limit == max_distributions
        },
{
}

/// Whether a queue is that of a job of which nothing is done.
pub open spec fn is_new_queue(queue: QueueView, job: Job) -> bool {
    &&& queue.distributions == views(job.distributions@)
    &&& queue.current == 0
    &&& !queue.stopped
}

/// Whether a queue has a distribution whose turn it is.
pub open spec fn has_turn(queue: QueueView) -> bool {
    !queue.stopped && queue.current < queue.distributions.len()
}

/// Whether what is next is the distribution whose turn it is, read as a URL; nothing where none has
/// its turn.
pub open spec fn is_next(queue: QueueView, result: Result<Option<ParsedUrl>, ScanError>) -> bool {
    if has_turn(queue) {
        match url_parts(queue.distributions[queue.current as int]) {
            Ok(parts) => result matches Ok(Some(url)) && url@ == parts,
            Err(reason) => result matches Err(ScanError::InvalidUrl(shown)) && shown@ == reason,
        }
    } else {
        result matches Ok(None)
    }
}

/// All distributions of a job have their turn, from the first on, until one times out.
pub proof fn law_distributions_have_their_turn(
    job: &Job,
    max_distributions: usize,
    made: Result<DistributionQueue, ScanError>,
    queue: &DistributionQueue,
    result: Result<Option<ParsedUrl>, ScanError>,
)
    requires
        call_ensures(DistributionQueue::new, (job, max_distributions), made),
        call_ensures(DistributionQueue::next, (queue,), result),
    ensures
        made is Ok <==> job.distributions@.len() <= max_distributions,
        made matches Ok(queue) ==> is_new_queue(queue@, *job),
        made matches Err(error) ==> error is TooManyDistributions,
        queue@.is_active() <==> has_turn(queue@),
        is_next(queue@, result),
{
}

/// A preparation starts with all distributions of its job and an empty package in its directory.
pub proof fn law_preparations_start_with_nothing(
    job: &Job,
    max_distributions: usize,
    directory: Vec<u8>,
    result: Result<BatchedPreparation, ScanError>,
)
    requires
        call_ensures(BatchedPreparation::new, (job, max_distributions, directory), result),
    ensures
        result is Ok <==> job.distributions@.len() <= max_distributions,
        result matches Ok(preparation) ==> {
            &&& preparation.wf()
            &&& is_new_queue(preparation@.queue, *job)
            &&& preparation@.package.directory == directory@
            &&& preparation@.package.identities == Map::<
                crate::identity::IdentityView,
                u64,
            >::empty()
            &&& preparation@.package.inspectors.len() == 0
            &&& preparation@.package.next_target_id == 0
            &&& preparation@.package.deduplicated_files == 0
            &&& preparation@.warnings.len() == 0
            &&& preparation@.prepared == 0
        },
        result matches Err(error) ==> error is TooManyDistributions,
{
}

/// A preparation takes the distributions in their turn, and gives its package, how many of them it
/// has, and all warnings.
pub proof fn law_preparations_give_all_they_have(
    preparation: BatchedPreparation,
    next: Result<Option<ParsedUrl>, ScanError>,
    package: &PackageTarget,
    result: (PackageTarget, u32, Vec<String>),
)
    requires
        preparation.wf(),
        call_ensures(BatchedPreparation::next, (&preparation,), next),
        call_ensures(BatchedPreparation::package, (&preparation,), package),
        call_ensures(BatchedPreparation::finish, (preparation,), result),
    ensures
        is_next(preparation@.queue, next),
        package@ == preparation@.package,
        result.0@ == preparation@.package,
        result.1 == preparation@.prepared,
        views(result.2@) == preparation@.warnings,
{
}

/// A timeout ends a preparation with a warning that names the distribution, and keeps all that was
/// prepared; any other failure is passed on and changes nothing.
pub proof fn law_preparations_end_at_timeouts(
    preparation: &mut BatchedPreparation,
    stage: Stage,
    error: ScanError,
    timeout: bool,
    result: Result<(), ScanError>,
)
    requires
        old(preparation).wf(),
        old(preparation)@.queue.is_active(),
        call_ensures(BatchedPreparation::stage_failed, (preparation, stage, error), result),
        call_ensures(is_timeout_error, (&error,), timeout),
    ensures
        ({
            let before = old(preparation)@;
            let after = final(preparation)@;
            if timeout {
                &&& result is Ok
                &&& final(preparation).wf()
                &&& !has_turn(after.queue)
                &&& after.queue.stopped
                &&& after.queue.distributions == before.queue.distributions
                &&& after.queue.current == before.queue.current
                &&& after.package == before.package
                &&& after.prepared == before.prepared
                &&& after.warnings == before.warnings.push(
                    stage_words(stage) + before.queue.distributions[before.queue.current as int],
                )
            } else {
                result == Err::<(), ScanError>(error) && after == before
            }
        }),
{
}

/// A prepared distribution is added to the package as committing its plan does, and the next one has
/// its turn; nothing else changes but the count.
pub proof fn law_preparations_go_on(
    preparation: &mut BatchedPreparation,
    plan: DistributionTargetPlan,
    inspector: String,
    package: &mut PackageTarget,
    committed: Result<Commit, ScanError>,
    result: Result<Commit, ScanError>,
)
    requires
        old(preparation).wf(),
        old(preparation)@.queue.is_active(),
        crate::package::plan_for(old(preparation)@.package.identities, plan@),
        old(package).wf(),
        old(package)@ == old(preparation)@.package,
        call_ensures(PackageTarget::commit_distribution, (package, plan, inspector), committed),
        call_ensures(BatchedPreparation::planned, (preparation, plan, inspector), result),
    ensures
        ({
            let before = old(preparation)@;
            let after = final(preparation)@;
            &&& after.package == final(package)@
            &&& after.warnings == before.warnings
            &&& after.queue.distributions == before.queue.distributions
            &&& after.queue.stopped == before.queue.stopped
            &&& match (committed, result) {
                (Ok(expected), Ok(given)) => {
                    &&& final(preparation).wf()
                    &&& views(given.aliases@) == views(expected.aliases@)
                    &&& given.links@.len() == expected.links@.len()
                    &&& forall|k: int|
                        0 <= k < given.links@.len() ==> {
                            &&& (#[trigger] given.links@[k]).source@ == expected.links@[k].source@
                            &&& given.links@[k].destination@ == expected.links@[k].destination@
                        }
                    &&& after.queue.current == before.queue.current + 1
                    &&& after.prepared == before.prepared + 1 || before.prepared == u32::MAX
                        && after.prepared == u32::MAX
                },
                (Err(expected), Err(given)) => {
                    &&& given == expected
                    &&& after.queue.current == before.queue.current
                    &&& after.prepared == before.prepared
                },
                _ => false,
            }
        }),
{
    if let (Ok(expected), Ok(given)) = (committed, result) {
        assert forall|k: int| 0 <= k < given.links@.len() implies {
            &&& (#[trigger] given.links@[k]).source@ == expected.links@[k].source@
            &&& given.links@[k].destination@ == expected.links@[k].destination@
        } by {
            let link = expected.links@[k];
        }
    }
}

/// A scan by distributions starts with all of them, and with neither findings nor warnings.
pub proof fn law_scans_by_distribution_start_with_nothing(
    job: &Job,
    max_distributions: usize,
    result: Result<DistributionScan, ScanError>,
)
    requires
        call_ensures(DistributionScan::new, (job, max_distributions), result),
    ensures
        result is Ok <==> job.distributions@.len() <= max_distributions,
        result matches Ok(scan) ==> {
            &&& scan.wf()
            &&& is_new_queue(scan@.queue, *job)
            &&& scan@.findings.len() == 0
            &&& scan@.warnings.len() == 0
        },
        result matches Err(error) ==> error is TooManyDistributions,
{
}

/// Whether a scan has ended at the distribution whose turn it was, in a stage: with a warning that
/// names it, and with all that was found before.
pub open spec fn ended_in(
    before: DistributionScanView,
    stage: Stage,
    after: DistributionScanView,
) -> bool {
    &&& after.queue.stopped
    &&& after.queue.distributions == before.queue.distributions
    &&& after.queue.current == before.queue.current
    &&& after.findings == before.findings
    &&& after.warnings == before.warnings.push(
        stage_words(stage) + before.queue.distributions[before.queue.current as int],
    )
}

/// A timeout ends a scan by distributions with a warning that names the distribution, and keeps all
/// that was found; any other failure is passed on and changes nothing.
pub proof fn law_scans_by_distribution_end_at_timeouts(
    scan: &mut DistributionScan,
    stage: Stage,
    error: ScanError,
    timeout: bool,
    result: Result<(), ScanError>,
)
    requires
        old(scan).wf(),
        old(scan)@.queue.is_active(),
        call_ensures(DistributionScan::stage_failed, (scan, stage, error), result),
        call_ensures(is_timeout_error, (&error,), timeout),
    ensures
        final(scan).wf(),
        timeout ==> result is Ok && ended_in(old(scan)@, stage, final(scan)@),
        !timeout ==> result == Err::<(), ScanError>(error) && final(scan)@ == old(scan)@,
{
}

/// The engine may run for what is left of a minute once a distribution is downloaded; where nothing
/// can be left, the scan ends.
pub proof fn law_the_engine_has_the_rest_of_the_time(
    scan: &mut DistributionScan,
    elapsed: u128,
    remaining: Option<u128>,
)
    requires
        old(scan).wf(),
        old(scan)@.queue.is_active(),
        call_ensures(DistributionScan::downloaded, (scan, elapsed), remaining),
    ensures
        final(scan).wf(),
        remaining is Some <==> elapsed <= 60_000_000_000,
        remaining matches Some(left) ==> elapsed + left == 60_000_000_000 && final(scan)@ == old(
            scan,
        )@,
        remaining is None ==> ended_in(old(scan)@, Stage::Preparation, final(scan)@),
{
}

/// What the engine found in a distribution is added, all of it, and so are its warnings, whatever it
/// found; the next distribution then has its turn. It fails, and changes nothing, only where there
/// would be too many findings.
pub proof fn law_runs_are_added_whole(
    scan: &mut DistributionScan,
    run: OpenGrepRun,
    result: Result<(), ScanError>,
)
    requires
        old(scan).wf(),
        old(scan)@.queue.is_active(),
        call_ensures(DistributionScan::scanned, (scan, run), result),
    ensures
        final(scan).wf(),
        result is Ok <==> old(scan)@.findings.len() + run.findings@.len() <= 500,
        result is Ok ==> {
            &&& final(scan)@.findings == old(scan)@.findings + views(run.findings@)
            &&& final(scan)@.warnings == old(scan)@.warnings + views(run.warnings@)
            &&& final(scan)@.queue.distributions == old(scan)@.queue.distributions
            &&& final(scan)@.queue.current == old(scan)@.queue.current + 1
            &&& !final(scan)@.queue.stopped
        },
        result matches Err(error) ==> {
            &&& error == ScanError::TooManyFindings
            &&& final(scan)@ == old(scan)@
        },
{
}

/// What was found and what was said by some runs, one after another.
pub open spec fn all_findings(runs: Seq<OpenGrepRun>) -> Seq<FindingView> {
    runs.map_values(|run: OpenGrepRun| views(run.findings@)).flatten()
}

/// What was said by some runs, one after another.
pub open spec fn all_warnings(runs: Seq<OpenGrepRun>) -> Seq<Seq<char>> {
    runs.map_values(|run: OpenGrepRun| views(run.warnings@)).flatten()
}

/// Whether states of a scan are those before and behind each of some runs that it takes.
pub open spec fn takes_runs(states: Seq<DistributionScanView>, runs: Seq<OpenGrepRun>) -> bool {
    &&& states.len() == runs.len() + 1
    &&& forall|i: int|
        0 <= i < runs.len() ==> states[i + 1] == states[i].with_run(
            views((#[trigger] runs[i]).findings@),
            views(runs[i].warnings@),
        )
}

proof fn lemma_runs_are_collected(states: Seq<DistributionScanView>, runs: Seq<OpenGrepRun>)
    requires
        takes_runs(states, runs),
    ensures
        states.last().findings == states[0].findings + all_findings(runs),
        states.last().warnings == states[0].warnings + all_warnings(runs),
        states.last().queue.distributions == states[0].queue.distributions,
        states.last().queue.current == states[0].queue.current + runs.len(),
    decreases runs.len(),
{
    let found = runs.map_values(|run: OpenGrepRun| views(run.findings@));
    let said = runs.map_values(|run: OpenGrepRun| views(run.warnings@));
    if runs.len() == 0 {
        assert(found.flatten() =~= Seq::<FindingView>::empty());
        assert(said.flatten() =~= Seq::<Seq<char>>::empty());
    } else {
        let n = runs.len() - 1;
        let earlier = runs.drop_last();
        let run = runs.last();
        let shorter = states.drop_last();
        assert forall|i: int| 0 <= i < earlier.len() implies shorter[i + 1] == shorter[i].with_run(
            views((#[trigger] earlier[i]).findings@),
            views(earlier[i].warnings@),
        ) by {
            assert(earlier[i] == runs[i]);
        }
        lemma_runs_are_collected(shorter, earlier);
        assert(states[n + 1] == states[n].with_run(
            views(runs[n].findings@),
            views(runs[n].warnings@),
        ));
        let found_before = earlier.map_values(|run: OpenGrepRun| views(run.findings@));
        let said_before = earlier.map_values(|run: OpenGrepRun| views(run.warnings@));
        found_before.lemma_flatten_push(views(run.findings@));
        said_before.lemma_flatten_push(views(run.warnings@));
        assert(found =~= found_before.push(views(run.findings@)));
        assert(said =~= said_before.push(views(run.warnings@)));
    }
    assert(states.last().findings =~= states[0].findings + all_findings(runs));
    assert(states.last().warnings =~= states[0].warnings + all_warnings(runs));
}

/// After any sequence of runs, and a timeout where one follows, a scan has the findings of all runs,
/// in order, and the warnings of all runs and of the timeout, in order. What it reports has a reason
/// just where any run or a timeout left a warning, whatever was found.
pub proof fn law_all_warnings_are_reported(
    states: Seq<DistributionScanView>,
    runs: Seq<OpenGrepRun>,
    ended: Option<Stage>,
    scan: DistributionScan,
    outcome: ScanJobOutcome,
)
    requires
        states.len() > 0,
        states[0].findings.len() == 0,
        states[0].warnings.len() == 0,
        takes_runs(states, runs),
        scan@ == (match ended {
            Some(stage) => states.last().timed_out(stage),
            None => states.last(),
        }),
        scan.wf(),
        call_ensures(DistributionScan::finish, (scan,), outcome),
    ensures
        ({
            let queue = states.last().queue;
            let warnings = match ended {
                Some(stage) => all_warnings(runs).push(
                    stage_words(stage) + queue.distributions[queue.current as int],
                ),
                None => all_warnings(runs),
            };
            &&& queue.distributions == states[0].queue.distributions
            &&& queue.current == states[0].queue.current + runs.len()
            &&& views(outcome.findings@) == all_findings(runs)
            &&& outcome.partial_reason is Some <==> ended is Some || exists|i: int|
                0 <= i < runs.len() && (#[trigger] runs[i]).warnings@.len() > 0
            &&& outcome.partial_reason matches Some(text) ==> text@ == start_of(
                joined(warnings, seq![';', ' ']),
                2048,
            )
        }),
{
    lemma_runs_are_collected(states, runs);
    lemma_some_warning(runs);
    reveal_strlit("; ");
    assert("; "@ =~= seq![';', ' ']);
    let queue = states.last().queue;
    let warnings = match ended {
        Some(stage) => all_warnings(runs).push(
            stage_words(stage) + queue.distributions[queue.current as int],
        ),
        None => all_warnings(runs),
    };
    assert(states.last().warnings =~= all_warnings(runs));
    assert(states.last().findings =~= all_findings(runs));
    assert(scan@.warnings =~= warnings);
    let all = joined(warnings, seq![';', ' ']);
    assert(truncated(all, 2048) =~= start_of(all, 2048));
}

proof fn lemma_some_warning(runs: Seq<OpenGrepRun>)
    ensures
        all_warnings(runs).len() > 0 <==> exists|i: int|
            0 <= i < runs.len() && (#[trigger] runs[i]).warnings@.len() > 0,
    decreases runs.len(),
{
    let said = runs.map_values(|run: OpenGrepRun| views(run.warnings@));
    if runs.len() > 0 {
        let earlier = runs.drop_last();
        let run = runs.last();
        let said_before = earlier.map_values(|run: OpenGrepRun| views(run.warnings@));
        lemma_some_warning(earlier);
        said_before.lemma_flatten_push(views(run.warnings@));
        assert(said =~= said_before.push(views(run.warnings@)));
        assert(views(run.warnings@).len() == run.warnings@.len());
        assert(runs[runs.len() - 1] == run);
        if exists|i: int| 0 <= i < earlier.len() && (#[trigger] earlier[i]).warnings@.len() > 0 {
            let i = choose|i: int|
                0 <= i < earlier.len() && (#[trigger] earlier[i]).warnings@.len() > 0;
            assert(runs[i].warnings@.len() > 0);
        }
        if exists|i: int| 0 <= i < runs.len() && (#[trigger] runs[i]).warnings@.len() > 0 {
            let i = choose|i: int| 0 <= i < runs.len() && (#[trigger] runs[i]).warnings@.len() > 0;
            if i < earlier.len() {
                assert(earlier[i].warnings@.len() > 0);
            }
        }
    } else {
        assert(said.flatten() =~= Seq::<Seq<char>>::empty());
    }
}

/// A scan by distributions takes them in their turn, and reports all findings that it has, with a
/// reason just where it has a warning.
pub proof fn law_scans_by_distribution_report_all(
    scan: DistributionScan,
    next: Result<Option<ParsedUrl>, ScanError>,
    outcome: ScanJobOutcome,
)
    requires
        scan.wf(),
        call_ensures(DistributionScan::next, (&scan,), next),
        call_ensures(DistributionScan::finish, (scan,), outcome),
    ensures
        is_next(scan@.queue, next),
        views(outcome.findings@) == scan@.findings,
        outcome.partial_reason is Some <==> scan@.warnings.len() > 0,
        outcome.partial_reason matches Some(text) ==> text@ == start_of(
            joined(scan@.warnings, seq![';', ' ']),
            2048,
        ),
{
    reveal_strlit("; ");
    assert("; "@ =~= seq![';', ' ']);
    let all = joined(scan@.warnings, seq![';', ' ']);
    assert(truncated(all, 2048) =~= start_of(all, 2048));
}

/// The engine has a minute for each distribution of a package, and one where there is none.
pub proof fn law_packages_have_a_minute_for_each_distribution(
    distributions: u32,
    deadline: u128,
    more: u32,
    later: u128,
)
    requires
        call_ensures(package_deadline, (distributions,), deadline),
        call_ensures(package_deadline, (more,), later),
    ensures
        distributions == 0 ==> deadline == 60_000_000_000,
        distributions == 1 ==> deadline == 60_000_000_000,
        distributions > 0 && more == distributions + 1 ==> later == deadline + 60_000_000_000,
{
}

/// What the engine gave for a whole package is used; only a timeout is tried again in groups, and
/// any other failure is passed on.
pub proof fn law_only_timeouts_are_retried(
    result: Result<OpenGrepRun, ScanError>,
    step: PackageStep,
    timeout: bool,
)
    requires
        call_ensures(run_package_target, (result,), step),
        result matches Err(error) ==> call_ensures(is_timeout_error, (&error,), timeout),
    ensures
        match result {
            Ok(run) => step == PackageStep::Done(run),
            Err(error) => if timeout {
                step is RetryInGroups
            } else {
                step == PackageStep::Fail(error)
            },
        },
{
}

/// What a group gave is added, all of it, where that is not too much. A timeout ends the scan with a
/// warning and keeps what was found before; any other failure is passed on.
pub proof fn law_groups_are_added_whole(
    run: Result<OpenGrepRun, ScanError>,
    findings: &mut Vec<crate::models::OpenGrepFinding>,
    warnings: &mut Vec<String>,
    timeout: bool,
    result: Result<bool, ScanError>,
)
    requires
        call_ensures(run_opengrep_group, (run, findings, warnings), result),
        run matches Err(error) ==> call_ensures(is_timeout_error, (&error,), timeout),
    ensures
        match run {
            Ok(run) => if old(findings)@.len() + run.findings@.len() <= 500 {
                &&& result == Ok::<bool, ScanError>(true)
                &&& views(final(findings)@) == views(old(findings)@) + views(run.findings@)
                &&& views(final(warnings)@) == views(old(warnings)@) + views(run.warnings@)
            } else {
                &&& result == Err::<bool, ScanError>(ScanError::TooManyFindings)
                &&& views(final(findings)@) == views(old(findings)@)
                &&& views(final(warnings)@) == views(old(warnings)@)
            },
            Err(error) => {
                &&& views(final(findings)@) == views(old(findings)@)
                &&& if timeout {
                    &&& result == Ok::<bool, ScanError>(false)
                    &&& views(final(warnings)@) == views(old(warnings)@).push(
                        "Timed out scanning a fallback package target group"@,
                    )
                } else {
                    &&& result == Err::<bool, ScanError>(error)
                    &&& views(final(warnings)@) == views(old(warnings)@)
                }
            },
        },
{
    assert(views(old(findings)@).len() == old(findings)@.len());
}

/// Groups have at least one target each; a scan in groups starts with an empty group, and takes
/// files only.
pub proof fn law_groups_start_empty(
    max_entries: usize,
    result: Result<GroupedScan, ScanError>,
    is_file: bool,
    checked: Result<(), ScanError>,
)
    requires
        call_ensures(GroupedScan::new, (max_entries,), result),
        call_ensures(GroupedScan::check_entry, (is_file,), checked),
    ensures
        result is Ok <==> max_entries > 0,
        result matches Ok(scan) ==> {
            &&& scan.wf()
            &&& scan@.max_entries == max_entries
            &&& scan@.group_size == 0
            &&& !scan@.stopped
            &&& scan@.findings.len() == 0
            &&& scan@.warnings.len() == 0
        },
        result matches Err(error) ==> error == ScanError::EmptyGroup,
        checked is Ok <==> is_file,
        checked matches Err(error) ==> error == ScanError::NonFileEntry,
{
}

/// A target makes the current group larger by one; the group is due just where it is full, and there
/// is a rest just where it has targets.
pub proof fn law_groups_grow_by_one(
    scan: &mut GroupedScan,
    due: bool,
    other: &GroupedScan,
    rest: bool,
)
    requires
        old(scan).wf(),
        !old(scan)@.stopped,
        old(scan)@.group_size < usize::MAX,
        call_ensures(GroupedScan::add_entry, (scan,), due),
        call_ensures(GroupedScan::has_rest, (other,), rest),
    ensures
        final(scan)@.group_size == old(scan)@.group_size + 1,
        final(scan)@.max_entries == old(scan)@.max_entries,
        final(scan)@.stopped == old(scan)@.stopped,
        final(scan)@.findings == old(scan)@.findings,
        final(scan)@.warnings == old(scan)@.warnings,
        due <==> old(scan)@.group_size + 1 == old(scan)@.max_entries,
        !due ==> final(scan).wf(),
        rest <==> other@.group_size > 0,
{
}

/// What the engine gave for a group is taken as for any group, and an empty group follows; the scan
/// has stopped just where it does not go on.
pub proof fn law_groups_follow_each_other(
    scan: &mut GroupedScan,
    run: Result<OpenGrepRun, ScanError>,
    findings: &mut Vec<crate::models::OpenGrepFinding>,
    warnings: &mut Vec<String>,
    expected: Result<bool, ScanError>,
    result: Result<bool, ScanError>,
)
    requires
        old(scan)@.max_entries > 0,
        0 < old(scan)@.group_size <= old(scan)@.max_entries,
        !old(scan)@.stopped,
        call_ensures(GroupedScan::group_scanned, (scan, run), result),
        views(old(findings)@) == old(scan)@.findings,
        views(old(warnings)@) == old(scan)@.warnings,
        call_ensures(run_opengrep_group, (run, findings, warnings), expected),
    ensures
        result == expected,
        final(scan)@.findings == views(final(findings)@),
        final(scan)@.warnings == views(final(warnings)@),
        final(scan).wf(),
        final(scan)@.group_size == 0,
        final(scan)@.max_entries == old(scan)@.max_entries,
        final(scan)@.stopped <==> result != Ok::<bool, ScanError>(true),
{
}

/// A scan in groups gives all findings and warnings that it has, and counts no target as scanned.
pub proof fn law_groups_give_all_they_have(scan: GroupedScan, run: OpenGrepRun, url: &'static str)
    requires
        call_ensures(GroupedScan::finish, (scan,), run),
        call_ensures(placeholder_inspector, (), url),
    ensures
        views(run.findings@) == scan@.findings,
        views(run.warnings@) == scan@.warnings,
        forall|path: Seq<char>| !#[trigger] run.scanned_paths@.contains(path),
        url@ == "https://opengrep-target.invalid/"@,
{
}

} // verus!
