//! On what the operations may be called: on anything, but where their state forbids it.

use vstd::prelude::*;

use crate::client::OpenGrepClient;
use crate::content::{content_findings, same_content};
use crate::engine::{
    check_engine_exit, describe_recoverable_scan_warning, is_recoverable_scan_warning, read_bounded,
    run_from_document, scan_arguments, wait_for_child, OpenGrepDocument, OpenGrepRun,
};
use crate::error::{ensure_scan_time_remaining, is_timeout_error, Deadline, ScanError};
use crate::expansion::FindingExpansion;
use crate::findings::{
    append_findings, build_inspector_url, normalize_finding, rewrite_finding_location, RawFinding,
};
use crate::identity::{ContentHasher, FileIdentity};
use crate::json::{write_array, Json};
use crate::models::{CacheMode, CacheStats, Job, OpenGrepFinding, OpenGrepRulesResponse};
use crate::numbers::{format_decimal, format_hex, parse_hex};
use crate::order::{side_of, side_of_texts};
use crate::origin::{check_api_origin, validate_api_origin, ParsedUrl};
use crate::package::{
    admit_file, plan_for, DistributionPlanner, DistributionTargetPlan, PackageTarget, SourceFile,
    TargetAlias,
};
use crate::path_order::path_at_or_before;
use crate::paths::{
    extension, find_names, relative_target_path, safe_relative_path, strip_directory,
    target_id_from_path, target_path,
};
use crate::promises::reuse::{lemma_pending_bytes, sum_of};
use crate::promises::scan::has_turn;
use crate::reuse::{EngineInput, KeptScan, PendingView, PlacedScan, PreparedScan, ReusedTarget};
use crate::rules::{
    check_inspection_exit, inspection_arguments, materialize_rules, rules_allow_content_reuse,
};
use crate::scan::{
    check_distributions, package_deadline, partial_reason, run_opengrep_group, run_package_target,
    stage_warning, BatchedPreparation, DistributionQueue, DistributionScan, GroupedScan,
    ScanJobOutcome, Stage,
};
use crate::text::{
    bytes_equal, count_matches, is_whitespace, join, normalize_whitespace, suffix_after, text_equal,
    trim_end, truncate,
};

verus! {

/// Any text may be cut, split, joined, compared and counted, and any number written and read.
pub proof fn law_any_text_may_be_handled(
    text: &str,
    other: &str,
    limit: usize,
    c: char,
    parts: &[String],
    bytes: &[u8],
    more: &[u8],
    chars: &[char],
    value: u64,
    wide: u128,
    width: u8,
    json: &Json,
)
    ensures
        call_requires(truncate, (text, limit)),
        call_requires(suffix_after, (text, c)),
        call_requires(join, (parts, text)),
        call_requires(bytes_equal, (bytes, more)),
        call_requires(text_equal, (text, other)),
        call_requires(trim_end, (text, c)),
        call_requires(is_whitespace, (c,)),
        call_requires(normalize_whitespace, (text,)),
        text@.len() > 0 ==> call_requires(count_matches, (chars, text)),
        call_requires(side_of, (bytes, more)),
        call_requires(side_of_texts, (text, other)),
        call_requires(format_decimal, (value,)),
        call_requires(format_hex, (wide, width)),
        call_requires(parse_hex, (bytes,)),
        call_requires(write_array, (parts,)),
        call_requires(Json::get, (json, text)),
        call_requires(Json::get_text, (json, text)),
        call_requires(Json::get_first_text, (json, text)),
{
}

/// Any path may be looked at, and any file considered.
pub proof fn law_any_path_may_be_handled(
    path: &[u8],
    directory: &[u8],
    text: &str,
    target_id: u64,
    end: Option<&[u8]>,
    size: u64,
    max_scan_size: u64,
    hasher: ContentHasher,
    identity: &FileIdentity,
    other: &FileIdentity,
    wanted: bool,
)
    ensures
        call_requires(find_names, (path,)),
        call_requires(safe_relative_path, (text,)),
        path@.len() > 0 && path@[0] == 47 ==> call_requires(strip_directory, (path, directory)),
        call_requires(relative_target_path, (path, directory)),
        call_requires(extension, (path,)),
        call_requires(target_id_from_path, (text,)),
        call_requires(target_path, (directory, target_id, end)),
        call_requires(path_at_or_before, (path, directory)),
        call_requires(admit_file, (path, directory, size, max_scan_size)),
        call_requires(ContentHasher::new, (wanted,)),
        call_requires(ContentHasher::update, (hasher, path)),
        call_requires(ContentHasher::identify, (&hasher, size, path)),
        call_requires(ContentHasher::sha256, (hasher,)),
        call_requires(FileIdentity::same_as, (identity, other)),
        call_requires(FileIdentity::cache_key, (identity, text)),
{
}

/// Any report of the engine may be read, and any finding submitted, moved, added and compared.
pub proof fn law_any_report_may_be_read(
    error: &Json,
    document: OpenGrepDocument,
    directory: &[u8],
    base: &str,
    text: &str,
    raw: RawFinding,
    finding: &OpenGrepFinding,
    findings: &mut Vec<OpenGrepFinding>,
    additional: Vec<OpenGrepFinding>,
    first: &[OpenGrepFinding],
    second: &[OpenGrepFinding],
    bytes: Vec<u8>,
    rules: Vec<u8>,
    size: u64,
    flag: bool,
    elapsed: u128,
    deadline: u128,
    missed: Deadline,
)
    ensures
        call_requires(is_recoverable_scan_warning, (error,)),
        call_requires(describe_recoverable_scan_warning, (error,)),
        call_requires(run_from_document, (document, directory, base)),
        call_requires(normalize_finding, (raw, directory, base)),
        call_requires(rewrite_finding_location, (finding, text, base)),
        call_requires(build_inspector_url, (base, text)),
        call_requires(append_findings, (findings, additional)),
        call_requires(content_findings, (first,)),
        call_requires(same_content, (first, second)),
        call_requires(wait_for_child, (flag, size, size, elapsed, deadline, missed)),
        call_requires(read_bounded, (bytes,)),
        call_requires(check_engine_exit, (flag, text, base)),
        call_requires(scan_arguments, (rules, bytes, size)),
        call_requires(ensure_scan_time_remaining, (elapsed, deadline)),
{
}

/// Any rules may be looked at, any API asked for, and any outcome reported.
pub proof fn law_any_job_may_be_taken(
    client: &OpenGrepClient,
    changed: &mut OpenGrepClient,
    job: &Job,
    outcome: Result<ScanJobOutcome, ScanError>,
    elapsed: u128,
    stats: CacheStats,
    error: &ScanError,
    url: &ParsedUrl,
    text: &str,
    other: &str,
    hash: String,
    flag: bool,
    mode: CacheMode,
    response: &OpenGrepRulesResponse,
    bytes: Vec<u8>,
    warnings: &[String],
    stage: Stage,
    limit: usize,
    directory: Vec<u8>,
    queue: &DistributionQueue,
    count: u32,
)
    ensures
        call_requires(OpenGrepClient::new, (text, hash, flag, mode)),
        call_requires(OpenGrepClient::base_url, (client,)),
        call_requires(OpenGrepClient::refresh_rules, (changed, hash, flag)),
        call_requires(OpenGrepClient::scan_job, (client, job)),
        call_requires(OpenGrepClient::new_stats, (client,)),
        call_requires(OpenGrepClient::run_job, (client, job, outcome, elapsed, stats)),
        call_requires(ScanError::message, (error,)),
        call_requires(is_timeout_error, (error,)),
        call_requires(check_api_origin, (url, text)),
        call_requires(validate_api_origin, (text,)),
        call_requires(materialize_rules, (response,)),
        call_requires(inspection_arguments, (bytes,)),
        call_requires(check_inspection_exit, (flag, text, other)),
        call_requires(rules_allow_content_reuse, (text,)),
        call_requires(stage_warning, (stage, text)),
        call_requires(partial_reason, (warnings,)),
        call_requires(check_distributions, (job, limit)),
        call_requires(DistributionQueue::new, (job, limit)),
        call_requires(DistributionQueue::next, (queue,)),
        call_requires(DistributionScan::new, (job, limit)),
        call_requires(BatchedPreparation::new, (job, limit, directory)),
        call_requires(package_deadline, (count,)),
        call_requires(CacheStats::new, (text, mode)),
{
}

/// A package takes any files and any plan that is for it, and expands any findings.
pub proof fn law_packages_take_any_files(
    package: &PackageTarget,
    changed: &mut PackageTarget,
    directory: &[u8],
    files: Vec<SourceFile>,
    size: u64,
    deadline: u128,
    plan: DistributionTargetPlan,
    inspector: String,
    findings: Vec<OpenGrepFinding>,
    aliases: &[TargetAlias],
    alias: &TargetAlias,
    expansion: FindingExpansion,
    path: Vec<u8>,
    index: usize,
)
    requires
        package.wf(),
        old(changed).wf(),
        plan_for(old(changed)@.identities, plan@),
        expansion.wf(),
    ensures
        call_requires(PackageTarget::new, (path,)),
        call_requires(PackageTarget::inspector, (package, index)),
        call_requires(PackageTarget::identities, (package,)),
        call_requires(
            PackageTarget::plan_distribution,
            (package, directory, files, size, deadline),
        ),
        call_requires(PackageTarget::commit_distribution, (changed, plan, inspector)),
        call_requires(PackageTarget::expand_findings, (package, findings, aliases)),
        call_requires(FindingExpansion::new, (findings,)),
        call_requires(FindingExpansion::add, (expansion, package, alias)),
        call_requires(FindingExpansion::finish, (expansion,)),
{
}

/// While a distribution has its turn, a scan takes any failure, any time and any run of it.
pub proof fn law_scans_take_any_run(
    preparation: &mut BatchedPreparation,
    scan: &mut DistributionScan,
    ended: DistributionScan,
    prepared: BatchedPreparation,
    stage: Stage,
    error: ScanError,
    elapsed: u128,
    run: OpenGrepRun,
    result: Result<OpenGrepRun, ScanError>,
    plan: DistributionTargetPlan,
    inspector: String,
)
    requires
        old(preparation).wf(),
        has_turn(old(preparation)@.queue),
        plan_for(old(preparation)@.package.identities, plan@),
        old(scan).wf(),
        has_turn(old(scan)@.queue),
        ended.wf(),
        prepared.wf(),
    ensures
        call_requires(BatchedPreparation::stage_failed, (preparation, stage, error)),
        call_requires(BatchedPreparation::planned, (preparation, plan, inspector)),
        call_requires(BatchedPreparation::next, (&prepared,)),
        call_requires(BatchedPreparation::package, (&prepared,)),
        call_requires(BatchedPreparation::finish, (prepared,)),
        call_requires(DistributionScan::stage_failed, (scan, stage, error)),
        call_requires(DistributionScan::downloaded, (scan, elapsed)),
        call_requires(DistributionScan::scanned, (scan, run)),
        call_requires(DistributionScan::next, (&ended,)),
        call_requires(DistributionScan::finish, (ended,)),
        call_requires(run_package_target, (result,)),
        ended@.findings.len() <= 500 ==> ended.wf(),
{
}

/// Groups take any run once they have a target.
pub proof fn law_groups_take_any_run(
    filling: &mut GroupedScan,
    filled: &mut GroupedScan,
    scan: GroupedScan,
    run: Result<OpenGrepRun, ScanError>,
    findings: &mut Vec<OpenGrepFinding>,
    warnings: &mut Vec<String>,
    limit: usize,
    flag: bool,
)
    requires
        old(filling).wf(),
        !old(filling)@.stopped,
        0 < old(filled)@.group_size <= old(filled)@.max_entries,
        !old(filled)@.stopped,
    ensures
        call_requires(GroupedScan::new, (limit,)),
        call_requires(GroupedScan::check_entry, (flag,)),
        call_requires(GroupedScan::add_entry, (filling,)),
        call_requires(GroupedScan::has_rest, (&scan,)),
        call_requires(GroupedScan::group_scanned, (filled, run)),
        call_requires(GroupedScan::finish, (scan,)),
        call_requires(run_opengrep_group, (run, findings, warnings)),
{
}

/// A prepared scan takes any target and any results, as far as they can be counted.
pub proof fn law_prepared_scans_take_any_target(
    scan: &mut PreparedScan,
    done: PreparedScan,
    package: &PackageTarget,
    identity: &FileIdentity,
    target_id: u64,
    printed: &str,
    cached: Option<Vec<OpenGrepFinding>>,
    reuse: bool,
    target: ReusedTarget,
    stats: &mut CacheStats,
    input: EngineInput,
    run: OpenGrepRun,
    placed: PlacedScan,
    alias: &TargetAlias,
    kept: &mut KeptScan,
    ended: KeptScan,
    counts: &CacheStats,
    warnings: Vec<String>,
)
    requires
        placed.wf(),
        old(kept).wf(),
        ended.wf(),
        old(stats).reused_files < u64::MAX,
        old(stats).reused_bytes + target@.size <= u64::MAX,
        old(stats).validated_files < u64::MAX,
        old(stats).mismatched_files < u64::MAX,
        sum_of(done@.pending.map_values(|target: PendingView| target.size)) <= u64::MAX,
    ensures
        call_requires(PreparedScan::new, (warnings,)),
        call_requires(
            PreparedScan::consider,
            (scan, package, identity, target_id, printed, cached, reuse),
        ),
        call_requires(ReusedTarget::path, (&target,)),
        call_requires(ReusedTarget::removed, (target, stats)),
        call_requires(PreparedScan::finish, (done, stats)),
        call_requires(EngineInput::needs_engine, (&input,)),
        input@.pending.len() == 0 ==> call_requires(EngineInput::without_engine, (input,)),
        call_requires(EngineInput::engine_done, (input, run)),
        call_requires(PlacedScan::needs_manifest, (&placed,)),
        call_requires(PlacedScan::add_place, (placed, package, alias)),
        call_requires(PlacedScan::finish, (placed,)),
        call_requires(KeptScan::keep_next, (kept, package, stats)),
        call_requires(KeptScan::conclude, (ended, counts, reuse)),
{
    lemma_pending_bytes(done@.pending);
}

/// A plan takes any file.
pub proof fn law_plans_take_any_file(
    planner: &mut DistributionPlanner,
    package: &PackageTarget,
    identity: FileIdentity,
    source: Vec<u8>,
    path: String,
    done: DistributionPlanner,
)
    requires
        old(planner).wf(),
        package.wf(),
        plan_for(package@.identities, old(planner)@),
    ensures
        call_requires(DistributionPlanner::new, ()),
        call_requires(DistributionPlanner::add, (planner, package, identity, source, path)),
        call_requires(DistributionPlanner::finish, (done,)),
{
}

} // verus!
