//! The course of a scan, the reports, and what can fail.

use dragonfly_opengrep::client::{OpenGrepClient, ScanMode};
use dragonfly_opengrep::engine::{OpenGrepRun, SCAN_DEADLINE_NS};
use dragonfly_opengrep::error::{is_timeout_error, Cause, Deadline, ScanError, MAX_FINDINGS};
use dragonfly_opengrep::identity::FileIdentity;
use dragonfly_opengrep::index::TextSet;
use dragonfly_opengrep::models::{
    CacheAction, CacheMode, CacheStats, Job, OpenGrepFinding, OpenGrepScanResult,
};
use dragonfly_opengrep::origin::{check_api_origin, validate_api_origin, ParsedUrl};
use dragonfly_opengrep::package::{PackageTarget, SourceFile, TargetAlias};
use dragonfly_opengrep::reuse::{Considered, KeepStep, PreparedScan};
use dragonfly_opengrep::scan::{
    check_distributions, package_deadline, partial_reason, placeholder_inspector,
    run_opengrep_group, run_package_target, BatchedPreparation, DistributionScan, GroupedScan,
    PackageStep, ScanJobOutcome, Stage, REASON_CHARS,
};

fn job(distributions: &[&str]) -> Job {
    Job {
        hash: "snapshot".to_owned(),
        name: "test".to_owned(),
        version: "1".to_owned(),
        distributions: distributions.iter().map(|url| (*url).to_owned()).collect(),
        attempt: 3,
        assignment_id: "lease".to_owned(),
    }
}

fn finding(path: &str, line: u64) -> OpenGrepFinding {
    OpenGrepFinding {
        rule_id: "r".to_owned(),
        path: path.to_owned(),
        start_line: line,
        end_line: line,
        message: "m".to_owned(),
        severity: "ERROR".to_owned(),
        evidence: "composition".to_owned(),
        confidence: "high".to_owned(),
        execution_context: "import_time".to_owned(),
        inspector_url: String::new(),
    }
}

fn engine_run(findings: Vec<OpenGrepFinding>, warnings: &[&str], scanned: &[&str]) -> OpenGrepRun {
    let mut scanned_paths = TextSet::new();
    for path in scanned {
        scanned_paths.insert((*path).to_owned());
    }
    OpenGrepRun {
        findings,
        warnings: warnings.iter().map(|text| (*text).to_owned()).collect(),
        scanned_paths,
    }
}

fn outside(causes: Vec<Cause>) -> ScanError {
    ScanError::Outside { text: "failed".to_owned(), causes }
}

const FIRST: &str = "https://files.example/first.whl";
const SECOND: &str = "https://files.example/second.whl";

#[test]
fn distributions_are_limited() {
    assert!(check_distributions(&job(&[FIRST, SECOND]), 2).is_ok());
    let error = check_distributions(&job(&[FIRST, SECOND]), 1).unwrap_err();
    assert_eq!(
        error.message(),
        "package contains 2 distributions, exceeding the 1-distribution limit"
    );
    assert!(DistributionScan::new(&job(&[FIRST]), 0).is_err());
    assert!(BatchedPreparation::new(&job(&[FIRST]), 0, Vec::new()).is_err());
}

#[test]
fn distributions_are_scanned_one_by_one() {
    let mut scan = DistributionScan::new(&job(&[FIRST, SECOND]), 32).ok().unwrap();
    assert_eq!(scan.next().unwrap().unwrap().text, FIRST);
    assert_eq!(scan.downloaded(SCAN_DEADLINE_NS - 7), Some(7));
    scan.scanned(engine_run(vec![finding("a", 1)], &["w"], &[])).unwrap();
    assert_eq!(scan.next().unwrap().unwrap().text, SECOND);
    assert_eq!(scan.downloaded(SCAN_DEADLINE_NS), Some(0));
    scan.scanned(engine_run(vec![finding("b", 2)], &[], &[])).unwrap();
    assert!(scan.next().unwrap().is_none());
    let outcome = scan.finish();
    assert_eq!(outcome.findings.len(), 2);
    assert_eq!(outcome.findings[1].path, "b");
    assert_eq!(outcome.partial_reason.as_deref(), Some("w"));
}

#[test]
fn a_timeout_ends_a_scan_with_a_warning() {
    let start = || DistributionScan::new(&job(&[FIRST, SECOND]), 32).ok().unwrap();
    let timeout = || outside(vec![Cause::Other, Cause::HttpTimeout]);

    let mut scan = start();
    scan.stage_failed(Stage::Download, timeout()).unwrap();
    assert!(scan.next().unwrap().is_none());
    assert_eq!(
        scan.finish().partial_reason.unwrap(),
        format!("Timed out downloading or extracting distribution {FIRST}")
    );

    let mut scan = start();
    assert_eq!(scan.downloaded(SCAN_DEADLINE_NS + 1), None);
    assert!(scan.next().unwrap().is_none());
    assert_eq!(
        scan.finish().partial_reason.unwrap(),
        format!("Timed out preparing distribution {FIRST}")
    );

    let mut scan = start();
    scan.scanned(engine_run(vec![finding("a", 1)], &[], &[])).unwrap();
    scan.stage_failed(Stage::Scan, ScanError::Timeout(Deadline::Scan)).unwrap();
    let outcome = scan.finish();
    assert_eq!(outcome.findings.len(), 1);
    assert_eq!(
        outcome.partial_reason.unwrap(),
        format!("Timed out scanning distribution {SECOND}")
    );

    let mut scan = start();
    let error = scan.stage_failed(Stage::Scan, outside(vec![Cause::Other])).unwrap_err();
    assert_eq!(error.message(), "failed");
    assert!(scan.next().unwrap().is_some());
}

#[test]
fn a_scan_does_not_report_too_many_findings() {
    let mut scan = DistributionScan::new(&job(&[FIRST, SECOND]), 32).ok().unwrap();
    scan.scanned(engine_run(vec![finding("a", 1); MAX_FINDINGS], &[], &[])).unwrap();
    assert!(matches!(
        scan.scanned(engine_run(vec![finding("a", 1)], &[], &[])),
        Err(ScanError::TooManyFindings)
    ));
    assert_eq!(scan.finish().findings.len(), MAX_FINDINGS);
}

#[test]
fn distributions_that_are_no_urls_fail() {
    let scan = DistributionScan::new(&job(&["first.whl"]), 32).ok().unwrap();
    let expected = reqwest::Url::parse("first.whl").unwrap_err().to_string();
    assert_eq!(scan.next().unwrap_err().message(), expected);
    // The normal form of a URL is used.
    let scan = DistributionScan::new(&job(&["HTTPS://Files.example:443/a b"]), 32).ok().unwrap();
    assert_eq!(scan.next().unwrap().unwrap().text, "https://files.example/a%20b");
}

#[test]
fn packages_are_prepared_distribution_by_distribution() {
    let mut preparation =
        BatchedPreparation::new(&job(&[FIRST, SECOND, FIRST]), 32, b"/t".to_vec()).ok().unwrap();
    let file = |path: &str| SourceFile {
        path: path.as_bytes().to_vec(),
        size: 1,
        digest: 1,
        reached: 0,
    };
    assert_eq!(preparation.next().unwrap().unwrap().text, FIRST);
    let plan = preparation
        .package()
        .plan_distribution(b"/d", vec![file("/d/a")], 10, 1)
        .unwrap();
    let commit = preparation.planned(plan, "https://i/1/".to_owned()).unwrap();
    assert_eq!(commit.links.len(), 1);
    assert_eq!(preparation.next().unwrap().unwrap().text, SECOND);
    let plan = preparation
        .package()
        .plan_distribution(b"/d", vec![file("/d/b")], 10, 1)
        .unwrap();
    let commit = preparation.planned(plan, "https://i/2/".to_owned()).unwrap();
    assert_eq!(commit.links.len(), 0);
    assert_eq!(commit.aliases[0].distribution_index, 1);
    let timeout = ScanError::Timeout(Deadline::Preparation);
    preparation.stage_failed(Stage::Preparation, timeout).unwrap();
    assert!(preparation.next().unwrap().is_none());
    let (package, prepared, warnings) = preparation.finish();
    assert_eq!(package.target_count(), 1);
    assert_eq!(prepared, 2);
    assert_eq!(warnings, [format!("Timed out preparing distribution {FIRST}")]);
}

#[test]
fn a_package_has_the_time_of_its_distributions() {
    assert_eq!(package_deadline(0), SCAN_DEADLINE_NS);
    assert_eq!(package_deadline(1), SCAN_DEADLINE_NS);
    assert_eq!(package_deadline(3), 180_000_000_000);
    assert_eq!(package_deadline(u32::MAX), 60_000_000_000 * 4_294_967_295);
    assert_eq!(placeholder_inspector(), "https://opengrep-target.invalid/");
}

#[test]
fn package_timeouts_are_retried_in_groups() {
    assert!(matches!(
        run_package_target(Ok(engine_run(Vec::new(), &[], &[]))),
        PackageStep::Done(_)
    ));
    assert!(matches!(
        run_package_target(Err(ScanError::Timeout(Deadline::Scan))),
        PackageStep::RetryInGroups
    ));
    assert!(matches!(
        run_package_target(Err(ScanError::OutputTooLarge)),
        PackageStep::Fail(ScanError::OutputTooLarge)
    ));
}

#[test]
fn groups_are_bounded() {
    assert!(matches!(GroupedScan::new(0), Err(ScanError::EmptyGroup)));
    assert!(GroupedScan::check_entry(true).is_ok());
    assert!(matches!(GroupedScan::check_entry(false), Err(ScanError::NonFileEntry)));
    let mut scan = GroupedScan::new(2).ok().unwrap();
    assert!(!scan.has_rest());
    assert!(!scan.add_entry());
    assert!(scan.has_rest());
    assert!(scan.add_entry());
    let found = engine_run(vec![finding("0", 1)], &["w"], &["0"]);
    assert!(matches!(scan.group_scanned(Ok(found)), Ok(true)));
    assert!(!scan.has_rest());
    assert!(!scan.add_entry());
    let timeout = Err(ScanError::Timeout(Deadline::Scan));
    assert!(matches!(scan.group_scanned(timeout), Ok(false)));
    let run = scan.finish();
    assert_eq!(run.findings.len(), 1);
    assert_eq!(run.warnings, ["w", "Timed out scanning a fallback package target group"]);
    assert!(!run.scanned_paths.contains("0"));
}

#[test]
fn every_target_is_in_one_group() {
    for limit in 1..5_usize {
        for targets in 0..12_usize {
            let mut scan = GroupedScan::new(limit).ok().unwrap();
            let mut sizes = Vec::new();
            let mut size = 0;
            for target in 0..targets {
                assert_eq!(sizes.len(), target / limit);
                size += 1;
                if scan.add_entry() {
                    assert!(matches!(
                        scan.group_scanned(Ok(engine_run(Vec::new(), &[], &[]))),
                        Ok(true)
                    ));
                    sizes.push(size);
                    size = 0;
                }
            }
            if scan.has_rest() {
                sizes.push(size);
            }
            assert_eq!(sizes.len(), (targets + limit - 1) / limit);
            assert_eq!(sizes.iter().sum::<usize>(), targets);
            for (group, size) in sizes.iter().enumerate() {
                assert_eq!(*size, limit.min(targets - group * limit));
            }
        }
    }
}

#[test]
fn failed_groups_fail_the_scan() {
    let mut findings = vec![finding("a", 1); MAX_FINDINGS];
    let mut warnings = Vec::new();
    let more = Ok(engine_run(vec![finding("b", 1)], &["w"], &[]));
    assert!(matches!(
        run_opengrep_group(more, &mut findings, &mut warnings),
        Err(ScanError::TooManyFindings)
    ));
    let failure = Err(ScanError::OutputTooLarge);
    assert!(matches!(
        run_opengrep_group(failure, &mut findings, &mut warnings),
        Err(ScanError::OutputTooLarge)
    ));
    assert_eq!(findings.len(), MAX_FINDINGS);
    assert!(warnings.is_empty());
}

#[test]
fn warnings_make_a_bounded_reason() {
    assert_eq!(partial_reason(&[]), None);
    let warnings = ["a".to_owned(), "b".to_owned()];
    assert_eq!(partial_reason(&warnings).as_deref(), Some("a; b"));
    let long = ["\u{e9}".repeat(3000)];
    assert_eq!(partial_reason(&long).unwrap(), "\u{e9}".repeat(REASON_CHARS));
}

/// A package with two targets, `0` and `1`, each in one place.
fn package() -> (PackageTarget, Vec<TargetAlias>) {
    let mut package = PackageTarget::new(b"/t".to_vec());
    let file = |path: &str, digest| SourceFile {
        path: path.as_bytes().to_vec(),
        size: 10,
        digest,
        reached: 0,
    };
    let files = vec![file("/d/a", 1), file("/d/b", 2)];
    let plan = package.plan_distribution(b"/d", files, 100, 1).unwrap();
    let commit = package.commit_distribution(plan, "https://i/".to_owned()).unwrap();
    (package, commit.aliases)
}

fn identity(digest: u128) -> FileIdentity {
    FileIdentity { digest, size: 10, extension: None }
}

#[test]
fn kept_results_are_put_into_the_current_package() {
    let (package, aliases) = package();
    let mut stats = CacheStats::new("opengrep", CacheMode::Reuse);
    let mut scan = PreparedScan::new(Vec::new());
    let cached = Some(vec![finding("old/place", 7)]);
    match scan.consider(&package, &identity(1), 0, "None", cached, true).unwrap() {
        Considered::Reuse(target) => {
            assert_eq!(target.path(), b"/t/0000000000000000");
            // Nothing is counted before the file is removed.
            assert_eq!(stats.reused_files, 0);
            target.removed(&mut stats);
        }
        Considered::Scan => panic!("the results are used"),
    }
    let considered = scan.consider(&package, &identity(2), 1, "None", None, true);
    assert!(matches!(considered, Ok(Considered::Scan)));
    assert_eq!(stats.reused_files, 1);
    assert_eq!(stats.reused_bytes, 10);
    let input = scan.finish(&mut stats);
    assert_eq!(stats.engine_files, 1);
    assert_eq!(stats.engine_bytes, 10);
    assert!(input.needs_engine());
    let run = engine_run(
        vec![finding("0000000000000001", 9)],
        &[],
        &["0000000000000001"],
    );
    let mut placed = input.engine_done(run).ok().unwrap();
    assert!(placed.needs_manifest());
    for alias in &aliases {
        placed = placed.add_place(&package, alias).ok().unwrap();
    }
    let mut kept = placed.finish();
    match kept.keep_next(&package, &mut stats).unwrap() {
        KeepStep::Keep { key, path, findings, action } => {
            assert_eq!(key, "00000000000000000000000000000002:10:None");
            assert_eq!(path, b"/t/0000000000000001");
            assert_eq!(findings, [finding("0000000000000001", 9)]);
            assert_eq!(action, CacheAction::Leave);
        }
        _ => panic!("the results are kept"),
    }
    assert!(matches!(kept.keep_next(&package, &mut stats), Ok(KeepStep::Done)));
    assert_eq!(stats.validated_files, 0);
    let outcome = kept.conclude(&stats, false).unwrap();
    let shown: Vec<(&str, u64)> = outcome
        .findings
        .iter()
        .map(|found| (found.path.as_str(), found.start_line))
        .collect();
    assert_eq!(shown, [("a", 7), ("b", 9)]);
    assert_eq!(outcome.findings[0].inspector_url, "https://i/a");
    assert!(outcome.partial_reason.is_none());
}

/// What becomes of fresh results for target `0` of which the cache held one finding.
fn keep(run: OpenGrepRun, stats: &mut CacheStats) -> Result<KeepStep, ScanError> {
    let (package, aliases) = package();
    let mut scan = PreparedScan::new(Vec::new());
    let cached = Some(vec![finding("old", 7)]);
    scan.consider(&package, &identity(1), 0, "None", cached, false).unwrap();
    let mut placed = scan.finish(stats).engine_done(run).ok().unwrap();
    for alias in &aliases {
        placed = placed.add_place(&package, alias).ok().unwrap();
    }
    placed.finish().keep_next(&package, stats)
}

#[test]
fn kept_results_are_validated() {
    let mut stats = CacheStats::new("opengrep", CacheMode::Observe);
    let target = "0000000000000000";
    let same = engine_run(vec![finding(target, 7)], &[], &[target]);
    let step = keep(same, &mut stats).unwrap();
    assert!(matches!(step, KeepStep::Keep { action: CacheAction::Leave, .. }));
    assert_eq!((stats.validated_files, stats.mismatched_files), (1, 0));
    let other = engine_run(vec![finding(target, 8)], &[], &[target]);
    let step = keep(other, &mut stats).unwrap();
    assert!(matches!(step, KeepStep::Keep { action: CacheAction::Disable, .. }));
    assert_eq!((stats.validated_files, stats.mismatched_files), (2, 1));
    // Incomplete runs, and targets that were not scanned, are not kept.
    let partial = engine_run(vec![finding(target, 7)], &["w"], &[target]);
    assert!(matches!(keep(partial, &mut stats), Ok(KeepStep::Skip)));
    let unscanned = engine_run(vec![finding(target, 7)], &[], &[]);
    assert!(matches!(keep(unscanned, &mut stats), Ok(KeepStep::Skip)));
    assert_eq!((stats.validated_files, stats.mismatched_files), (2, 1));
}

#[test]
fn packages_without_fresh_targets_need_no_engine() {
    let (package, aliases) = package();
    let mut stats = CacheStats::new("opengrep", CacheMode::Reuse);
    let mut scan = PreparedScan::new(vec!["w".to_owned()]);
    for (digest, target_id) in [(1, 0), (2, 1)] {
        let cached = Some(vec![finding("old", 7)]);
        let considered =
            scan.consider(&package, &identity(digest), target_id, "None", cached, true);
        match considered.unwrap() {
            Considered::Reuse(target) => target.removed(&mut stats),
            Considered::Scan => panic!("the results are used"),
        }
    }
    let input = scan.finish(&mut stats);
    assert!(!input.needs_engine());
    assert_eq!(stats.engine_files, 0);
    let mut placed = input.without_engine().ok().unwrap();
    for alias in &aliases {
        placed = placed.add_place(&package, alias).ok().unwrap();
    }
    let mut kept = placed.finish();
    assert!(matches!(kept.keep_next(&package, &mut stats), Ok(KeepStep::Done)));
    let outcome = kept.conclude(&stats, false).unwrap();
    assert_eq!(outcome.findings.len(), 2);
    assert_eq!(outcome.partial_reason.as_deref(), Some("w"));
}

#[test]
fn every_target_is_counted_once() {
    let (package, _) = package();
    for reused in 0..4 {
        let mut stats = CacheStats::new("opengrep", CacheMode::Reuse);
        let mut scan = PreparedScan::new(Vec::new());
        for (digest, target_id) in [(1, 0), (2, 1)] {
            // A target that the cache does not hold is scanned, also where it would be reused.
            let cached = if digest & reused != 0 { Some(Vec::new()) } else { None };
            let considered =
                scan.consider(&package, &identity(digest), target_id, "None", cached, true);
            if let Considered::Reuse(target) = considered.unwrap() {
                target.removed(&mut stats);
            }
        }
        let input = scan.finish(&mut stats);
        assert_eq!(stats.reused_files, u64::from(reused.count_ones()));
        assert_eq!(stats.reused_files + stats.engine_files, package.target_count());
        assert_eq!(stats.reused_bytes + stats.engine_bytes, 20);
        assert_eq!(input.needs_engine(), stats.engine_files > 0);
    }
}

#[test]
fn a_disabled_cache_rejects_jobs_that_used_it() {
    let mut stats = CacheStats::new("opengrep", CacheMode::Reuse);
    let conclude = |stats: &CacheStats, disabled| {
        let mut counts = CacheStats::new("opengrep", CacheMode::Reuse);
        let input = PreparedScan::new(Vec::new()).finish(&mut counts);
        let placed = input.without_engine().ok().unwrap();
        placed.finish().conclude(stats, disabled).map(|outcome| outcome.findings.len())
    };
    assert!(matches!(conclude(&stats, true), Ok(0)));
    stats.reused_files = 1;
    assert!(matches!(conclude(&stats, false), Ok(0)));
    let error = conclude(&stats, true).unwrap_err();
    assert_eq!(
        error.message(),
        "Cross-package cache validation failed; reuse disabled and this job's cached results discarded"
    );
}

#[test]
fn a_mismatch_rejects_results_that_were_reused() {
    for reuse in [true, false] {
        let (package, aliases) = package();
        let mut stats = CacheStats::new("opengrep", CacheMode::Reuse);
        let mut scan = PreparedScan::new(Vec::new());
        let cached = || Some(vec![finding("old", 7)]);
        let considered = scan.consider(&package, &identity(1), 0, "None", cached(), reuse).unwrap();
        if let Considered::Reuse(target) = considered {
            target.removed(&mut stats);
        }
        scan.consider(&package, &identity(2), 1, "None", cached(), false).unwrap();
        let target = "0000000000000001";
        let run = engine_run(vec![finding(target, 9)], &[], &[target]);
        let mut placed = scan.finish(&mut stats).engine_done(run).ok().unwrap();
        for alias in &aliases {
            placed = placed.add_place(&package, alias).ok().unwrap();
        }
        let mut kept = placed.finish();
        while !matches!(kept.keep_next(&package, &mut stats), Ok(KeepStep::Done)) {}
        assert_eq!(stats.mismatched_files, 1);
        // The cache itself is not said to be disabled.
        let outcome = kept.conclude(&stats, false);
        assert_eq!(outcome.is_err(), reuse);
    }
}

#[test]
fn too_many_kept_findings_fail() {
    let (package, _) = package();
    let mut stats = CacheStats::new("opengrep", CacheMode::Reuse);
    let mut scan = PreparedScan::new(Vec::new());
    let cached = Some(vec![finding("old", 7); MAX_FINDINGS + 1]);
    assert!(matches!(
        scan.consider(&package, &identity(1), 0, "None", cached, true),
        Err(ScanError::TooManyFindings)
    ));
    assert_eq!(stats.reused_files, 0);
    let input = PreparedScan::new(Vec::new()).finish(&mut stats);
    let run = engine_run(vec![finding("0", 1); MAX_FINDINGS + 1], &[], &[]);
    assert!(matches!(input.engine_done(run), Err(ScanError::TooManyFindings)));
}

fn client() -> OpenGrepClient {
    OpenGrepClient::new(
        "https://dragonfly.vipyrsec.com/",
        "snapshot".to_owned(),
        false,
        CacheMode::Observe,
    )
    .unwrap()
}

#[test]
fn scanned_jobs_are_reported() {
    let client = client();
    let outcome = ScanJobOutcome {
        findings: vec![finding("a", 1)],
        partial_reason: Some("w".to_owned()),
    };
    let mut stats = client.new_stats();
    assert_eq!(stats.scanner, "opengrep");
    assert_eq!(stats.mode, CacheMode::Observe);
    stats.reused_files = 2;
    let report = client.run_job(&job(&[]), Ok(outcome), 123, stats);
    assert_eq!(report.scan_reuse.reused_files, 2);
    match report.result {
        OpenGrepScanResult::Success(success) => {
            assert_eq!(success.name, "test");
            assert_eq!(success.version, "1");
            assert_eq!(success.attempt, 3);
            assert_eq!(success.assignment_id, "lease");
            assert_eq!(success.commit, "snapshot");
            assert_eq!(success.duration_ms, 123);
            assert_eq!(success.findings, [finding("a", 1)]);
            assert_eq!(success.partial_reason.as_deref(), Some("w"));
        }
        OpenGrepScanResult::Error(_) => panic!("the job was scanned"),
    }
}

#[test]
fn failed_jobs_are_reported_with_a_bounded_reason() {
    let client = client();
    let failure = ScanError::Outside { text: "x".repeat(5000), causes: Vec::new() };
    let elapsed = u128::from(u64::MAX) + 1;
    let report = client.run_job(&job(&[]), Err(failure), elapsed, client.new_stats());
    match report.result {
        OpenGrepScanResult::Error(failure) => {
            assert_eq!(failure.name, "test");
            assert_eq!(failure.assignment_id, "lease");
            assert_eq!(failure.attempt, 3);
            assert_eq!(failure.duration_ms, u64::MAX);
            assert_eq!(failure.reason, "x".repeat(2048));
        }
        OpenGrepScanResult::Success(_) => panic!("the job failed"),
    }
}

#[test]
fn reloaded_rules_replace_the_loaded_ones() {
    let mut client = client();
    assert!(matches!(client.scan_job(&job(&[])), Ok(ScanMode::ByDistribution)));
    assert_eq!(client.refresh_rules("snapshot".to_owned(), false), CacheAction::Reset);
    assert_eq!(client.refresh_rules("next".to_owned(), true), CacheAction::Reset);
    assert_eq!(client.rules_hash, "next");
    assert_eq!(client.base_url(), "https://dragonfly.vipyrsec.com");
    assert!(matches!(client.scan_job(&job(&[])), Err(ScanError::RulesMismatch)));
    let current = Job { hash: "next".to_owned(), ..job(&[]) };
    assert!(matches!(client.scan_job(&current), Ok(ScanMode::Batched)));
}

#[test]
fn other_apis_are_refused() {
    let refused = |url: &str| {
        OpenGrepClient::new(url, String::new(), false, CacheMode::Off).unwrap_err()
    };
    assert!(matches!(refused("https://example.com"), ScanError::UnsupportedOrigin));
    assert_eq!(
        refused("https://example.com").message(),
        "OpenGrep worker requires a supported Dragonfly API origin"
    );
    let expected = reqwest::Url::parse("not a url").unwrap_err().to_string();
    assert_eq!(refused("not a url").message(), expected);
    assert!(matches!(validate_api_origin(""), Err(ScanError::InvalidUrl(_))));
}

#[test]
fn the_fence_reads_every_part_of_a_url() {
    let url = || ParsedUrl {
        text: String::new(),
        path: "/".to_owned(),
        query: None,
        fragment: None,
        username: String::new(),
        password: None,
    };
    let origin = "https://dragonfly.vipyrsec.com";
    assert!(check_api_origin(&url(), origin).is_ok());
    assert!(check_api_origin(&url(), "https://dragonfly-staging.vipyrsec.com").is_ok());
    assert!(check_api_origin(&ParsedUrl { path: "///".to_owned(), ..url() }, origin).is_ok());
    assert!(matches!(
        check_api_origin(&url(), "https://dragonfly.vipyrsec.com:444"),
        Err(ScanError::UnsupportedOrigin)
    ));
    let empty = || Some(String::new());
    for refused in [
        ParsedUrl { path: "/a/".to_owned(), ..url() },
        ParsedUrl { query: empty(), ..url() },
        ParsedUrl { fragment: empty(), ..url() },
        ParsedUrl { username: "u".to_owned(), ..url() },
        ParsedUrl { password: empty(), ..url() },
    ] {
        assert!(matches!(check_api_origin(&refused, origin), Err(ScanError::UnsupportedOrigin)));
    }
}

#[test]
fn timeouts_are_found_in_the_chain_of_causes() {
    assert!(is_timeout_error(&ScanError::Timeout(Deadline::RuleInspection)));
    assert!(is_timeout_error(&outside(vec![Cause::Other, Cause::IoTimeout])));
    assert!(is_timeout_error(&outside(vec![Cause::HttpTimeout])));
    assert!(is_timeout_error(&outside(vec![Cause::ScanTimeout, Cause::Other])));
    assert!(!is_timeout_error(&outside(vec![Cause::Other])));
    assert!(!is_timeout_error(&outside(Vec::new())));
    assert!(!is_timeout_error(&ScanError::OutputTooLarge));
}

#[test]
fn failures_have_their_texts() {
    for (error, text) in [
        (ScanError::RulesMismatch, "job rules do not match the loaded rules snapshot"),
        (ScanError::TargetIdOverflow, "OpenGrep target identifier overflowed"),
        (ScanError::UnknownDistribution, "finding references an unknown distribution"),
        (ScanError::TooManyFindings, "OpenGrep produced more than 500 findings"),
        (ScanError::EmptyRules, "OpenGrep rule corpus is empty"),
        (ScanError::NoRules, "OpenGrep rule inspection returned no rules"),
        (ScanError::RulePathNotUtf8, "rule path is not UTF-8"),
        (ScanError::TargetPathNotUtf8, "target path is not UTF-8"),
        (ScanError::EmptyPath, "path must not be empty"),
        (ScanError::UnsafePath, "path must contain only normal relative components"),
        (ScanError::PrefixNotFound, "prefix not found"),
        (ScanError::PathNotUtf8, "finding path is not UTF-8"),
        (ScanError::PathTooLong, "finding path exceeds 1024 characters"),
        (ScanError::MessageTooLong, "finding message exceeds 1024 characters"),
        (ScanError::InspectorUrlTooLong, "finding inspector URL exceeds 2048 characters"),
        (ScanError::OutputTooLarge, "OpenGrep output exceeded 4194304 bytes"),
        (ScanError::EmptyGroup, "OpenGrep fallback group size must be positive"),
        (ScanError::NonFileEntry, "package target contains a non-file entry"),
        (ScanError::Timeout(Deadline::Scan), "OpenGrep exceeded the scan deadline"),
        (
            ScanError::Timeout(Deadline::RuleInspection),
            "OpenGrep rule inspection exceeded its deadline",
        ),
        (
            ScanError::Timeout(Deadline::Preparation),
            "OpenGrep preparation exceeded the distribution deadline",
        ),
    ] {
        assert_eq!(error.message(), text);
    }
    let missing = std::path::Path::new("/a").strip_prefix("/b").unwrap_err();
    assert_eq!(ScanError::PrefixNotFound.message(), missing.to_string());
}
