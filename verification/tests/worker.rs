//! The worker from end to end, with the outside world played by plain values.

use dragonfly_opengrep::client::{OpenGrepClient, ScanMode};
use dragonfly_opengrep::engine::{
    run_from_document, wait_for_child, ChildStep, OpenGrepDocument, OpenGrepRun, ReportedError,
    ScannedPaths,
};
use dragonfly_opengrep::error::{is_timeout_error, Deadline, ScanError, MAX_FINDINGS};
use dragonfly_opengrep::findings::{
    append_findings, FindingExtra, FindingMetadata, Position, RawFinding,
};
use dragonfly_opengrep::identity::{ContentHasher, FileIdentity};
use dragonfly_opengrep::json::Json;
use dragonfly_opengrep::models::{
    CacheAction, CacheMode, CacheStats, Job, OpenGrepFinding, OpenGrepRulesResponse,
};
use dragonfly_opengrep::origin::validate_api_origin;
use dragonfly_opengrep::package::{PackageTarget, SourceFile, TargetAlias};
use dragonfly_opengrep::paths::safe_relative_path;
use dragonfly_opengrep::reuse::{Considered, KeepStep, PreparedScan};
use dragonfly_opengrep::rules::{materialize_rules, rules_allow_content_reuse, RuleFile};
use dragonfly_opengrep::scan::ScanJobOutcome;

const DEADLINE: u128 = 60_000_000_000;
const MAX_SCAN_SIZE: u64 = 16_777_216;

fn digest(contents: &[u8]) -> u128 {
    let size = contents.len() as u64;
    ContentHasher::new(false).update(contents).identify(size, b"").digest
}

fn source_file(path: &str, contents: &str) -> SourceFile {
    SourceFile {
        path: path.as_bytes().to_vec(),
        size: contents.len() as u64,
        digest: digest(contents.as_bytes()),
        reached: 0,
    }
}

/// Adds a distribution whose files are given in order; the places and the links are returned.
fn add_distribution(
    package: &mut PackageTarget,
    directory: &str,
    files: Vec<SourceFile>,
    inspector: &str,
) -> (Vec<TargetAlias>, usize) {
    let plan = package
        .plan_distribution(directory.as_bytes(), files, MAX_SCAN_SIZE, DEADLINE)
        .unwrap();
    let commit = package.commit_distribution(plan, inspector.to_owned()).unwrap();
    (commit.aliases, commit.links.len())
}

fn raw_finding(path: &str) -> RawFinding {
    RawFinding {
        check_id: "python-test-exec".to_owned(),
        path: path.as_bytes().to_vec(),
        start: Position { line: 1 },
        end: Position { line: 1 },
        extra: FindingExtra {
            message: "Dynamic execution.".to_owned(),
            severity: "ERROR".to_owned(),
            metadata: FindingMetadata {
                evidence: "composition".to_owned(),
                confidence: "high".to_owned(),
                execution_context: "import_time".to_owned(),
            },
        },
    }
}

fn document(
    results: Vec<RawFinding>,
    errors: Vec<ReportedError>,
    scanned: Vec<&str>,
) -> OpenGrepDocument {
    OpenGrepDocument {
        paths: ScannedPaths {
            scanned: scanned.iter().map(|path| path.as_bytes().to_vec()).collect(),
        },
        results,
        errors,
        skipped_rules: Vec::new(),
    }
}

fn text(value: &str) -> Json {
    Json::Text(value.to_owned())
}

fn object(members: Vec<(&str, Json)>) -> Json {
    Json::Object(
        members
            .into_iter()
            .map(|(key, value)| (key.to_owned(), value))
            .collect(),
    )
}

/// A cache of results by key.
struct Cache {
    entries: Vec<(String, Vec<OpenGrepFinding>)>,
    mode: CacheMode,
    hits: u32,
    disabled: bool,
}

impl Cache {
    fn new(mode: CacheMode) -> Self {
        Cache { entries: Vec::new(), mode, hits: 0, disabled: false }
    }

    fn lookup(&self, key: &str) -> Option<Vec<OpenGrepFinding>> {
        if self.disabled {
            return None;
        }
        let found = self.entries.iter().find(|entry| entry.0 == key);
        found.map(|entry| entry.1.clone())
    }

    /// Every hundredth hit is scanned again.
    fn should_reuse(&mut self) -> bool {
        if self.mode != CacheMode::Reuse {
            return false;
        }
        self.hits += 1;
        self.hits % 100 != 0
    }

    fn insert(&mut self, key: String, findings: Vec<OpenGrepFinding>, stats: &mut CacheStats) {
        if self.disabled || self.lookup(&key).is_some() {
            return;
        }
        self.entries.push((key, findings));
        stats.inserted_files += 1;
    }
}

fn printed(identity: &FileIdentity) -> String {
    match &identity.extension {
        Some(bytes) => format!("Some({:?})", String::from_utf8(bytes.clone()).unwrap()),
        None => "None".to_owned(),
    }
}

/// Scans a prepared package with an engine that finds `exec` in Python files and scans no others.
fn scan_prepared(
    package: &PackageTarget,
    aliases: &[TargetAlias],
    contents: &[(u128, &str)],
    warnings: Vec<String>,
    cache: &mut Cache,
    stats: &mut CacheStats,
) -> Result<ScanJobOutcome, ScanError> {
    let mut scan = PreparedScan::new(warnings);
    let mut left: Vec<(String, String)> = Vec::new();
    for (identity, target_id) in package.identities() {
        let extension = printed(identity);
        let cached = cache.lookup(&identity.cache_key(&extension));
        let reuse = cached.is_some() && cache.should_reuse();
        match scan.consider(package, identity, *target_id, &extension, cached, reuse)? {
            Considered::Reuse(target) => target.removed(stats),
            Considered::Scan => {
                let path = package.target_path(*target_id, identity.extension.as_deref());
                let found = contents.iter().find(|entry| entry.0 == identity.digest);
                left.push((String::from_utf8(path).unwrap(), found.unwrap().1.to_owned()));
            }
        }
    }
    let input = scan.finish(stats);
    let mut placed = if input.needs_engine() {
        let python: Vec<&(String, String)> =
            left.iter().filter(|file| file.0.ends_with(".py")).collect();
        let results = python
            .iter()
            .filter(|file| file.1.contains("exec("))
            .map(|file| raw_finding(&file.0))
            .collect();
        let scanned = python.iter().map(|file| file.0.as_str()).collect();
        let run = run_from_document(
            document(results, Vec::new(), scanned),
            package.path(),
            "https://opengrep-target.invalid/",
        )?;
        input.engine_done(run)?
    } else {
        input.without_engine()?
    };
    if placed.needs_manifest() {
        for alias in aliases {
            placed = placed.add_place(package, alias)?;
        }
    }
    let mut kept = placed.finish();
    loop {
        match kept.keep_next(package, stats)? {
            KeepStep::Done => break,
            KeepStep::Skip => {}
            KeepStep::Keep { key, findings, action, .. } => {
                if action == CacheAction::Disable {
                    cache.disabled = true;
                }
                cache.insert(key, findings, stats);
            }
        }
    }
    kept.conclude(stats, cache.disabled)
}

#[test]
fn sampled_mismatch_rejects_previously_selected_cache_hits() {
    for mode in [CacheMode::Observe, CacheMode::Reuse] {
        let mut cache = Cache::new(mode);
        let one = "exec('one')\n";
        let two = "exec('two')\n";
        let contents = [(digest(one.as_bytes()), one), (digest(two.as_bytes()), two)];
        let mut package = PackageTarget::new(b"/targets".to_vec());
        let files = vec![source_file("/source/one.py", one), source_file("/source/two.py", two)];
        let (aliases, _) =
            add_distribution(&mut package, "/source", files, "https://inspector.example/");
        let mut stats = CacheStats::new("opengrep", mode);
        for (identity, _) in package.identities() {
            let key = identity.cache_key(&printed(identity));
            cache.insert(key, Vec::new(), &mut stats);
        }
        if mode == CacheMode::Reuse {
            for _ in 0..98 {
                assert!(cache.should_reuse());
            }
        }
        let outcome =
            scan_prepared(&package, &aliases, &contents, Vec::new(), &mut cache, &mut stats);
        if mode == CacheMode::Reuse {
            assert!(outcome.is_err());
            assert_eq!(stats.reused_files, 1);
            assert_eq!(stats.mismatched_files, 1);
        } else {
            assert_eq!(outcome.unwrap().findings.len(), 2);
            assert_eq!(stats.reused_files, 0);
            assert_eq!(stats.mismatched_files, 2);
        }
        assert!(cache.disabled);
    }
}

#[test]
fn installed_opengrep_reuses_across_packages_and_rewrites_locations() {
    for mode in [CacheMode::Observe, CacheMode::Reuse] {
        let mut cache = Cache::new(mode);
        for version in 1..=2 {
            let danger = "exec('print(1)')\n";
            let clean = "print(1)\n";
            // A target without a supported language must not become a cached clean result.
            let ignored = "text\n";
            let contents = [
                (digest(danger.as_bytes()), danger),
                (digest(clean.as_bytes()), clean),
                (digest(ignored.as_bytes()), ignored),
            ];
            let mut package = PackageTarget::new(b"/targets".to_vec());
            let files = vec![
                source_file("/source/clean.py", clean),
                source_file("/source/danger.py", danger),
                source_file("/source/ignored.unknown", ignored),
            ];
            let inspector = format!("https://inspector.example/v{version}/");
            let (aliases, _) = add_distribution(&mut package, "/source", files, &inspector);
            let mut stats = CacheStats::new("test", mode);
            let outcome =
                scan_prepared(&package, &aliases, &contents, Vec::new(), &mut cache, &mut stats)
                    .unwrap();
            assert!(outcome.partial_reason.is_none());
            assert_eq!(outcome.findings.len(), 1);
            assert_eq!(outcome.findings[0].path, "danger.py");
            assert!(outcome.findings[0].inspector_url.contains(&format!("/v{version}/")));
            assert_eq!(stats.inserted_files, if version == 1 { 2 } else { 0 });
            assert_eq!(
                stats.reused_files,
                if version == 2 && mode == CacheMode::Reuse { 2 } else { 0 }
            );
            assert_eq!(
                stats.validated_files,
                if version == 2 && mode == CacheMode::Observe { 2 } else { 0 }
            );
            assert_eq!(stats.mismatched_files, 0);
        }
    }
}

#[test]
fn installed_opengrep_does_not_cache_partial_package_results() {
    let mut cache = Cache::new(CacheMode::Reuse);
    let clean = "print(1)\n";
    let contents = [(digest(clean.as_bytes()), clean)];
    let mut package = PackageTarget::new(b"/targets".to_vec());
    let files = vec![source_file("/source/clean.py", clean)];
    let (aliases, _) =
        add_distribution(&mut package, "/source", files, "https://inspector.example/");
    let mut stats = CacheStats::new("test", CacheMode::Reuse);
    let outcome = scan_prepared(
        &package,
        &aliases,
        &contents,
        vec!["incomplete download".into()],
        &mut cache,
        &mut stats,
    )
    .unwrap();
    assert!(outcome.partial_reason.is_some());
    assert_eq!(stats.inserted_files, 0);
    assert_eq!(outcome.partial_reason.as_deref(), Some("incomplete download"));
}

#[test]
fn shadow_origin_is_restricted_to_supported_apis() {
    validate_api_origin("https://dragonfly-staging.vipyrsec.com").unwrap();
    validate_api_origin("https://dragonfly-staging.vipyrsec.com/").unwrap();

    validate_api_origin("https://dragonfly.vipyrsec.com").unwrap();
    validate_api_origin("https://dragonfly.vipyrsec.com/").unwrap();

    for rejected in [
        "https://dragonfly.vipyrsec.com.evil.example",
        "https://user@dragonfly.vipyrsec.com",
        "https://dragonfly.vipyrsec.com:444",
        "https://dragonfly.vipyrsec.com/#fragment",
        "http://dragonfly-staging.vipyrsec.com",
        "https://dragonfly-staging.vipyrsec.com/other",
        "https://dragonfly-staging.vipyrsec.com?redirect=production",
    ] {
        assert!(validate_api_origin(rejected).is_err());
    }
}

#[test]
fn rule_paths_cannot_escape_the_temporary_directory() {
    for rejected in ["", "/absolute.yml", "../outside.yml", "python/../outside.yml"] {
        assert!(safe_relative_path(rejected).is_err());
    }
    assert_eq!(safe_relative_path("python/payload.yml").unwrap(), "python/payload.yml");
}

#[test]
fn rules_are_materialized_with_their_relative_paths() {
    let response = OpenGrepRulesResponse {
        hash: "commit".to_owned(),
        rules: vec![("python/payload.yml".to_owned(), "rules: []".to_owned())],
    };

    let files = materialize_rules(&response).unwrap();

    assert_eq!(
        files,
        vec![RuleFile {
            path: "python/payload.yml".to_owned(),
            contents: "rules: []".to_owned(),
        }]
    );
}

/// A corpus with one rule, as the engine prints it.
fn printed_rule(paths: &str, options: &str) -> String {
    format!(
        "{{ Rule.id = (\"rule\", 1);\n  paths =\n    {paths}; options = {options};\n  \
         dependency_formula = None; validators = None;\n product =   `SAST;\n  \
         mode = `Search (exec) }}\n"
    )
}

#[test]
fn installed_opengrep_structurally_detects_path_scoped_rules() {
    assert!(rules_allow_content_reuse(&printed_rule("None", "None")).unwrap());
    assert!(!rules_allow_content_reuse(&printed_rule("Some { include }", "None")).unwrap());
    assert!(!rules_allow_content_reuse(&printed_rule("None", "Some { interfile }")).unwrap());
}

#[test]
fn installed_opengrep_matches_the_expected_json_contract() {
    let report = document(
        vec![raw_finding("/target/sample.py")],
        Vec::new(),
        vec!["/target/sample.py"],
    );
    let run = run_from_document(
        report,
        b"/target",
        "https://inspector.example/packages/sample/",
    )
    .ok()
    .unwrap();

    assert_eq!(run.findings.len(), 1);
    assert_eq!(run.findings[0].rule_id, "python-test-exec");
    assert_eq!(run.findings[0].path, "sample.py");
    assert_eq!(run.findings[0].execution_context, "import_time");
    assert!(run.warnings.is_empty());
    assert_eq!(
        run.findings[0].inspector_url,
        "https://inspector.example/packages/sample/sample.py"
    );
    assert!(run.scanned_paths.contains("sample.py"));
}

fn run_with_error(error: Json) -> OpenGrepRun {
    run_from_document(
        document(
            vec![raw_finding("sample.py")],
            vec![ReportedError { value: error, text: String::new() }],
            Vec::new(),
        ),
        b"/target",
        "https://inspector.example/packages/sample/",
    )
    .ok()
    .unwrap()
}

#[test]
fn partial_parse_warnings_preserve_valid_findings() {
    let run = run_with_error(object(vec![
        ("code", Json::Other),
        ("level", text("warn")),
        ("message", text("Syntax error")),
        ("path", text("other.py")),
        ("type", Json::Array(vec![text("PartialParsing"), Json::Array(Vec::new())])),
    ]));

    assert_eq!(run.findings.len(), 1);
    assert_eq!(run.findings[0].rule_id, "python-test-exec");
    assert_eq!(run.warnings.len(), 1);
    assert_eq!(run.warnings[0], "OpenGrep partially parsed other.py");
}

#[test]
fn rule_timeouts_preserve_valid_findings() {
    let run = run_with_error(object(vec![
        ("code", Json::Other),
        ("level", text("warn")),
        ("message", text("Rule timed out")),
        ("type", text("Timeout")),
    ]));

    assert_eq!(run.findings.len(), 1);
    assert_eq!(run.warnings.len(), 1);
    assert_eq!(run.warnings[0], "OpenGrep rule timed out");
}

#[test]
fn package_target_deduplicates_and_maps_distribution_aliases() {
    let same = "print('same')\n";
    let mut package_target = PackageTarget::new(b"/targets".to_vec());
    let (mut aliases, first_links) = add_distribution(
        &mut package_target,
        "/first",
        vec![
            source_file("/first/nested/duplicate.py", same),
            source_file("/first/first.py", same),
            source_file("/first/different.txt", same),
        ],
        "https://inspector.example/first/",
    );
    let (more, second_links) = add_distribution(
        &mut package_target,
        "/second",
        vec![source_file("/second/other.py", same), source_file("/second/other.js", same)],
        "https://inspector.example/second/",
    );
    aliases.extend(more);

    assert_eq!(package_target.target_count(), 3);
    assert_eq!(package_target.deduplicated_files(), 2);
    assert_eq!(first_links + second_links, 3);

    let canonical_finding = OpenGrepFinding {
        rule_id: "python-test-exec".to_owned(),
        path: "0000000000000001.py".to_owned(),
        start_line: 1,
        end_line: 1,
        message: "Dynamic execution.".to_owned(),
        severity: "ERROR".to_owned(),
        evidence: "composition".to_owned(),
        confidence: "high".to_owned(),
        execution_context: "import_time".to_owned(),
        inspector_url: "https://opengrep-target.invalid/0000000000000001.py".to_owned(),
    };
    let expanded = package_target
        .expand_findings(vec![canonical_finding], &aliases)
        .unwrap();
    assert_eq!(expanded.len(), 3);
    assert!(expanded.iter().any(|finding| {
        finding.path == "nested/duplicate.py"
            && finding.inspector_url == "https://inspector.example/first/nested/duplicate.py"
    }));
    assert!(expanded.iter().any(|finding| {
        finding.path == "first.py"
            && finding.inspector_url == "https://inspector.example/first/first.py"
    }));
    assert!(expanded.iter().any(|finding| {
        finding.path == "other.py"
            && finding.inspector_url == "https://inspector.example/second/other.py"
    }));

    let mut bounded = vec![expanded[0].clone(); MAX_FINDINGS];
    assert!(append_findings(&mut bounded, expanded).is_err());
    assert_eq!(bounded.len(), MAX_FINDINGS);
}

#[test]
fn prepared_package_uses_one_opengrep_invocation() {
    let same = "exec('same')\n";
    let mut package_target = PackageTarget::new(b"/targets".to_vec());
    let mut aliases = Vec::new();
    for (directory, file, inspector) in [
        ("/first", "/first/first.py", "https://inspector.example/first/"),
        ("/second", "/second/second.py", "https://inspector.example/second/"),
    ] {
        let files = vec![source_file(file, same)];
        let (more, _) = add_distribution(&mut package_target, directory, files, inspector);
        aliases.extend(more);
    }

    let path = package_target.target_path(0, Some(b"py"));
    assert_eq!(path, b"/targets/0000000000000000.py");
    let run = run_from_document(
        document(vec![raw_finding("0000000000000000.py")], Vec::new(), Vec::new()),
        package_target.path(),
        "https://opengrep-target.invalid/",
    )
    .ok()
    .unwrap();
    let expanded = package_target.expand_findings(run.findings, &aliases).unwrap();

    assert_eq!(package_target.target_count(), 1);
    assert_eq!(expanded.len(), 2);
    assert!(expanded.iter().any(|finding| finding.path == "first.py"));
    assert!(expanded.iter().any(|finding| finding.path == "second.py"));
}

#[test]
fn file_identity_uses_xxh3_128_and_size() {
    let contents = b"print('sample')\n";

    let size = u64::try_from(contents.len()).unwrap();
    let identity = ContentHasher::new(false).update(contents).identify(size, b"/target/sample.py");

    assert_eq!(identity.digest, xxhash_rust::xxh3::xxh3_128(contents));
    assert_eq!(identity.size, size);
    assert_eq!(identity.extension.as_deref(), Some(&b"py"[..]));
}

#[test]
fn package_target_preparation_is_transactional_on_timeout() {
    let package_target = PackageTarget::new(b"/targets".to_vec());

    let files = vec![source_file("/target/first.py", "print('same')\n")];
    let error = package_target
        .plan_distribution(b"/target", files, MAX_SCAN_SIZE, 0)
        .unwrap_err();

    assert!(is_timeout_error(&error));
    assert!(package_target.is_empty());
    assert_eq!(package_target.identities().len(), 0);
}

#[test]
fn opengrep_is_killed_while_its_output_exceeds_the_limit() {
    let step = wait_for_child(false, 5 * 1_048_576, 0, 0, 2_000_000_000, Deadline::Scan);
    let error = match step {
        ChildStep::Kill(error) => error,
        _ => panic!("the program goes on"),
    };

    assert!(error.message().contains("output exceeded"));
}

#[test]
fn a_job_for_other_rules_is_refused() {
    let client = OpenGrepClient::new(
        "https://dragonfly-staging.vipyrsec.com//",
        "snapshot".to_owned(),
        true,
        CacheMode::Off,
    )
    .unwrap();
    let job = Job {
        hash: "snapshot".into(),
        name: "test".into(),
        version: "1".into(),
        distributions: Vec::new(),
        attempt: 1,
        assignment_id: "lease".into(),
    };
    assert_eq!(client.base_url(), "https://dragonfly-staging.vipyrsec.com");
    assert!(matches!(client.scan_job(&job), Ok(ScanMode::Batched)));
    let other = Job { hash: "other".into(), ..job };
    assert!(matches!(client.scan_job(&other), Err(ScanError::RulesMismatch)));
}
