//! What holds of the worker as a client: the API, the rules, the reports, and the contents of files.

use vstd::prelude::*;
use vstd::utf8::*;

use crate::client::{OpenGrepClient, ScanMode};
use crate::error::ScanError;
use crate::identity::{sha256, xxh3_128, ContentHasher, FileIdentity};
use crate::models::{
    CacheAction, CacheMode, CacheStats, Job, OpenGrepFinding, OpenGrepRulesResponse,
    OpenGrepScanResult, ReportedOpenGrepResult,
};
use crate::origin::{
    check_api_origin, origin_text, url_parts, validate_api_origin, ParsedUrl, UrlParts,
};
use crate::package::{DistributionTargetPlan, PendingTarget, PlannedAlias, TargetAlias};
use crate::paths::extension;
use crate::promises::findings::start_of;
use crate::promises::paths::{leads_down, lemma_leads_down};
use crate::promises::texts::lemma_without_trailing;
use crate::promises::values::{decimal_value, lemma_decimal_value};
use crate::reuse::PendingScan;
use crate::rules::{
    check_inspection_exit, inspection_arguments, materialize_rules, rules_allow_content_reuse,
    RuleFile,
};
use crate::scan::ScanJobOutcome;
use crate::text::{count_matches, normalize_whitespace, truncated, views};

verus! {

/// Whether a URL is no more than an origin of a supported API, and slashes behind it.
pub open spec fn is_api(url: UrlParts, origin: Seq<char>) -> bool {
    &&& origin == "https://dragonfly-staging.vipyrsec.com"@ || origin
        == "https://dragonfly.vipyrsec.com"@
    &&& forall|i: int| 0 <= i < url.path.len() ==> #[trigger] url.path[i] == '/'
    &&& url.query is None
    &&& url.fragment is None
    &&& url.username.len() == 0
    &&& url.password is None
}

proof fn lemma_is_api(url: UrlParts, origin: Seq<char>)
    ensures
        crate::origin::supported_api(url, origin) <==> is_api(url, origin),
{
    lemma_without_trailing(url.path, '/');
    let kept = crate::text::without_trailing(url.path, '/');
    if kept.len() > 0 {
        assert(kept.last() == url.path[kept.len() - 1]);
    }
}

/// The worker talks to two APIs and no other, and to nothing below or beside them.
pub proof fn law_two_apis_are_supported(
    url: &ParsedUrl,
    origin: &str,
    checked: Result<(), ScanError>,
    base_url: &str,
    validated: Result<(), ScanError>,
)
    requires
        call_ensures(check_api_origin, (url, origin), checked),
        call_ensures(validate_api_origin, (base_url,), validated),
    ensures
        checked is Ok <==> is_api(url@, origin@),
        checked matches Err(error) ==> error == ScanError::UnsupportedOrigin,
        match url_parts(base_url@) {
            Err(reason) => validated matches Err(ScanError::InvalidUrl(shown)) && shown@ == reason,
            Ok(parts) => {
                &&& validated is Ok <==> is_api(parts, origin_text(base_url@))
                &&& validated matches Err(error) ==> error == ScanError::UnsupportedOrigin
            },
        },
{
    lemma_is_api(url@, origin@);
    if let Ok(parts) = url_parts(base_url@) {
        lemma_is_api(parts, origin_text(base_url@));
    }
}

/// A worker is made just for a supported API, and keeps its URL without the slashes at the end, its
/// rules and its mode.
pub proof fn law_workers_keep_what_they_are_given(
    base_url: &str,
    rules_hash: String,
    content_reuse_safe: bool,
    cache_mode: CacheMode,
    validated: Result<(), ScanError>,
    result: Result<OpenGrepClient, ScanError>,
    shown: &str,
)
    requires
        call_ensures(validate_api_origin, (base_url,), validated),
        call_ensures(
            OpenGrepClient::new,
            (base_url, rules_hash, content_reuse_safe, cache_mode),
            result,
        ),
        result matches Ok(client) ==> call_ensures(OpenGrepClient::base_url, (&client,), shown),
    ensures
        result is Ok <==> validated is Ok,
        result matches Ok(client) ==> {
            &&& client@.rules_hash == rules_hash@
            &&& client@.content_reuse_safe == content_reuse_safe
            &&& client@.cache_mode == cache_mode
            &&& shown@.is_prefix_of(base_url@)
            &&& shown@.len() == 0 || shown@.last() != '/'
            &&& forall|i: int| shown@.len() <= i < base_url@.len() ==> base_url@[i] == '/'
            &&& shown@ == client@.base_url
        },
        result matches Err(error) ==> (validated matches Err(fault) && match (error, fault) {
            (ScanError::InvalidUrl(left), ScanError::InvalidUrl(right)) => left@ == right@,
            _ => error == fault,
        }),
{
    lemma_without_trailing(base_url@, '/');
}

/// New rules replace the old ones, all that was kept is forgotten, and the worker is otherwise as it
/// was.
pub proof fn law_new_rules_reset_the_cache(
    client: &mut OpenGrepClient,
    rules_hash: String,
    content_reuse_safe: bool,
    action: CacheAction,
)
    requires
        call_ensures(
            OpenGrepClient::refresh_rules,
            (client, rules_hash, content_reuse_safe),
            action,
        ),
    ensures
        action == CacheAction::Reset,
        final(client)@.rules_hash == rules_hash@,
        final(client)@.content_reuse_safe == content_reuse_safe,
        final(client)@.base_url == old(client)@.base_url,
        final(client)@.cache_mode == old(client)@.cache_mode,
{
}

/// A job is scanned just where it was made for the loaded rules: together where findings depend on
/// contents alone, and by distributions otherwise.
pub proof fn law_jobs_need_the_loaded_rules(
    client: &OpenGrepClient,
    job: &Job,
    result: Result<ScanMode, ScanError>,
    stats: CacheStats,
)
    requires
        call_ensures(OpenGrepClient::scan_job, (client, job), result),
        call_ensures(OpenGrepClient::new_stats, (client,), stats),
    ensures
        result is Ok <==> job.hash@ == client@.rules_hash,
        result matches Ok(mode) ==> (mode == ScanMode::Batched <==> client@.content_reuse_safe),
        result matches Err(error) ==> error == ScanError::RulesMismatch,
        stats.scanner@ == "opengrep"@,
        stats.mode == client@.cache_mode,
        stats.reused_files == 0,
        stats.reused_bytes == 0,
        stats.engine_files == 0,
        stats.engine_bytes == 0,
        stats.engine_us == 0,
        stats.inserted_files == 0,
        stats.validated_files == 0,
        stats.mismatched_files == 0,
{
}

/// A report is that of its job: all findings and the reason where it was scanned, and otherwise the
/// start of the failure's text; with the time it took, and with what reuse did.
pub proof fn law_reports_are_those_of_their_job(
    client: &OpenGrepClient,
    job: &Job,
    outcome: Result<ScanJobOutcome, ScanError>,
    elapsed_ms: u128,
    scan_reuse: CacheStats,
    message: String,
    report: ReportedOpenGrepResult,
)
    requires
        call_ensures(
            OpenGrepClient::run_job,
            (client, job, outcome, elapsed_ms, scan_reuse),
            report,
        ),
        outcome matches Err(error) ==> call_ensures(ScanError::message, (&error,), message),
    ensures
        report.scan_reuse == scan_reuse,
        match outcome {
            Ok(outcome) => {
                &&& report.result matches OpenGrepScanResult::Success(success)
                &&& success.name@ == job.name@
                &&& success.version@ == job.version@
                &&& success.attempt == job.attempt
                &&& success.assignment_id@ == job.assignment_id@
                &&& success.commit@ == job.hash@
                &&& success.duration_ms == if elapsed_ms > u64::MAX {
                    u64::MAX as int
                } else {
                    elapsed_ms as int
                }
                &&& success.findings == outcome.findings
                &&& success.partial_reason == outcome.partial_reason
            },
            Err(_) => {
                &&& report.result matches OpenGrepScanResult::Error(failure)
                &&& failure.name@ == job.name@
                &&& failure.version@ == job.version@
                &&& failure.attempt == job.attempt
                &&& failure.assignment_id@ == job.assignment_id@
                &&& failure.duration_ms == if elapsed_ms > u64::MAX {
                    u64::MAX as int
                } else {
                    elapsed_ms as int
                }
                &&& failure.reason@ == start_of(message@, 2048)
            },
        },
{
    if outcome is Err {
        assert(truncated(message@, 2048) =~= start_of(message@, 2048));
    }
}

/// The text of a failure tells its details whole.
pub proof fn law_failures_tell_their_details(error: &ScanError, message: String)
    requires
        call_ensures(ScanError::message, (error,), message),
    ensures
        error matches ScanError::TooManyDistributions { count, limit } ==> exists|
            given: Seq<char>,
            allowed: Seq<char>,
        |
            {
                &&& #[trigger] decimal_value(given) == count
                &&& #[trigger] decimal_value(allowed) == limit
                &&& message@ == "package contains "@ + given + " distributions, exceeding the "@
                    + allowed + "-distribution limit"@
            },
        error matches ScanError::InvalidUrl(reason) ==> message@ == reason@,
        error matches ScanError::OutputNotUtf8(reason) ==> message@ == reason@,
        error matches ScanError::EngineErrors(json) ==> message@
            == "OpenGrep reported scan errors: "@ + json@,
        error matches ScanError::SkippedRules(json) ==> message@ == "OpenGrep skipped rules: "@
            + json@,
        error matches ScanError::EngineExit { status, stderr } ==> message@
            == "OpenGrep exited with "@ + status@ + ": "@ + stderr@,
        error matches ScanError::InspectionExit { status, stderr } ==> message@
            == "OpenGrep rule inspection exited with "@ + status@ + ": "@ + stderr@,
        error matches ScanError::Outside { text, causes } ==> message@ == text@,
{
    if let ScanError::TooManyDistributions { count, limit } = *error {
        lemma_decimal_value(count as nat);
        lemma_decimal_value(limit as nat);
        let given = crate::numbers::decimal(count as nat);
        let allowed = crate::numbers::decimal(limit as nat);
        assert(decimal_value(given) == count);
        assert(decimal_value(allowed) == limit);
    }
}

/// A rule corpus is accepted just where it has a file and the path of each leads down; all of its
/// files are then written, as they are. The failure is that of the first path that does not.
pub proof fn law_rule_files_are_written_whole(
    response: &OpenGrepRulesResponse,
    result: Result<Vec<RuleFile>, ScanError>,
)
    requires
        call_ensures(materialize_rules, (response,), result),
    ensures
        result is Ok <==> response.rules@.len() > 0 && forall|i: int|
            0 <= i < response.rules@.len() ==> leads_down(
                encode_utf8((#[trigger] response.rules@[i]).0@),
            ),
        result matches Ok(files) ==> {
            &&& files@.len() == response.rules@.len()
            &&& forall|i: int|
                0 <= i < files@.len() ==> {
                    &&& (#[trigger] files@[i]).path@ == response.rules@[i].0@
                    &&& files@[i].contents@ == response.rules@[i].1@
                }
        },
        result matches Err(error) ==> if response.rules@.len() == 0 {
            error == ScanError::EmptyRules
        } else {
            exists|i: int|
                {
                    &&& 0 <= i < response.rules@.len()
                    &&& !leads_down(encode_utf8((#[trigger] response.rules@[i]).0@))
                    &&& forall|j: int|
                        0 <= j < i ==> leads_down(encode_utf8((#[trigger] response.rules@[j]).0@))
                    &&& error == (if encode_utf8(response.rules@[i].0@).len() == 0 {
                        ScanError::EmptyPath
                    } else {
                        ScanError::UnsafePath
                    })
                }
        },
{
    let rules = response.rules@;
    assert forall|i: int| 0 <= i < rules.len() implies (leads_down(
        encode_utf8((#[trigger] rules[i]).0@),
    ) <==> crate::paths::plain_relative(encode_utf8(rules[i].0@))) by {
        lemma_leads_down(encode_utf8(rules[i].0@));
    }
    if result is Err && rules.len() > 0 {
        let error = result->Err_0;
        let i = choose|i: int|
            {
                &&& 0 <= i < rules.len()
                &&& crate::rules::safe_corpus(#[trigger] rules.take(i))
                &&& !crate::paths::plain_relative(encode_utf8(rules[i].0@))
                &&& error == (if encode_utf8(rules[i].0@).len() == 0 {
                    ScanError::EmptyPath
                } else {
                    ScanError::UnsafePath
                })
            };
        assert(!leads_down(encode_utf8(rules[i].0@)));
        assert forall|j: int| 0 <= j < i implies leads_down(
            encode_utf8((#[trigger] rules[j]).0@),
        ) by {
            assert(rules.take(i)[j] == rules[j]);
        }
    }
}

/// The rules are inspected by having them printed, and a failure of that is told with its status and
/// the start of what was printed.
pub proof fn law_rules_are_inspected(
    rules_directory: Vec<u8>,
    result: Result<Vec<String>, ScanError>,
    success: bool,
    status: &str,
    stderr: &str,
    checked: Result<(), ScanError>,
)
    requires
        call_ensures(inspection_arguments, (rules_directory,), result),
        call_ensures(check_inspection_exit, (success, status, stderr), checked),
    ensures
        result is Ok <==> valid_utf8(rules_directory@),
        result matches Ok(arguments) ==> {
            &&& arguments@.len() == 3
            &&& arguments@[0]@ == "show"@
            &&& arguments@[1]@ == "dump-config"@
            &&& encode_utf8(arguments@[2]@) == rules_directory@
        },
        result matches Err(error) ==> error == ScanError::RulePathNotUtf8,
        checked is Ok <==> success,
        checked matches Err(error) ==> {
            &&& error matches ScanError::InspectionExit { status: given, stderr: shown }
            &&& given@ == status@
            &&& shown@ == start_of(stderr@, 1024)
        },
{
    if let Ok(arguments) = result {
        decode_utf8_encode_utf8(rules_directory@);
        let all = views(arguments@);
        assert(all.len() == arguments@.len());
        assert(forall|i: int| 0 <= i < 3 ==> (#[trigger] arguments@[i])@ == all[i]);
    }
    assert(truncated(stderr@, 1024) =~= start_of(stderr@, 1024));
}

/// How often some patterns occur in a printed rule corpus.
pub struct Counts {
    pub rules: usize,
    pub paths: usize,
    pub options: usize,
    pub dependencies: usize,
    pub validators: usize,
    pub products: usize,
    pub searches: usize,
    pub taints: usize,
}

/// Whether these are the counts of a printed corpus: that of the rules in the print itself, and the
/// others in its words on one line.
pub open spec fn are_counts(printed: &[char], line: &[char], counts: Counts) -> bool {
    &&& call_ensures(count_matches, (printed, "Rule.id = ("), counts.rules)
    &&& call_ensures(count_matches, (line, "paths = None;"), counts.paths)
    &&& call_ensures(count_matches, (line, "options = None;"), counts.options)
    &&& call_ensures(count_matches, (line, "dependency_formula = None;"), counts.dependencies)
    &&& call_ensures(count_matches, (line, "validators = None;"), counts.validators)
    &&& call_ensures(count_matches, (line, "product = `SAST;"), counts.products)
    &&& call_ensures(count_matches, (line, "mode = `Search"), counts.searches)
    &&& call_ensures(count_matches, (line, "mode = `Taint"), counts.taints)
}

/// Results may be reused just where every rule of a corpus has no path filter, no options, no
/// dependencies and no validators, is for single files, and searches or follows taint: where each of
/// these is said as often as there are rules. A corpus without rules is none.
pub proof fn law_reuse_needs_plain_rules(
    parsed_rules: &str,
    printed: &[char],
    normal: String,
    line: &[char],
    counts: Counts,
    result: Result<bool, ScanError>,
)
    requires
        call_ensures(rules_allow_content_reuse, (parsed_rules,), result),
        call_ensures(normalize_whitespace, (parsed_rules,), normal),
        printed@ == parsed_rules@,
        line@ == normal@,
        are_counts(printed, line, counts),
    ensures
        result is Ok <==> counts.rules > 0,
        result matches Err(error) ==> error == ScanError::NoRules,
        result matches Ok(allowed) ==> (allowed <==> {
            &&& counts.paths == counts.rules
            &&& counts.options == counts.rules
            &&& counts.dependencies == counts.rules
            &&& counts.validators == counts.rules
            &&& counts.products == counts.rules
            &&& counts.searches + counts.taints == counts.rules
        }),
{
}

/// Contents are hashed piece by piece as if they were taken at once, and a file is identified by the
/// digest of all of them, its size and its extension.
pub proof fn law_pieces_are_hashed_together(
    wanted: bool,
    made: ContentHasher,
    hasher: ContentHasher,
    piece: &[u8],
    next: ContentHasher,
    size: u64,
    path: &[u8],
    identity: FileIdentity,
    found: Option<Vec<u8>>,
    digest: Option<Vec<u8>>,
)
    requires
        call_ensures(ContentHasher::new, (wanted,), made),
        call_ensures(ContentHasher::update, (hasher, piece), next),
        call_ensures(ContentHasher::identify, (&hasher, size, path), identity),
        call_ensures(extension, (path,), found),
        call_ensures(ContentHasher::sha256, (hasher,), digest),
    ensures
        made@.len() == 0,
        made.wants_sha256() == wanted,
        next@ == hasher@ + piece@,
        next.wants_sha256() == hasher.wants_sha256(),
        identity.digest == xxh3_128(hasher@),
        identity.size == size,
        match (identity.extension, found) {
            (Some(left), Some(right)) => left@ == right@,
            (None, None) => true,
            _ => false,
        },
        digest is Some <==> hasher.wants_sha256() && hasher@.len() <= 0x1fff_ffff_ffff_ffff,
        digest matches Some(bytes) ==> bytes@ == sha256(hasher@) && bytes@.len() == 32,
{
    assert(identity@.extension == crate::identity::optional_bytes(identity.extension));
}

/// Statistics start at nothing, for a scanner and a mode.
pub proof fn law_statistics_start_at_nothing(scanner: &str, mode: CacheMode, stats: CacheStats)
    requires
        call_ensures(CacheStats::new, (scanner, mode), stats),
    ensures
        stats.scanner@ == scanner@,
        stats.mode == mode,
        stats.reused_files == 0,
        stats.reused_bytes == 0,
        stats.engine_files == 0,
        stats.engine_bytes == 0,
        stats.engine_us == 0,
        stats.inserted_files == 0,
        stats.validated_files == 0,
        stats.mismatched_files == 0,
{
}

/// The parts of a plan, a place, a pending target and a URL are seen with all that they have.
pub proof fn law_parts_are_seen_whole(
    place: TargetAlias,
    planned: PlannedAlias,
    added: PendingTarget,
    plan: DistributionTargetPlan,
    pending: PendingScan,
    identity: FileIdentity,
    url: ParsedUrl,
)
    ensures
        place@.target_id == place.target_id,
        place@.distribution_index == place.distribution_index,
        place@.path == place.path@,
        planned@.0 == planned.target,
        planned@.1 == planned.path@,
        added@.0 == added.identity@,
        added@.1 == added.source@,
        plan@.aliases == views(plan.aliases@),
        plan@.pending == views(plan.pending@),
        pending@.key == pending.key@,
        pending@.path == pending.path@,
        pending@.size == pending.size,
        match pending.previous {
            Some(findings) => pending@.previous == Some(views(findings@)),
            None => pending@.previous is None,
        },
        identity@.digest == identity.digest,
        identity@.size == identity.size,
        match identity.extension {
            Some(bytes) => identity@.extension == Some(bytes@),
            None => identity@.extension is None,
        },
        url@.text == url.text@,
        url@.path == url.path@,
        url@.username == url.username@,
        match url.query {
            Some(text) => url@.query == Some(text@),
            None => url@.query is None,
        },
        match url.fragment {
            Some(text) => url@.fragment == Some(text@),
            None => url@.fragment is None,
        },
        match url.password {
            Some(text) => url@.password == Some(text@),
            None => url@.password is None,
        },
{
}

/// A finding is seen with all that it has, and a copy of it has the same.
pub proof fn law_findings_are_seen_whole(finding: OpenGrepFinding, copy: OpenGrepFinding)
    requires
        call_ensures(OpenGrepFinding::clone, (&finding,), copy),
    ensures
        finding@.rule_id == finding.rule_id@,
        finding@.path == finding.path@,
        finding@.start_line == finding.start_line,
        finding@.end_line == finding.end_line,
        finding@.message == finding.message@,
        finding@.severity == finding.severity@,
        finding@.evidence == finding.evidence@,
        finding@.confidence == finding.confidence@,
        finding@.execution_context == finding.execution_context@,
        finding@.inspector_url == finding.inspector_url@,
        copy == finding,
{
}

} // verus!
