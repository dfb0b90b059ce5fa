//! Reuse of results across packages: which targets of a prepared package are scanned, which of the
//! results are kept, and when a job that used kept results is rejected.

use vstd::hash_map::StringHashMap;
use vstd::prelude::*;

use crate::content::same_content;
use crate::engine::OpenGrepRun;
use crate::error::{ScanError, MAX_FINDINGS};
use crate::expansion::{targets_of, with_alias, FindingExpansion};
use crate::findings::{append_findings, contents_of};
use crate::identity::{FileIdentity, IdentityView};
use crate::index::TextSet;
use crate::models::{CacheAction, CacheStats, FindingView, OpenGrepFinding};
use crate::package::{PackageTarget, TargetAlias};
use crate::paths::{copy_bytes, relative_target_path, reported_path, target_path_in};
use crate::scan::{partial_reason, reason_for, ScanJobOutcome};
use crate::text::{lemma_views_add, views};

verus! {

/// A target that the engine is to scan.
#[derive(Debug)]
pub struct PendingScan {
    /// The key of its contents in the cache.
    pub key: String,
    /// Where it is.
    pub path: Vec<u8>,
    pub size: u64,
    /// What the cache holds for its contents.
    pub previous: Option<Vec<OpenGrepFinding>>,
}

/// A target to be scanned, as a mathematical value.
pub struct PendingView {
    pub key: Seq<char>,
    pub path: Seq<u8>,
    pub size: u64,
    pub previous: Option<Seq<FindingView>>,
}

/// The view of findings that may be missing.
pub open spec fn optional_findings(findings: Option<Vec<OpenGrepFinding>>) -> Option<
    Seq<FindingView>,
> {
    match findings {
        Some(findings) => Some(views(findings@)),
        None => None,
    }
}

impl View for PendingScan {
    type V = PendingView;

    open spec fn view(&self) -> PendingView {
        PendingView {
            key: self.key@,
            path: self.path@,
            size: self.size,
            previous: optional_findings(self.previous),
        }
    }
}

/// Findings at another path.
pub open spec fn at_path(findings: Seq<FindingView>, path: Seq<char>) -> Seq<FindingView> {
    Seq::new(findings.len(), |i: int| FindingView { path, ..findings[i] })
}

/// Puts findings at another path.
fn put_at_path(findings: Vec<OpenGrepFinding>, path: &str) -> (moved: Vec<OpenGrepFinding>)
    ensures
        views(moved@) == at_path(views(findings@), path@),
{
    let ghost all = views(findings@);
    let mut moved: Vec<OpenGrepFinding> = Vec::new();
    assert(views(moved@) =~= at_path(all, path@).take(0));
    for finding in it: findings
        invariant
            it.seq() == findings@,
            all == views(findings@),
            views(moved@) == at_path(all, path@).take(it.index() as int),
    {
        let ghost i = it.index() as int;
        let ghost before = views(moved@);
        let mut finding = finding;
        finding.path = path.to_owned();
        moved.push(finding);
        assert(views(moved@) =~= before.push(finding@));
        assert(at_path(all, path@)[i] == finding@);
        assert(at_path(all, path@).take(i + 1) =~= before.push(finding@));
    }
    assert(at_path(all, path@).take(all.len() as int) =~= at_path(all, path@));
    moved
}

/// A prepared package that is being scanned.
pub struct PreparedScan {
    warnings: Vec<String>,
    reused: Vec<OpenGrepFinding>,
    pending: Vec<PendingScan>,
}

/// A scan of a prepared package as a mathematical value.
pub struct PreparedView {
    /// Why the findings may be incomplete.
    pub warnings: Seq<Seq<char>>,
    /// The findings so far, in canonical targets.
    pub reused: Seq<FindingView>,
    /// The targets that the engine is to scan.
    pub pending: Seq<PendingView>,
}

impl View for PreparedScan {
    type V = PreparedView;

    closed spec fn view(&self) -> PreparedView {
        PreparedView {
            warnings: views(self.warnings@),
            reused: views(self.reused@),
            pending: views(self.pending@),
        }
    }
}

/// The bytes of all targets that the engine is to scan.
pub open spec fn pending_bytes(pending: Seq<PendingView>) -> nat
    decreases pending.len(),
{
    if pending.len() == 0 {
        0
    } else {
        pending_bytes(pending.drop_last()) + pending.last().size as nat
    }
}

proof fn lemma_pending_bytes_grow(pending: Seq<PendingView>, end: int)
    requires
        0 <= end <= pending.len(),
    ensures
        pending_bytes(pending.take(end)) <= pending_bytes(pending),
    decreases pending.len() - end,
{
    if end == pending.len() {
        assert(pending.take(end) =~= pending);
    } else {
        assert(pending.take(end + 1).drop_last() =~= pending.take(end));
        lemma_pending_bytes_grow(pending, end + 1);
    }
}

/// Statistics once the results of a file have been taken from the cache.
pub open spec fn with_reuse(stats: CacheStats, size: u64) -> CacheStats {
    CacheStats {
        reused_files: (stats.reused_files + 1) as u64,
        reused_bytes: (stats.reused_bytes + size) as u64,
        ..stats
    }
}

/// A target that need not be scanned, and whose file is to be removed.
#[derive(Debug)]
pub struct ReusedTarget {
    path: Vec<u8>,
    size: u64,
}

/// A target that need not be scanned, as a mathematical value.
pub struct ReusedView {
    pub path: Seq<u8>,
    pub size: u64,
}

impl View for ReusedTarget {
    type V = ReusedView;

    closed spec fn view(&self) -> ReusedView {
        ReusedView { path: self.path@, size: self.size }
    }
}

impl ReusedTarget {
    /// Where the file is.
    pub fn path(&self) -> (path: &[u8])
        ensures
            path@ == self@.path,
    {
        self.path.as_slice()
    }

    /// Counts the target, once its file has been removed.
    pub fn removed(self, stats: &mut CacheStats)
        requires
            old(stats).reused_files < u64::MAX,
            old(stats).reused_bytes + self@.size <= u64::MAX,
        ensures
            *final(stats) == counted(*old(stats), ConsideredView::Reuse(self@)),
    {
        stats.reused_files = stats.reused_files + 1;
        stats.reused_bytes = stats.reused_bytes + self.size;
    }
}

/// What becomes of a target that has been looked up.
#[derive(Debug)]
pub enum Considered {
    /// The engine is to scan it.
    Scan,
    /// The results in the cache are used.
    Reuse(ReusedTarget),
}

/// What becomes of a target, as a mathematical value.
pub enum ConsideredView {
    Scan,
    Reuse(ReusedView),
}

impl View for Considered {
    type V = ConsideredView;

    open spec fn view(&self) -> ConsideredView {
        match self {
            Considered::Scan => ConsideredView::Scan,
            Considered::Reuse(target) => ConsideredView::Reuse(target@),
        }
    }
}

/// A target that is looked up in the cache.
pub struct LookUp {
    pub identity: IdentityView,
    pub target_id: u64,
    /// Its extension as it is printed for debugging.
    pub printed_extension: Seq<char>,
    /// What the cache holds for its contents.
    pub cached: Option<Seq<FindingView>>,
    /// Whether that is to be used.
    pub reuse: bool,
}

/// A scan once a target has been looked up, and what becomes of the target, or why the scan fails.
pub open spec fn considered(scan: PreparedView, directory: Seq<u8>, look_up: LookUp) -> Result<
    (PreparedView, ConsideredView),
    ScanError,
> {
    let identity = look_up.identity;
    let path = target_path_in(directory, look_up.target_id, identity.extension);
    match look_up.cached {
        Some(findings) if look_up.reuse => match reported_path(path, directory) {
            Err(fault) => Err(fault),
            Ok(relative) => if scan.reused.len() + findings.len() > MAX_FINDINGS {
                Err(ScanError::TooManyFindings)
            } else {
                Ok(
                    (
                        PreparedView {
                            reused: scan.reused + at_path(findings, relative),
                            ..scan
                        },
                        ConsideredView::Reuse(ReusedView { path, size: identity.size }),
                    ),
                )
            },
        },
        previous => {
            let target = PendingView {
                key: FileIdentity::key_text(identity, look_up.printed_extension),
                path,
                size: identity.size,
                previous,
            };
            Ok(
                (
                    PreparedView { pending: scan.pending.push(target), ..scan },
                    ConsideredView::Scan,
                ),
            )
        },
    }
}

/// Statistics once a look-up has been counted.
pub open spec fn counted(stats: CacheStats, decision: ConsideredView) -> CacheStats {
    match decision {
        ConsideredView::Scan => stats,
        ConsideredView::Reuse(target) => with_reuse(stats, target.size),
    }
}

/// Statistics once the engine has been given the targets that it is to scan.
pub open spec fn with_engine(stats: CacheStats, pending: Seq<PendingView>) -> CacheStats {
    if pending.len() == 0 {
        stats
    } else {
        CacheStats {
            engine_files: pending.len() as u64,
            engine_bytes: pending_bytes(pending) as u64,
            ..stats
        }
    }
}

impl PreparedScan {
    /// No target looked at yet; the preparation may have left warnings.
    pub fn new(warnings: Vec<String>) -> (scan: Self)
        ensures
            scan@ == (PreparedView {
                warnings: views(warnings@),
                reused: Seq::empty(),
                pending: Seq::empty(),
            }),
    {
        let scan = PreparedScan { warnings, reused: Vec::new(), pending: Vec::new() };
        assert(scan@.reused =~= Seq::<FindingView>::empty());
        assert(scan@.pending =~= Seq::<PendingView>::empty());
        scan
    }

    /// Decides about a target, given its extension as it is printed for debugging, what the cache
    /// holds for its contents and whether that is to be used.
    pub fn consider(
        &mut self,
        package: &PackageTarget,
        identity: &FileIdentity,
        target_id: u64,
        printed_extension: &str,
        cached: Option<Vec<OpenGrepFinding>>,
        reuse: bool,
    ) -> (result: Result<Considered, ScanError>)
        ensures
            match considered(
                old(self)@,
                package@.directory,
                LookUp {
                    identity: identity@,
                    target_id,
                    printed_extension: printed_extension@,
                    cached: optional_findings(cached),
                    reuse,
                },
            ) {
                Ok((after, decision)) => {
                    &&& result matches Ok(found)
                    &&& found@ == decision
                    &&& final(self)@ == after
                },
                Err(fault) => {
                    &&& result == Err::<Considered, ScanError>(fault)
                    &&& final(self)@ == old(self)@
                },
            },
    {
        let ghost start = self@;
        let path = match &identity.extension {
            Some(bytes) => package.target_path(target_id, Some(bytes.as_slice())),
            None => package.target_path(target_id, None),
        };
        match (reuse, cached) {
            (true, Some(findings)) => {
                let relative = match relative_target_path(path.as_slice(), package.path()) {
                    Ok(relative) => relative,
                    Err(error) => return Err(error),
                };
                let moved = put_at_path(findings, relative.as_str());
                assert(moved@.len() == views(moved@).len());
                let ghost before = self.reused@;
                let ghost added = moved@;
                match append_findings(&mut self.reused, moved) {
                    Ok(()) => {},
                    Err(error) => return Err(error),
                }
                proof {
                    lemma_views_add(before, added);
                }
                Ok(Considered::Reuse(ReusedTarget { path, size: identity.size }))
            },
            (_, previous) => {
                let key = identity.cache_key(printed_extension);
                let entry = PendingScan { key, path, size: identity.size, previous };
                let ghost added = entry@;
                self.pending.push(entry);
                assert(self@.pending =~= start.pending.push(added));
                Ok(Considered::Scan)
            },
        }
    }

    /// Ends the look-up, and counts what the engine is given where there is anything to scan.
    pub fn finish(self, stats: &mut CacheStats) -> (input: EngineInput)
        requires
            pending_bytes(self@.pending) <= u64::MAX,
        ensures
            input@ == self@,
            *final(stats) == with_engine(*old(stats), self@.pending),
    {
        let input = EngineInput {
            warnings: self.warnings,
            reused: self.reused,
            pending: self.pending,
        };
        if input.pending.len() > 0 {
            let ghost all = input@.pending;
            let mut bytes: u64 = 0;
            let mut i: usize = 0;
            while i < input.pending.len()
                invariant
                    all == views(input.pending@),
                    i <= input.pending@.len(),
                    bytes == pending_bytes(all.take(i as int)),
                    pending_bytes(all) <= u64::MAX,
                decreases input.pending@.len() - i,
            {
                proof {
                    assert(all.take(i + 1).drop_last() =~= all.take(i as int));
                    assert(all.take(i + 1).last() == input.pending@[i as int]@);
                    lemma_pending_bytes_grow(all, i + 1);
                }
                bytes = bytes + input.pending[i].size;
                i += 1;
            }
            assert(all.take(all.len() as int) =~= all);
            stats.engine_files = input.pending.len() as u64;
            stats.engine_bytes = bytes;
        }
        input
    }
}

/// A prepared package whose targets have all been looked up.
pub struct EngineInput {
    warnings: Vec<String>,
    reused: Vec<OpenGrepFinding>,
    pending: Vec<PendingScan>,
}

impl View for EngineInput {
    type V = PreparedView;

    closed spec fn view(&self) -> PreparedView {
        PreparedView {
            warnings: views(self.warnings@),
            reused: views(self.reused@),
            pending: views(self.pending@),
        }
    }
}

/// A scanned package whose findings are put into their places.
pub struct PlacedScan {
    expansion: FindingExpansion,
    fresh: Option<FreshResults>,
    pending: Vec<PendingScan>,
    warnings: Vec<String>,
}

/// A scanned package as a mathematical value.
pub struct PlacedView {
    /// The findings in canonical targets, and the targets.
    pub findings: Seq<FindingView>,
    pub ids: Seq<u64>,
    /// The findings in the places so far.
    pub placed: Seq<FindingView>,
    /// What the engine found, where it was run.
    pub fresh: Option<FreshView>,
    /// The targets that the engine scanned.
    pub pending: Seq<PendingView>,
    pub warnings: Seq<Seq<char>>,
}

impl View for PlacedScan {
    type V = PlacedView;

    closed spec fn view(&self) -> PlacedView {
        PlacedView {
            findings: self.expansion.findings(),
            ids: self.expansion.ids(),
            placed: self.expansion.done(),
            fresh: match self.fresh {
                Some(fresh) => Some(fresh@),
                None => None,
            },
            pending: views(self.pending@),
            warnings: views(self.warnings@),
        }
    }
}

/// Whether a result is that of starting to place findings.
pub open spec fn starts_placing(
    findings: Seq<FindingView>,
    fresh: Option<FreshView>,
    pending: Seq<PendingView>,
    warnings: Seq<Seq<char>>,
    result: Result<PlacedScan, ScanError>,
) -> bool {
    match targets_of(findings) {
        Err(fault) => result == Err::<PlacedScan, ScanError>(fault),
        Ok(ids) => {
            &&& result matches Ok(placed)
            &&& placed.wf()
            &&& placed@ == (PlacedView {
                findings,
                ids,
                placed: Seq::empty(),
                fresh,
                pending,
                warnings,
            })
        },
    }
}

/// What a run of the engine is taken for, after a preparation that may have left warnings: it is
/// complete where neither has.
pub open spec fn fresh_of(warnings: Seq<Seq<char>>, run: OpenGrepRun) -> FreshView {
    FreshView {
        complete: run.warnings@.len() == 0 && warnings.len() == 0,
        findings: views(run.findings@),
        scanned: run.scanned_paths@,
    }
}

impl EngineInput {
    /// Whether the engine has targets to scan.
    pub fn needs_engine(&self) -> (result: bool)
        ensures
            result == (self@.pending.len() > 0),
    {
        self.pending.len() > 0
    }

    /// Goes on without the engine.
    pub fn without_engine(self) -> (result: Result<PlacedScan, ScanError>)
        requires
            self@.pending.len() == 0,
        ensures
            starts_placing(self@.reused, None, Seq::empty(), self@.warnings, result),
    {
        let expansion = match FindingExpansion::new(self.reused) {
            Ok(expansion) => expansion,
            Err(error) => return Err(error),
        };
        let placed = PlacedScan {
            expansion,
            fresh: None,
            pending: Vec::new(),
            warnings: self.warnings,
        };
        assert(placed@.pending =~= Seq::<PendingView>::empty());
        Ok(placed)
    }

    /// Goes on with what the engine gave for the pending targets.
    pub fn engine_done(self, run: OpenGrepRun) -> (result: Result<PlacedScan, ScanError>)
        ensures
            if self@.reused.len() + run.findings@.len() > MAX_FINDINGS {
                result == Err::<PlacedScan, ScanError>(ScanError::TooManyFindings)
            } else {
                starts_placing(
                    self@.reused + views(run.findings@),
                    Some(fresh_of(self@.warnings, run)),
                    self@.pending,
                    self@.warnings + views(run.warnings@),
                    result,
                )
            },
    {
        let mut findings = self.reused;
        let mut warnings = self.warnings;
        let complete = run.warnings.len() == 0 && warnings.len() == 0;
        let fresh = FreshResults::new(complete, run.findings.as_slice(), run.scanned_paths);
        proof {
            lemma_views_add(findings@, run.findings@);
            lemma_views_add(warnings@, run.warnings@);
        }
        match append_findings(&mut findings, run.findings) {
            Ok(()) => {},
            Err(error) => return Err(error),
        }
        let expansion = match FindingExpansion::new(findings) {
            Ok(expansion) => expansion,
            Err(error) => return Err(error),
        };
        let mut more = run.warnings;
        warnings.append(&mut more);
        Ok(PlacedScan { expansion, fresh: Some(fresh), pending: self.pending, warnings })
    }
}

impl PlacedScan {
    /// Whether the findings and the fresh results are well formed.
    pub closed spec fn wf(self) -> bool {
        &&& self.expansion.wf()
        &&& self.fresh matches Some(fresh) ==> fresh.wf()
    }

    /// Whether there are findings to be placed.
    pub fn needs_manifest(&self) -> (result: bool)
        ensures
            result == (self@.findings.len() > 0),
    {
        !self.expansion.is_empty()
    }

    /// Puts the findings in a target into one more place.
    pub fn add_place(self, package: &PackageTarget, alias: &TargetAlias) -> (result: Result<
        Self,
        ScanError,
    >)
        requires
            self.wf(),
        ensures
            match with_alias(
                self@.placed,
                self@.findings,
                self@.ids,
                package@.inspectors,
                alias@,
            ) {
                Err(fault) => result == Err::<PlacedScan, ScanError>(fault),
                Ok(placed) => {
                    &&& result matches Ok(next)
                    &&& next.wf()
                    &&& next@ == (PlacedView { placed, ..self@ })
                },
            },
    {
        let expansion = match self.expansion.add(package, alias) {
            Ok(expansion) => expansion,
            Err(error) => return Err(error),
        };
        Ok(
            PlacedScan {
                expansion,
                fresh: self.fresh,
                pending: self.pending,
                warnings: self.warnings,
            },
        )
    }

    /// Ends the placing.
    pub fn finish(self) -> (kept: KeptScan)
        requires
            self.wf(),
        ensures
            kept.wf(),
            kept@ == (KeptView {
                findings: self@.placed,
                fresh: self@.fresh,
                pending: self@.pending,
                next: 0,
                mismatched: false,
                warnings: self@.warnings,
            }),
    {
        KeptScan {
            findings: self.expansion.finish(),
            fresh: self.fresh,
            pending: self.pending,
            next: 0,
            mismatched: false,
            warnings: self.warnings,
        }
    }
}

/// A scanned package whose fresh results are offered to the cache.
pub struct KeptScan {
    findings: Vec<OpenGrepFinding>,
    fresh: Option<FreshResults>,
    pending: Vec<PendingScan>,
    next: usize,
    mismatched: bool,
    warnings: Vec<String>,
}

/// A package whose results are offered to the cache, as a mathematical value.
pub struct KeptView {
    /// The findings in all places.
    pub findings: Seq<FindingView>,
    /// What the engine found, where it was run.
    pub fresh: Option<FreshView>,
    /// The targets that the engine scanned.
    pub pending: Seq<PendingView>,
    /// The one whose turn it is.
    pub next: nat,
    /// Whether what the cache held for a target differed from what was found.
    pub mismatched: bool,
    pub warnings: Seq<Seq<char>>,
}

impl View for KeptScan {
    type V = KeptView;

    closed spec fn view(&self) -> KeptView {
        KeptView {
            findings: views(self.findings@),
            fresh: match self.fresh {
                Some(fresh) => Some(fresh@),
                None => None,
            },
            pending: views(self.pending@),
            next: self.next as nat,
            mismatched: self.mismatched,
            warnings: views(self.warnings@),
        }
    }
}

/// What becomes of the results for a target.
#[derive(Debug)]
pub enum KeepStep {
    /// There is no target left.
    Done,
    /// They are not kept.
    Skip,
    /// They are kept under a key, after something has been done to what the cache holds: where they
    /// differ from it, the cache is disabled.
    Keep { key: String, path: Vec<u8>, findings: Vec<OpenGrepFinding>, action: CacheAction },
}

/// Whether a step is one for results that differ from what the cache held.
pub open spec fn is_mismatch(result: Result<KeepStep, ScanError>) -> bool {
    result matches Ok(KeepStep::Keep { key, path, findings, action }) && action
        == CacheAction::Disable
}

/// A scanned package once a step has been taken for the next target.
pub open spec fn after_step(kept: KeptView, result: Result<KeepStep, ScanError>) -> KeptView {
    KeptView {
        next: kept.next + 1,
        mismatched: kept.mismatched || is_mismatch(result),
        ..kept
    }
}

/// Whether a job is rejected: results were reused, and the cache has turned out to be wrong.
pub open spec fn rejected(kept: KeptView, stats: CacheStats, cache_disabled: bool) -> bool {
    stats.reused_files > 0 && (cache_disabled || kept.mismatched)
}

/// Whether a step is right for a target: results are kept for targets that the engine says it
/// scanned, in complete runs.
pub open spec fn is_keep_step(
    fresh: FreshView,
    pending: PendingView,
    directory: Seq<u8>,
    before: CacheStats,
    after: CacheStats,
    result: Result<KeepStep, ScanError>,
) -> bool {
    if !fresh.complete {
        &&& result == Ok::<KeepStep, ScanError>(KeepStep::Skip)
        &&& after == before
    } else {
        match reported_path(pending.path, directory) {
            Err(fault) => {
                &&& result == Err::<KeepStep, ScanError>(fault)
                &&& after == before
            },
            Ok(relative) => {
                let current = findings_in(fresh.findings, relative);
                if !fresh.scanned.contains(relative) {
                    &&& result == Ok::<KeepStep, ScanError>(KeepStep::Skip)
                    &&& after == before
                } else {
                    &&& result matches Ok(KeepStep::Keep { key, path, findings, action })
                    &&& key@ == pending.key
                    &&& path@ == pending.path
                    &&& views(findings@) == current
                    &&& action == (if differs(pending.previous, current) {
                        CacheAction::Disable
                    } else {
                        CacheAction::Leave
                    })
                    &&& after == with_validation(before, pending.previous, current)
                }
            },
        }
    }
}

impl KeptScan {
    /// Whether the fresh results are well formed, the current target is one of the targets, and
    /// there are no more findings than a job may report.
    pub closed spec fn wf(self) -> bool {
        &&& self.findings@.len() <= MAX_FINDINGS
        &&& self.fresh matches Some(fresh) ==> fresh.wf()
        &&& self@.next <= self@.pending.len()
    }

    /// Decides what becomes of the results for the next target.
    pub fn keep_next(&mut self, package: &PackageTarget, stats: &mut CacheStats) -> (result: Result<
        KeepStep,
        ScanError,
    >)
        requires
            old(self).wf(),
            old(stats).validated_files < u64::MAX,
            old(stats).mismatched_files < u64::MAX,
        ensures
            final(self).wf(),
            match old(self)@.fresh {
                Some(fresh) if old(self)@.next < old(self)@.pending.len() => {
                    &&& final(self)@ == after_step(old(self)@, result)
                    &&& is_keep_step(
                        fresh,
                        old(self)@.pending[old(self)@.next as int],
                        package@.directory,
                        *old(stats),
                        *final(stats),
                        result,
                    )
                },
                _ => {
                    &&& result == Ok::<KeepStep, ScanError>(KeepStep::Done)
                    &&& final(self)@ == old(self)@
                    &&& *final(stats) == *old(stats)
                },
            },
    {
        let total: usize = self.pending.len();
        if self.next >= total {
            return Ok(KeepStep::Done);
        }
        let index: usize = self.next;
        match &self.fresh {
            None => Ok(KeepStep::Done),
            Some(fresh) => {
                let pending: &PendingScan = &self.pending[index];
                let result = fresh.keep(package, pending, stats);
                self.next = index + 1;
                match &result {
                    Ok(KeepStep::Keep { key, path, findings, action }) => {
                        if *action == CacheAction::Disable {
                            self.mismatched = true;
                        }
                    },
                    _ => {},
                }
                result
            },
        }
    }

    /// What the scan gave; nothing where results were reused and the cache has turned out to be
    /// wrong, here or elsewhere.
    pub fn conclude(self, stats: &CacheStats, cache_disabled: bool) -> (result: Result<
        ScanJobOutcome,
        ScanError,
    >)
        requires
            self.wf(),
        ensures
            match result {
                Ok(outcome) => {
                    &&& outcome.findings@.len() <= MAX_FINDINGS
                    &&& !rejected(self@, *stats, cache_disabled)
                    &&& views(outcome.findings@) == self@.findings
                    &&& match outcome.partial_reason {
                        Some(text) => reason_for(self@.warnings) == Some(text@),
                        None => reason_for(self@.warnings) is None,
                    }
                },
                Err(error) => {
                    &&& rejected(self@, *stats, cache_disabled)
                    &&& error == ScanError::CacheRejected
                },
            },
    {
        if stats.reused_files > 0 && (cache_disabled || self.mismatched) {
            return Err(ScanError::CacheRejected);
        }
        let partial_reason = partial_reason(self.warnings.as_slice());
        Ok(ScanJobOutcome { findings: self.findings, partial_reason })
    }
}

/// The findings in a file, in order.
pub open spec fn findings_in(findings: Seq<FindingView>, path: Seq<char>) -> Seq<FindingView>
    decreases findings.len(),
{
    if findings.len() == 0 {
        Seq::empty()
    } else {
        let before = findings_in(findings.drop_last(), path);
        if findings.last().path == path {
            before.push(findings.last())
        } else {
            before
        }
    }
}

/// What a run of the engine found, by file.
pub struct FreshResults {
    complete: bool,
    lists: Vec<Vec<OpenGrepFinding>>,
    index: StringHashMap<usize>,
    scanned: TextSet,
    findings: Ghost<Seq<FindingView>>,
}

/// Fresh results as a mathematical value.
pub struct FreshView {
    /// Whether nothing was left out.
    pub complete: bool,
    pub findings: Seq<FindingView>,
    /// The files that were scanned.
    pub scanned: Set<Seq<char>>,
}

impl View for FreshResults {
    type V = FreshView;

    closed spec fn view(&self) -> FreshView {
        FreshView {
            complete: self.complete,
            findings: self.findings@,
            scanned: self.scanned@,
        }
    }
}

/// Whether what the cache holds differs from what was found.
pub open spec fn differs(previous: Option<Seq<FindingView>>, current: Seq<FindingView>) -> bool {
    previous matches Some(kept) && contents_of(kept) != contents_of(current)
}

/// Statistics once what the cache holds has been compared with what was found.
pub open spec fn with_validation(
    stats: CacheStats,
    previous: Option<Seq<FindingView>>,
    current: Seq<FindingView>,
) -> CacheStats {
    CacheStats {
        validated_files: if previous is Some {
            (stats.validated_files + 1) as u64
        } else {
            stats.validated_files
        },
        mismatched_files: if differs(previous, current) {
            (stats.mismatched_files + 1) as u64
        } else {
            stats.mismatched_files
        },
        ..stats
    }
}

impl FreshResults {
    /// Whether the findings are listed by their paths.
    pub closed spec fn wf(self) -> bool {
        &&& forall|path: Seq<char>| #[trigger]
            self.index@.contains_key(path) ==> {
                &&& self.index@[path] < self.lists@.len()
                &&& views(self.lists@[self.index@[path] as int]@) == findings_in(
                    self.findings@,
                    path,
                )
            }
        &&& forall|path: Seq<char>|
            !#[trigger] self.index@.contains_key(path) ==> findings_in(self.findings@, path)
                == Seq::<FindingView>::empty()
        &&& forall|left: Seq<char>, right: Seq<char>|
            {
                &&& #[trigger] self.index@.contains_key(left)
                &&& #[trigger] self.index@.contains_key(right)
                &&& left != right
            } ==> self.index@[left] != self.index@[right]
    }

    /// The results of a run.
    fn new(complete: bool, findings: &[OpenGrepFinding], scanned: TextSet) -> (fresh: Self)
        ensures
            fresh.wf(),
            fresh@ == (FreshView { complete, findings: views(findings@), scanned: scanned@ }),
    {
        let mut fresh = FreshResults {
            complete,
            lists: Vec::new(),
            index: StringHashMap::new(),
            scanned,
            findings: Ghost(Seq::empty()),
        };
        let mut i: usize = 0;
        assert(views(findings@).take(0) =~= Seq::<FindingView>::empty());
        while i < findings.len()
            invariant
                i <= findings@.len(),
                fresh.wf(),
                fresh.complete == complete,
                fresh.scanned == scanned,
                fresh.findings@ == views(findings@).take(i as int),
            decreases findings@.len() - i,
        {
            assert(views(findings@).take(i + 1) =~= views(findings@).take(i as int).push(
                findings@[i as int]@,
            ));
            fresh = fresh.with(findings[i].clone());
            i += 1;
        }
        assert(views(findings@).take(findings@.len() as int) =~= views(findings@));
        fresh
    }

    /// The results with one more finding.
    fn with(self, finding: OpenGrepFinding) -> (next: Self)
        requires
            self.wf(),
        ensures
            next.wf(),
            next.complete == self.complete,
            next.scanned == self.scanned,
            next.findings@ == self.findings@.push(finding@),
    {
        let ghost all = self.findings@.push(finding@);
        let ghost path = finding.path@;
        let ghost added = finding@;
        let mut lists = self.lists;
        let mut index = self.index;
        let total: usize = lists.len();
        assert(all.drop_last() =~= self.findings@);
        let known: Option<usize> = match index.get(finding.path.as_str()) {
            Some(position) => Some(*position),
            None => None,
        };
        match known {
            Some(position) => {
                let ghost before = views(lists@[position as int]@);
                lists[position].push(finding);
                assert(views(lists@[position as int]@) =~= before.push(added));
            },
            None => {
                let mut list: Vec<OpenGrepFinding> = Vec::new();
                let key = finding.path.clone();
                list.push(finding);
                assert(views(list@) =~= Seq::<FindingView>::empty().push(added));
                lists.push(list);
                index.insert(key, total);
            },
        }
        FreshResults {
            complete: self.complete,
            lists,
            index,
            scanned: self.scanned,
            findings: Ghost(all),
        }
    }

    /// What was found in a file.
    pub fn found_in(&self, path: &str) -> (found: Vec<OpenGrepFinding>)
        requires
            self.wf(),
        ensures
            views(found@) == findings_in(self@.findings, path@),
    {
        let mut found: Vec<OpenGrepFinding> = Vec::new();
        match self.index.get(path) {
            None => {
                assert(views(found@) =~= Seq::<FindingView>::empty());
            },
            Some(position) => {
                let list = &self.lists[*position];
                let mut i: usize = 0;
                while i < list.len()
                    invariant
                        i <= list@.len(),
                        found@ == list@.take(i as int),
                    decreases list@.len() - i,
                {
                    found.push(list[i].clone());
                    i += 1;
                }
                assert(list@.take(list@.len() as int) =~= list@);
            },
        }
        found
    }

    /// Decides whether the results for a target are kept, and compares them with what the cache
    /// held.
    fn keep(&self, package: &PackageTarget, pending: &PendingScan, stats: &mut CacheStats) -> (
        result: Result<KeepStep, ScanError>)
        requires
            self.wf(),
            old(stats).validated_files < u64::MAX,
            old(stats).mismatched_files < u64::MAX,
        ensures
            is_keep_step(
                self@,
                pending@,
                package@.directory,
                *old(stats),
                *final(stats),
                result,
            ),
    {
        if !self.complete {
            return Ok(KeepStep::Skip);
        }
        let relative = match relative_target_path(pending.path.as_slice(), package.path()) {
            Ok(relative) => relative,
            Err(error) => return Err(error),
        };
        if !self.scanned.contains(relative.as_str()) {
            return Ok(KeepStep::Skip);
        }
        let findings = self.found_in(relative.as_str());
        let mut action = CacheAction::Leave;
        if let Some(previous) = &pending.previous {
            stats.validated_files = stats.validated_files + 1;
            if !same_content(previous.as_slice(), findings.as_slice()) {
                stats.mismatched_files = stats.mismatched_files + 1;
                action = CacheAction::Disable;
            }
        }
        Ok(
            KeepStep::Keep {
                key: pending.key.clone(),
                path: copy_bytes(pending.path.as_slice()),
                findings,
                action,
            },
        )
    }
}

} // verus!
