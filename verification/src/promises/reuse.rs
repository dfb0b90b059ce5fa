//! What holds of results that are reused, compared and kept.

use vstd::prelude::*;

use crate::engine::OpenGrepRun;
use crate::error::ScanError;
use crate::identity::{optional_bytes, FileIdentity};
use crate::models::{CacheAction, CacheStats, FindingView, OpenGrepFinding};
use crate::package::{PackageTarget, TargetAlias};
use crate::paths::relative_target_path;
use crate::promises::expansion::{
    are_targets, is_place_step, lemma_are_targets, lemma_with_alias, names_none,
};
use crate::promises::findings::{bare, bare_contents, lemma_contents};
use crate::promises::lists::{
    lemma_listed_positions, lemma_positions_where, lemma_same_positions, positions_where,
};
use crate::promises::values::{decimal_value, lemma_decimal_value, lemma_hex_value, lower_hex_value};
use crate::reuse::{
    findings_in, pending_bytes, Considered, EngineInput, FreshResults, FreshView, KeepStep,
    KeptScan, PendingView, PlacedScan, PlacedView, PreparedScan, ReusedTarget,
};
use crate::scan::{partial_reason, ScanJobOutcome};
use crate::text::views;

verus! {

/// A key has the digest in 32 lower-case hexadecimal digits, the size in decimal and the printed
/// extension, with colons between them.
pub proof fn law_keys_hold_the_identity(
    identity: &FileIdentity,
    printed_extension: &str,
    key: String,
)
    requires
        call_ensures(FileIdentity::cache_key, (identity, printed_extension), key),
    ensures
        exists|digits: Seq<u8>, size: Seq<char>|
            {
                &&& digits.len() == 32
                &&& #[trigger] lower_hex_value(digits) == identity.digest
                &&& #[trigger] decimal_value(size) == identity.size
                &&& key@ == digits.map_values(|digit: u8| digit as char).push(':') + size.push(':')
                    + printed_extension@
                &&& forall|i: int|
                    0 <= i < 32 ==> 48 <= #[trigger] digits[i] <= 57 || 97 <= digits[i] <= 102
                &&& forall|i: int| 0 <= i < size.len() ==> '0' <= #[trigger] size[i] <= '9'
                &&& size.len() > 1 ==> size[0] != '0'
            },
{
    let digits = crate::numbers::hex_digits(identity.digest as nat, 32);
    let size = crate::numbers::decimal(identity.size as nat);
    lemma_hex_value(identity.digest as nat, 32);
    lemma_decimal_value(identity.size as nat);
    assert(identity.digest < crate::promises::values::hex_range(32)) by {
        reveal_with_fuel(crate::promises::values::hex_range, 33);
    }
    assert forall|i: int| 0 <= i < 32 implies 48 <= #[trigger] digits[i] <= 57 || 97 <= digits[i]
        <= 102 by {
        let digit = digits[i];
    }
    assert(lower_hex_value(digits) == identity.digest);
    assert(decimal_value(size) == identity.size);
    assert(key@ =~= digits.map_values(|digit: u8| digit as char).push(':') + size.push(':')
        + printed_extension@);
}

/// Identities are the same where the digests, the sizes and the extensions are.
pub proof fn law_identities_have_three_parts(
    left: &FileIdentity,
    right: &FileIdentity,
    same: bool,
)
    requires
        call_ensures(FileIdentity::same_as, (left, right), same),
    ensures
        same <==> left.digest == right.digest && left.size == right.size && optional_bytes(
            left.extension,
        ) == optional_bytes(right.extension),
{
}

proof fn lemma_bare_sum(left: Seq<FindingView>, right: Seq<FindingView>)
    ensures
        bare_contents(left + right) == bare_contents(left).add(bare_contents(right)),
{
    let l = Seq::new(left.len(), |i: int| bare(left[i]));
    let r = Seq::new(right.len(), |i: int| bare(right[i]));
    let both = left + right;
    assert(Seq::new(both.len(), |i: int| bare(both[i])) =~= l + r);
    vstd::seq_lib::lemma_multiset_commutative(l, r);
}

/// A target is scanned where the cache holds nothing for it or nothing is to be reused: it is put
/// behind the targets that are pending, under its key, at its path, and with what the cache holds.
pub proof fn law_other_targets_are_scanned(
    scan: &mut PreparedScan,
    package: &PackageTarget,
    identity: &FileIdentity,
    target_id: u64,
    printed_extension: &str,
    cached: Option<Vec<OpenGrepFinding>>,
    reuse: bool,
    extension: Option<&[u8]>,
    path: Vec<u8>,
    key: String,
    result: Result<Considered, ScanError>,
)
    requires
        !reuse || cached is None,
        call_ensures(
            PreparedScan::consider,
            (scan, package, identity, target_id, printed_extension, cached, reuse),
            result,
        ),
        match (extension, identity.extension) {
            (Some(given), Some(held)) => given@ == held@,
            (None, None) => true,
            _ => false,
        },
        call_ensures(PackageTarget::target_path, (package, target_id, extension), path),
        call_ensures(FileIdentity::cache_key, (identity, printed_extension), key),
    ensures
        result matches Ok(decision) && decision is Scan,
        final(scan)@.warnings == old(scan)@.warnings,
        final(scan)@.reused == old(scan)@.reused,
        final(scan)@.pending.len() == old(scan)@.pending.len() + 1,
        final(scan)@.pending.drop_last() == old(scan)@.pending,
        ({
            let added = final(scan)@.pending.last();
            &&& added.key == key@
            &&& added.path == path@
            &&& added.size == identity.size
            &&& match cached {
                Some(findings) => added.previous == Some(views(findings@)),
                None => added.previous is None,
            }
        }),
{
    assert(final(scan)@.pending.drop_last() =~= old(scan)@.pending);
}

/// Where results are reused, the findings that the cache holds are added, all of them and nothing
/// else, in order, at the reported path of the target: with the contents that they had, each as
/// often. It fails, with nothing added, only where there is no such path or there would be too many
/// findings.
pub proof fn law_reused_results_are_added_whole(
    scan: &mut PreparedScan,
    package: &PackageTarget,
    identity: &FileIdentity,
    target_id: u64,
    printed_extension: &str,
    cached: Vec<OpenGrepFinding>,
    extension: Option<&[u8]>,
    path: Vec<u8>,
    path_bytes: &[u8],
    directory: &[u8],
    reported: Result<String, ScanError>,
    result: Result<Considered, ScanError>,
)
    requires
        call_ensures(
            PreparedScan::consider,
            (scan, package, identity, target_id, printed_extension, Some(cached), true),
            result,
        ),
        match (extension, identity.extension) {
            (Some(given), Some(held)) => given@ == held@,
            (None, None) => true,
            _ => false,
        },
        call_ensures(PackageTarget::target_path, (package, target_id, extension), path),
        path_bytes@ == path@,
        directory@ == package@.directory,
        call_ensures(relative_target_path, (path_bytes, directory), reported),
    ensures
        ({
            let before = old(scan)@;
            let after = final(scan)@;
            match reported {
                Err(fault) => result == Err::<Considered, ScanError>(fault) && after == before,
                Ok(text) => if before.reused.len() + cached@.len() > 500 {
                    &&& result == Err::<Considered, ScanError>(ScanError::TooManyFindings)
                    &&& after == before
                } else {
                    &&& result matches Ok(Considered::Reuse(target))
                    &&& target@.path == path@
                    &&& target@.size == identity.size
                    &&& after.reused == before.reused + Seq::new(
                        cached@.len(),
                        |i: int| FindingView { path: text@, ..cached@[i]@ },
                    )
                    &&& bare_contents(after.reused) == bare_contents(before.reused).add(
                        bare_contents(views(cached@)),
                    )
                    &&& after.pending == before.pending
                    &&& after.warnings == before.warnings
                },
            }
        }),
{
    let before = old(scan)@;
    if let Ok(text) = reported {
        if before.reused.len() + cached@.len() <= 500 {
            let added = Seq::new(
                cached@.len(),
                |i: int| FindingView { path: text@, ..cached@[i]@ },
            );
            assert(final(scan)@.reused =~= before.reused + added);
            lemma_bare_sum(before.reused, added);
            assert(Seq::new(added.len(), |i: int| bare(added[i])) =~= Seq::new(
                views(cached@).len(),
                |i: int| bare(views(cached@)[i]),
            ));
        }
    }
}

/// A scan starts with the warnings of the preparation, and without targets.
pub proof fn law_scans_start_without_targets(warnings: Vec<String>, scan: PreparedScan)
    requires
        call_ensures(PreparedScan::new, (warnings,), scan),
    ensures
        scan@.warnings == views(warnings@),
        scan@.reused.len() == 0,
        scan@.pending.len() == 0,
{
}

/// A reused target is counted once its file is removed: one file, and its bytes.
pub proof fn law_reused_targets_are_counted(
    target: ReusedTarget,
    stats: &mut CacheStats,
    path: &[u8],
)
    requires
        old(stats).reused_files < u64::MAX,
        old(stats).reused_bytes + target@.size <= u64::MAX,
        call_ensures(ReusedTarget::removed, (target, stats), ()),
        call_ensures(ReusedTarget::path, (&target,), path),
    ensures
        path@ == target@.path,
        final(stats).reused_files == old(stats).reused_files + 1,
        final(stats).reused_bytes == old(stats).reused_bytes + target@.size,
        *final(stats) == (CacheStats {
            reused_files: final(stats).reused_files,
            reused_bytes: final(stats).reused_bytes,
            ..*old(stats)
        }),
{
}

/// The sum of numbers.
pub open spec fn sum_of(sizes: Seq<u64>) -> nat
    decreases sizes.len(),
{
    if sizes.len() == 0 {
        0
    } else {
        (sum_of(sizes.drop_last()) + sizes.last()) as nat
    }
}

pub proof fn lemma_pending_bytes(pending: Seq<PendingView>)
    ensures
        pending_bytes(pending) == sum_of(pending.map_values(|target: PendingView| target.size)),
    decreases pending.len(),
{
    let sizes = pending.map_values(|target: PendingView| target.size);
    if pending.len() > 0 {
        lemma_pending_bytes(pending.drop_last());
        assert(sizes.drop_last() =~= pending.drop_last().map_values(
            |target: PendingView| target.size,
        ));
    }
}

/// The end of the look-up keeps what was found, and counts the pending targets and their bytes where
/// there are any.
pub proof fn law_pending_targets_are_counted(
    scan: PreparedScan,
    stats: &mut CacheStats,
    input: EngineInput,
    needed: bool,
)
    requires
        sum_of(scan@.pending.map_values(|target: PendingView| target.size)) <= u64::MAX,
        scan@.pending.len() <= u64::MAX,
        call_ensures(PreparedScan::finish, (scan, stats), input),
        call_ensures(EngineInput::needs_engine, (&input,), needed),
    ensures
        input@ == scan@,
        needed <==> scan@.pending.len() > 0,
        scan@.pending.len() == 0 ==> *final(stats) == *old(stats),
        scan@.pending.len() > 0 ==> {
            &&& final(stats).engine_files == scan@.pending.len()
            &&& final(stats).engine_bytes == sum_of(
                scan@.pending.map_values(|target: PendingView| target.size),
            )
            &&& *final(stats) == (CacheStats {
                engine_files: final(stats).engine_files,
                engine_bytes: final(stats).engine_bytes,
                ..*old(stats)
            })
        },
{
    lemma_pending_bytes(scan@.pending);
}

/// Whether placing starts with findings, each of which names its target.
pub open spec fn starts_with(
    findings: Seq<FindingView>,
    fresh: Option<FreshView>,
    pending: Seq<PendingView>,
    warnings: Seq<Seq<char>>,
    result: Result<PlacedScan, ScanError>,
) -> bool {
    match result {
        Ok(placed) => {
            &&& placed.wf()
            &&& placed@.findings == findings
            &&& are_targets(findings, placed@.ids)
            &&& placed@.placed.len() == 0
            &&& placed@.fresh == fresh
            &&& placed@.pending == pending
            &&& placed@.warnings == warnings
        },
        Err(error) => {
            &&& exists|k: int| 0 <= k < findings.len() && names_none(#[trigger] findings[k])
            &&& error == ScanError::InvalidTargetPath || error is InvalidTargetId
        },
    }
}

/// Without the engine the reused findings alone are placed, where each names a target.
pub proof fn law_reused_findings_are_placed_alone(
    input: EngineInput,
    result: Result<PlacedScan, ScanError>,
)
    requires
        input@.pending.len() == 0,
        call_ensures(EngineInput::without_engine, (input,), result),
    ensures
        starts_with(input@.reused, None, Seq::empty(), input@.warnings, result),
{
    match result {
        Ok(placed) => {
            lemma_are_targets(input@.reused, placed@.ids);
        },
        Err(_) => {
            lemma_are_targets(input@.reused, Seq::empty());
        },
    }
}

/// With the engine the reused findings are placed, and behind them all that the run found, where
/// that is not too much and each names a target. The warnings of the run are added to those of the
/// preparation, and the results count as complete only where there is no warning at all.
pub proof fn law_findings_of_the_run_are_placed_too(
    input: EngineInput,
    run: OpenGrepRun,
    result: Result<PlacedScan, ScanError>,
)
    requires
        call_ensures(EngineInput::engine_done, (input, run), result),
    ensures
        input@.reused.len() + run.findings@.len() > 500 ==> result == Err::<PlacedScan, ScanError>(
            ScanError::TooManyFindings,
        ),
        input@.reused.len() + run.findings@.len() <= 500 ==> starts_with(
            input@.reused + views(run.findings@),
            Some(
                FreshView {
                    complete: input@.warnings.len() == 0 && run.warnings@.len() == 0,
                    findings: views(run.findings@),
                    scanned: run.scanned_paths@,
                },
            ),
            input@.pending,
            input@.warnings + views(run.warnings@),
            result,
        ),
{
    let all = input@.reused + views(run.findings@);
    match result {
        Ok(placed) => {
            lemma_are_targets(all, placed@.ids);
        },
        Err(_) => {
            lemma_are_targets(all, Seq::empty());
        },
    }
}

/// One more place gets the findings in its target, and nothing else of the scan changes.
pub proof fn law_scans_place_findings(
    scan: PlacedScan,
    package: &PackageTarget,
    alias: &TargetAlias,
    needed: bool,
    result: Result<PlacedScan, ScanError>,
)
    requires
        scan.wf(),
        call_ensures(PlacedScan::needs_manifest, (&scan,), needed),
        call_ensures(PlacedScan::add_place, (scan, package, alias), result),
    ensures
        needed <==> scan@.findings.len() > 0,
        is_place_step(
            scan@.placed,
            scan@.findings,
            scan@.ids,
            package@.inspectors,
            alias@,
            match result {
                Ok(next) => Ok(next@.placed),
                Err(error) => Err(error),
            },
        ),
        result matches Ok(next) ==> {
            &&& next.wf()
            &&& next@ == (PlacedView { placed: next@.placed, ..scan@ })
        },
{
    lemma_with_alias(scan@.placed, scan@.findings, scan@.ids, package@.inspectors, alias@);
}

/// Once all findings are placed, they are what the scan reports, and every pending target is still
/// to be looked at.
pub proof fn law_placed_findings_are_reported(scan: PlacedScan, kept: KeptScan)
    requires
        scan.wf(),
        call_ensures(PlacedScan::finish, (scan,), kept),
    ensures
        kept.wf(),
        kept@.findings == scan@.placed,
        kept@.fresh == scan@.fresh,
        kept@.pending == scan@.pending,
        kept@.next == 0,
        !kept@.mismatched,
        kept@.warnings == scan@.warnings,
{
}

/// The findings at a path, in order.
pub open spec fn findings_at(findings: Seq<FindingView>, path: Seq<char>) -> Seq<FindingView> {
    positions_where(findings.len(), |k: int| findings[k].path == path).map_values(
        |k: int| findings[k],
    )
}

proof fn lemma_findings_at(findings: Seq<FindingView>, path: Seq<char>)
    ensures
        findings_in(findings, path) == findings_at(findings, path),
    decreases findings.len(),
{
    let here = |k: int| findings[k].path == path;
    let pick = |k: int| findings[k];
    lemma_positions_where(0, here);
    if findings.len() > 0 {
        let before = findings.drop_last();
        let n = before.len();
        let earlier = |k: int| before[k].path == path;
        lemma_findings_at(before, path);
        lemma_positions_where(n, here);
        assert forall|k: int| 0 <= k < n implies #[trigger] earlier(k) == here(k) by {
            assert(before[k] == findings[k]);
        }
        lemma_same_positions(n, earlier, here);
        lemma_listed_positions(n, here);
        assert(findings[n as int] == findings.last());
        assert(positions_where(n, here).map_values(|k: int| before[k]) =~= positions_where(
            n,
            here,
        ).map_values(pick));
        assert(findings_in(findings, path) =~= findings_at(findings, path));
    } else {
        assert(findings_in(findings, path) =~= findings_at(findings, path));
    }
}

/// What was found in a file is every finding at its path, in order.
pub proof fn law_results_are_found_by_file(
    fresh: &FreshResults,
    path: &str,
    found: Vec<OpenGrepFinding>,
)
    requires
        fresh.wf(),
        call_ensures(FreshResults::found_in, (fresh, path), found),
    ensures
        views(found@) == findings_at(fresh@.findings, path@),
{
    lemma_findings_at(fresh@.findings, path@);
}

/// Results are kept for the next target just where the run was complete and says that it scanned the
/// target: all findings at its path and nothing else, under the key of the target. Where the cache
/// held something, that is compared, and counted; where it says something else of the contents, that
/// is counted too, the cache is disabled, and the difference is remembered.
pub proof fn law_results_are_kept_and_compared(
    kept: &mut KeptScan,
    package: &PackageTarget,
    stats: &mut CacheStats,
    path_bytes: &[u8],
    directory: &[u8],
    reported: Result<String, ScanError>,
    result: Result<KeepStep, ScanError>,
)
    requires
        old(kept).wf(),
        old(stats).validated_files < u64::MAX,
        old(stats).mismatched_files < u64::MAX,
        call_ensures(KeptScan::keep_next, (kept, package, stats), result),
        old(kept)@.fresh is Some,
        old(kept)@.next < old(kept)@.pending.len(),
        path_bytes@ == old(kept)@.pending[old(kept)@.next as int].path,
        directory@ == package@.directory,
        call_ensures(relative_target_path, (path_bytes, directory), reported),
    ensures
        ({
            let before = old(kept)@;
            let after = final(kept)@;
            let fresh = before.fresh->0;
            let target = before.pending[before.next as int];
            &&& final(kept).wf()
            &&& after.findings == before.findings
            &&& after.fresh == before.fresh
            &&& after.pending == before.pending
            &&& after.warnings == before.warnings
            &&& after.next == before.next + 1
            &&& if !fresh.complete {
                &&& result == Ok::<KeepStep, ScanError>(KeepStep::Skip)
                &&& *final(stats) == *old(stats)
                &&& after.mismatched == before.mismatched
            } else {
                match reported {
                    Err(fault) => {
                        &&& result == Err::<KeepStep, ScanError>(fault)
                        &&& *final(stats) == *old(stats)
                        &&& after.mismatched == before.mismatched
                    },
                    Ok(text) => if !fresh.scanned.contains(text@) {
                        &&& result == Ok::<KeepStep, ScanError>(KeepStep::Skip)
                        &&& *final(stats) == *old(stats)
                        &&& after.mismatched == before.mismatched
                    } else {
                        let current = findings_at(fresh.findings, text@);
                        let compared = target.previous is Some;
                        let differs = compared && bare_contents(target.previous->0)
                            != bare_contents(current);
                        &&& result matches Ok(KeepStep::Keep { key, path, findings, action })
                        &&& key@ == target.key
                        &&& path@ == target.path
                        &&& views(findings@) == current
                        &&& action == CacheAction::Disable <==> differs
                        &&& action == CacheAction::Leave <==> !differs
                        &&& after.mismatched == (before.mismatched || differs)
                        &&& final(stats).validated_files == old(stats).validated_files + (
                        if compared {
                            1int
                        } else {
                            0
                        })
                        &&& final(stats).mismatched_files == old(stats).mismatched_files + (
                        if differs {
                            1int
                        } else {
                            0
                        })
                        &&& *final(stats) == (CacheStats {
                            validated_files: final(stats).validated_files,
                            mismatched_files: final(stats).mismatched_files,
                            ..*old(stats)
                        })
                    },
                }
            }
        }),
{
    let before = old(kept)@;
    let fresh = before.fresh->0;
    let target = before.pending[before.next as int];
    if let Ok(text) = reported {
        lemma_findings_at(fresh.findings, text@);
        lemma_contents(findings_at(fresh.findings, text@));
        if let Some(previous) = target.previous {
            lemma_contents(previous);
        }
    }
}

/// There is nothing more to keep where the engine was not run or every target has had its turn.
pub proof fn law_keeping_ends(
    kept: &mut KeptScan,
    package: &PackageTarget,
    stats: &mut CacheStats,
    result: Result<KeepStep, ScanError>,
)
    requires
        old(kept).wf(),
        old(stats).validated_files < u64::MAX,
        old(stats).mismatched_files < u64::MAX,
        call_ensures(KeptScan::keep_next, (kept, package, stats), result),
        old(kept)@.fresh is None || old(kept)@.next >= old(kept)@.pending.len(),
    ensures
        result == Ok::<KeepStep, ScanError>(KeepStep::Done),
        final(kept).wf(),
        final(kept)@ == old(kept)@,
        *final(stats) == *old(stats),
{
}

/// A scan is rejected just where results were reused and the cache is disabled or has differed. It
/// otherwise reports every finding that was placed, with a reason just where there are warnings.
pub proof fn law_scans_conclude(
    kept: KeptScan,
    stats: &CacheStats,
    cache_disabled: bool,
    warnings: &[String],
    reason: Option<String>,
    result: Result<ScanJobOutcome, ScanError>,
)
    requires
        kept.wf(),
        call_ensures(KeptScan::conclude, (kept, stats, cache_disabled), result),
        views(warnings@) == kept@.warnings,
        call_ensures(partial_reason, (warnings,), reason),
    ensures
        result is Err <==> stats.reused_files > 0 && (cache_disabled || kept@.mismatched),
        result matches Err(error) ==> error == ScanError::CacheRejected,
        result matches Ok(outcome) ==> {
            &&& views(outcome.findings@) == kept@.findings
            &&& outcome.partial_reason is Some <==> kept@.warnings.len() > 0
            &&& match (outcome.partial_reason, reason) {
                (Some(given), Some(expected)) => given@ == expected@,
                (None, None) => true,
                _ => false,
            }
        },
{
    assert(views(warnings@).len() == warnings@.len());
}

} // verus!
