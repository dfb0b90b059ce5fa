//! From findings in canonical targets back to every place where the files occur.

use vstd::prelude::*;
use vstd::utf8::*;

use crate::error::{ScanError, MAX_FINDINGS};
use crate::findings::{relocated, rewrite_finding_location};
use crate::index::{lemma_positions, positions, KeyIndex};
use crate::models::{FindingView, OpenGrepFinding};
use crate::package::{AliasView, PackageTarget, TargetAlias};
use crate::paths::{target_id_from_path, target_id_of};
use crate::text::views;

verus! {

/// The target of every finding; the first fault counts.
pub open spec fn targets_of(findings: Seq<FindingView>) -> Result<Seq<u64>, ScanError>
    decreases findings.len(),
{
    if findings.len() == 0 {
        Ok(Seq::empty())
    } else {
        match targets_of(findings.drop_last()) {
            Err(error) => Err(error),
            Ok(before) => match target_id_of(encode_utf8(findings.last().path)) {
                Err(error) => Err(error),
                Ok(target_id) => Ok(before.push(target_id)),
            },
        }
    }
}

proof fn lemma_targets_fault_stays(findings: Seq<FindingView>, end: int)
    requires
        0 <= end <= findings.len(),
        targets_of(findings.take(end)) is Err,
    ensures
        targets_of(findings) == targets_of(findings.take(end)),
    decreases findings.len() - end,
{
    if end == findings.len() {
        assert(findings.take(end) == findings);
    } else {
        assert(findings.take(end + 1).drop_last() == findings.take(end));
        lemma_targets_fault_stays(findings, end + 1);
    }
}

/// Where there is no fault, each finding has its target.
pub proof fn lemma_targets_of(findings: Seq<FindingView>)
    ensures
        targets_of(findings) matches Ok(ids) ==> {
            &&& ids.len() == findings.len()
            &&& forall|i: int|
                0 <= i < ids.len() ==> target_id_of(encode_utf8((#[trigger] findings[i]).path))
                    == Ok::<u64, ScanError>(ids[i])
        },
    decreases findings.len(),
{
    if findings.len() > 0 {
        let before = findings.drop_last();
        lemma_targets_of(before);
        assert(forall|i: int| 0 <= i < before.len() ==> before[i] == findings[i]);
    }
}

/// The findings in a target, in order.
pub open spec fn group(findings: Seq<FindingView>, ids: Seq<u64>, target_id: u64) -> Seq<FindingView>
    decreases ids.len(),
{
    if ids.len() == 0 {
        Seq::empty()
    } else {
        let before = group(findings, ids.drop_last(), target_id);
        if ids.last() == target_id {
            before.push(findings[ids.len() - 1])
        } else {
            before
        }
    }
}

/// The findings in a target are those at the positions of its identifier.
proof fn lemma_group(findings: Seq<FindingView>, ids: Seq<u64>, target_id: u64)
    requires
        ids.len() <= usize::MAX,
    ensures
        group(findings, ids, target_id) == Seq::new(
            positions(ids, target_id).len(),
            |k: int| findings[positions(ids, target_id)[k] as int],
        ),
    decreases ids.len(),
{
    if ids.len() > 0 {
        lemma_group(findings, ids.drop_last(), target_id);
        let before = positions(ids.drop_last(), target_id);
        let all = positions(ids, target_id);
        let old_group = group(findings, ids.drop_last(), target_id);
        let new_group = group(findings, ids, target_id);
        assert(new_group =~= Seq::new(all.len(), |k: int| findings[all[k] as int])) by {
            assert forall|k: int| 0 <= k < new_group.len() implies new_group[k]
                == findings[all[k] as int] by {
                if k < before.len() {
                    assert(new_group[k] == old_group[k]);
                }
            }
        }
    } else {
        assert(group(findings, ids, target_id) =~= Seq::new(
            positions(ids, target_id).len(),
            |k: int| findings[positions(ids, target_id)[k] as int],
        ));
    }
}

/// Findings moved to one place; the first fault counts.
pub open spec fn all_relocated(
    findings: Seq<FindingView>,
    path: Seq<char>,
    inspector_base: Seq<char>,
) -> Result<Seq<FindingView>, ScanError>
    decreases findings.len(),
{
    if findings.len() == 0 {
        Ok(Seq::empty())
    } else {
        match all_relocated(findings.drop_last(), path, inspector_base) {
            Err(error) => Err(error),
            Ok(before) => match relocated(findings.last(), path, inspector_base) {
                Err(error) => Err(error),
                Ok(moved) => Ok(before.push(moved)),
            },
        }
    }
}

proof fn lemma_relocated_fault_stays(
    findings: Seq<FindingView>,
    path: Seq<char>,
    base: Seq<char>,
    end: int,
)
    requires
        0 <= end <= findings.len(),
        all_relocated(findings.take(end), path, base) is Err,
    ensures
        all_relocated(findings, path, base) == all_relocated(findings.take(end), path, base),
    decreases findings.len() - end,
{
    if end == findings.len() {
        assert(findings.take(end) == findings);
    } else {
        assert(findings.take(end + 1).drop_last() == findings.take(end));
        lemma_relocated_fault_stays(findings, path, base, end + 1);
    }
}

/// Where there is no fault, each finding is moved.
pub proof fn lemma_all_relocated(findings: Seq<FindingView>, path: Seq<char>, base: Seq<char>)
    ensures
        all_relocated(findings, path, base) matches Ok(moved) ==> {
            &&& moved.len() == findings.len()
            &&& forall|i: int|
                0 <= i < moved.len() ==> relocated(#[trigger] findings[i], path, base) == Ok::<
                    FindingView,
                    ScanError,
                >(moved[i])
        },
    decreases findings.len(),
{
    if findings.len() > 0 {
        let before = findings.drop_last();
        lemma_all_relocated(before, path, base);
        assert(forall|i: int| 0 <= i < before.len() ==> before[i] == findings[i]);
    }
}

/// What has been found so far, with the findings in the target of one more place.
pub open spec fn with_alias(
    done: Seq<FindingView>,
    findings: Seq<FindingView>,
    ids: Seq<u64>,
    inspectors: Seq<Seq<char>>,
    alias: AliasView,
) -> Result<Seq<FindingView>, ScanError> {
    let here = group(findings, ids, alias.target_id);
    if here.len() == 0 {
        Ok(done)
    } else if alias.distribution_index >= inspectors.len() {
        Err(ScanError::UnknownDistribution)
    } else if done.len() + here.len() > MAX_FINDINGS {
        Err(ScanError::TooManyFindings)
    } else {
        match all_relocated(here, alias.path, inspectors[alias.distribution_index as int]) {
            Err(error) => Err(error),
            Ok(moved) => Ok(done + moved),
        }
    }
}

/// The findings in the targets of all places, in the order of the places; the first fault counts.
pub open spec fn with_aliases(
    findings: Seq<FindingView>,
    ids: Seq<u64>,
    inspectors: Seq<Seq<char>>,
    aliases: Seq<AliasView>,
) -> Result<Seq<FindingView>, ScanError>
    decreases aliases.len(),
{
    if aliases.len() == 0 {
        Ok(Seq::empty())
    } else {
        match with_aliases(findings, ids, inspectors, aliases.drop_last()) {
            Err(error) => Err(error),
            Ok(done) => with_alias(done, findings, ids, inspectors, aliases.last()),
        }
    }
}

proof fn lemma_aliases_fault_stays(
    findings: Seq<FindingView>,
    ids: Seq<u64>,
    inspectors: Seq<Seq<char>>,
    aliases: Seq<AliasView>,
    end: int,
)
    requires
        0 <= end <= aliases.len(),
        with_aliases(findings, ids, inspectors, aliases.take(end)) is Err,
    ensures
        with_aliases(findings, ids, inspectors, aliases) == with_aliases(
            findings,
            ids,
            inspectors,
            aliases.take(end),
        ),
    decreases aliases.len() - end,
{
    if end == aliases.len() {
        assert(aliases.take(end) == aliases);
    } else {
        assert(aliases.take(end + 1).drop_last() == aliases.take(end));
        lemma_aliases_fault_stays(findings, ids, inspectors, aliases, end + 1);
    }
}

/// What findings in canonical targets are expanded to.
pub open spec fn expansion(
    findings: Seq<FindingView>,
    inspectors: Seq<Seq<char>>,
    aliases: Seq<AliasView>,
) -> Result<Seq<FindingView>, ScanError> {
    match targets_of(findings) {
        Err(error) => Err(error),
        Ok(ids) => with_aliases(findings, ids, inspectors, aliases),
    }
}

/// Findings that are being expanded, place by place.
pub struct FindingExpansion {
    findings: Vec<OpenGrepFinding>,
    index: KeyIndex,
    expanded: Vec<OpenGrepFinding>,
}

impl FindingExpansion {
    /// Whether the index lists the targets of the findings, and the places so far do not have more
    /// findings than a job may report.
    pub closed spec fn wf(self) -> bool {
        &&& self.index.wf()
        &&& self.expanded@.len() <= MAX_FINDINGS
        &&& targets_of(self.findings()) == Ok::<Seq<u64>, ScanError>(self.index@)
    }

    /// The findings in canonical targets.
    pub closed spec fn findings(self) -> Seq<FindingView> {
        views(self.findings@)
    }

    /// The targets of the findings.
    pub closed spec fn ids(self) -> Seq<u64> {
        self.index@
    }

    /// The findings in the places so far.
    pub closed spec fn done(self) -> Seq<FindingView> {
        views(self.expanded@)
    }

    /// No place yet.
    pub fn new(findings: Vec<OpenGrepFinding>) -> (result: Result<Self, ScanError>)
        ensures
            match result {
                Ok(expansion) => {
                    &&& expansion.wf()
                    &&& targets_of(views(findings@)) == Ok::<Seq<u64>, ScanError>(expansion.ids())
                    &&& expansion.findings() == views(findings@)
                    &&& expansion.done() == Seq::<FindingView>::empty()
                },
                Err(error) => targets_of(views(findings@)) == Err::<Seq<u64>, ScanError>(error),
            },
    {
        let ghost all = views(findings@);
        let mut index = KeyIndex::new();
        let mut i: usize = 0;
        while i < findings.len()
            invariant
                all == views(findings@),
                i <= findings@.len(),
                index.wf(),
                index@.len() == i,
                targets_of(all.take(i as int)) == Ok::<Seq<u64>, ScanError>(index@),
            decreases findings@.len() - i,
        {
            assert(all.take(i + 1).drop_last() == all.take(i as int));
            assert(all.take(i + 1).last() == findings@[i as int]@);
            match target_id_from_path(findings[i].path.as_str()) {
                Ok(target_id) => index.add(target_id, i),
                Err(error) => {
                    proof {
                        lemma_targets_fault_stays(all, i + 1);
                    }
                    return Err(error);
                },
            }
            i += 1;
        }
        assert(all.take(all.len() as int) == all);
        let expanded: Vec<OpenGrepFinding> = Vec::new();
        assert(views(expanded@) =~= Seq::<FindingView>::empty());
        Ok(FindingExpansion { findings, index, expanded })
    }

    /// Whether there is nothing to expand.
    pub fn is_empty(&self) -> (result: bool)
        ensures
            result == (self.findings().len() == 0),
    {
        self.findings.len() == 0
    }

    /// Adds the findings in the target of one more place.
    pub fn add(self, package: &PackageTarget, alias: &TargetAlias) -> (result: Result<
        Self,
        ScanError,
    >)
        requires
            self.wf(),
        ensures
            match result {
                Ok(next) => {
                    &&& next.wf()
                    &&& next.findings() == self.findings()
                    &&& next.ids() == self.ids()
                    &&& with_alias(
                        self.done(),
                        self.findings(),
                        self.ids(),
                        package@.inspectors,
                        alias@,
                    ) == Ok::<Seq<FindingView>, ScanError>(next.done())
                },
                Err(error) => with_alias(
                    self.done(),
                    self.findings(),
                    self.ids(),
                    package@.inspectors,
                    alias@,
                ) == Err::<Seq<FindingView>, ScanError>(error),
            },
    {
        let total: usize = self.findings.len();
        let ghost all = self.findings();
        let ghost ids = self.ids();
        let ghost here = group(all, ids, alias.target_id);
        proof {
            lemma_targets_of(all);
            lemma_positions(ids, alias.target_id);
            lemma_group(all, ids, alias.target_id);
        }
        let mut expanded = self.expanded;
        let ghost done = views(expanded@);
        match self.index.find(alias.target_id) {
            None => {},
            Some(list) => if list.len() > 0 {
                let inspector = match package.inspector(alias.distribution_index) {
                    Some(inspector) => inspector,
                    None => return Err(ScanError::UnknownDistribution),
                };
                if expanded.len() > MAX_FINDINGS || list.len() > MAX_FINDINGS - expanded.len() {
                    return Err(ScanError::TooManyFindings);
                }
                let ghost base = package@.inspectors[alias.distribution_index as int];
                let mut k: usize = 0;
                let ghost mut moved = Seq::<FindingView>::empty();
                assert(here.take(0) =~= Seq::<FindingView>::empty());
                while k < list.len()
                    invariant
                        k <= list@.len(),
                        total == self.findings@.len(),
                        all == views(self.findings@),
                        list@ == positions(ids, alias.target_id),
                        ids.len() == total,
                        forall|j: int| 0 <= j < list@.len() ==> #[trigger] list@[j] < total,
                        here == Seq::new(list@.len(), |j: int| all[list@[j] as int]),
                        inspector@ == base,
                        all_relocated(here.take(k as int), alias.path@, base) == Ok::<
                            Seq<FindingView>,
                            ScanError,
                        >(moved),
                        views(expanded@) == done + moved,
                        here == group(all, ids, alias.target_id),
                        done.len() + here.len() <= MAX_FINDINGS,
                        here.len() > 0,
                        done == self.done(),
                        all == self.findings(),
                        ids == self.ids(),
                        alias.distribution_index < package@.inspectors.len(),
                        base == package@.inspectors[alias.distribution_index as int],
                    decreases list@.len() - k,
                {
                    let position: usize = list[k];
                    assert(position < total);
                    assert(here.take(k + 1).drop_last() =~= here.take(k as int));
                    assert(here.take(k + 1).last() == all[position as int]);
                    match rewrite_finding_location(
                        &self.findings[position],
                        alias.path.as_str(),
                        inspector,
                    ) {
                        Ok(finding) => {
                            let ghost before = views(expanded@);
                            expanded.push(finding);
                            proof {
                                assert(views(expanded@) =~= before.push(finding@));
                                assert(before.push(finding@) =~= done + moved.push(finding@));
                                moved = moved.push(finding@);
                            }
                        },
                        Err(error) => {
                            proof {
                                lemma_relocated_fault_stays(here, alias.path@, base, k + 1);
                            }
                            return Err(error);
                        },
                    }
                    k += 1;
                }
                assert(here.take(list@.len() as int) =~= here);
                proof {
                    lemma_all_relocated(here, alias.path@, base);
                    assert(expanded@.len() == views(expanded@).len());
                }
            },
        }
        Ok(FindingExpansion { findings: self.findings, index: self.index, expanded })
    }

    /// The findings in all places.
    pub fn finish(self) -> (expanded: Vec<OpenGrepFinding>)
        requires
            self.wf(),
        ensures
            views(expanded@) == self.done(),
            expanded@.len() <= MAX_FINDINGS,
    {
        self.expanded
    }
}

impl PackageTarget {
    /// Expands findings in canonical targets to every place in the manifest.
    pub fn expand_findings(
        &self,
        findings: Vec<OpenGrepFinding>,
        aliases: &[TargetAlias],
    ) -> (result: Result<Vec<OpenGrepFinding>, ScanError>)
        ensures
            match result {
                Ok(expanded) => expansion(
                    views(findings@),
                    self@.inspectors,
                    views(aliases@),
                ) == Ok::<Seq<FindingView>, ScanError>(views(expanded@)),
                Err(error) => expansion(views(findings@), self@.inspectors, views(aliases@)) == Err::<
                    Seq<FindingView>,
                    ScanError,
                >(error),
            },
    {
        let ghost all = views(findings@);
        let ghost places = views(aliases@);
        let mut state = match FindingExpansion::new(findings) {
            Ok(state) => state,
            Err(error) => return Err(error),
        };
        let ghost ids = state.ids();
        let mut i: usize = 0;
        assert(places.take(0) =~= Seq::<AliasView>::empty());
        while i < aliases.len()
            invariant
                i <= aliases@.len(),
                places == views(aliases@),
                state.wf(),
                state.findings() == all,
                state.ids() == ids,
                targets_of(all) == Ok::<Seq<u64>, ScanError>(ids),
                expansion(all, self@.inspectors, places) == with_aliases(
                    all,
                    ids,
                    self@.inspectors,
                    places,
                ),
                with_aliases(all, ids, self@.inspectors, places.take(i as int)) == Ok::<
                    Seq<FindingView>,
                    ScanError,
                >(state.done()),
                all == views(findings@),
            decreases aliases@.len() - i,
        {
            assert(places.take(i + 1).drop_last() =~= places.take(i as int));
            assert(places.take(i + 1).last() == aliases@[i as int]@);
            state = match state.add(self, &aliases[i]) {
                Ok(next) => next,
                Err(error) => {
                    proof {
                        lemma_aliases_fault_stays(all, ids, self@.inspectors, places, i + 1);
                    }
                    return Err(error);
                },
            };
            i += 1;
        }
        assert(places.take(places.len() as int) =~= places);
        Ok(state.finish())
    }
}

} // verus!
