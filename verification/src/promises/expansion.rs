//! What holds of findings that are put into all places of their targets.

use vstd::prelude::*;
use vstd::utf8::*;

use crate::error::ScanError;
use crate::expansion::{
    all_relocated, expansion, group, targets_of, with_alias, with_aliases, FindingExpansion,
};
use crate::models::{FindingView, OpenGrepFinding};
use crate::package::{AliasView, PackageTarget, TargetAlias};
use crate::paths::target_id_of;
use crate::promises::lists::{
    lemma_listed_positions, lemma_positions_where, lemma_same_positions, positions_where,
};
use crate::promises::paths::{lemma_target_id_of, names_target};
use crate::text::views;

verus! {

/// The findings in the target of a place, in order, each at the path of the place and below the
/// inspector URL of its distribution, and otherwise as it is.
pub open spec fn at_place(
    findings: Seq<FindingView>,
    ids: Seq<u64>,
    inspectors: Seq<Seq<char>>,
    alias: AliasView,
) -> Seq<FindingView> {
    positions_where(ids.len(), |k: int| ids[k] == alias.target_id).map_values(
        |k: int|
            FindingView {
                path: alias.path,
                inspector_url: inspectors[alias.distribution_index as int] + alias.path,
                ..findings[k]
            },
    )
}

/// Whether a target has findings.
pub open spec fn has_findings(ids: Seq<u64>, target_id: u64) -> bool {
    exists|k: int| 0 <= k < ids.len() && #[trigger] ids[k] == target_id
}

/// Whether a place names one of the distributions, and its path and its URLs are short enough.
pub open spec fn is_good_place(inspectors: Seq<Seq<char>>, alias: AliasView) -> bool {
    &&& alias.distribution_index < inspectors.len()
    &&& encode_utf8(alias.path).len() <= 1024
    &&& encode_utf8(inspectors[alias.distribution_index as int] + alias.path).len() <= 2048
}

proof fn lemma_group_positions(findings: Seq<FindingView>, ids: Seq<u64>, target_id: u64)
    ensures
        group(findings, ids, target_id) == positions_where(
            ids.len(),
            |k: int| ids[k] == target_id,
        ).map_values(|k: int| findings[k]),
    decreases ids.len(),
{
    let here = |k: int| ids[k] == target_id;
    let pick = |k: int| findings[k];
    lemma_positions_where(0, here);
    if ids.len() > 0 {
        let before = ids.drop_last();
        let n = before.len();
        let earlier = |k: int| before[k] == target_id;
        lemma_group_positions(findings, before, target_id);
        lemma_positions_where(n, here);
        assert forall|k: int| 0 <= k < n implies #[trigger] earlier(k) == here(k) by {
            assert(before[k] == ids[k]);
        }
        lemma_same_positions(n, earlier, here);
        assert(ids[n as int] == ids.last());
        assert(group(findings, ids, target_id) =~= positions_where(ids.len(), here).map_values(
            pick,
        ));
    } else {
        assert(group(findings, ids, target_id) =~= positions_where(ids.len(), here).map_values(
            pick,
        ));
    }
}

proof fn lemma_all_relocated_or_none(
    findings: Seq<FindingView>,
    path: Seq<char>,
    base: Seq<char>,
)
    ensures
        match all_relocated(findings, path, base) {
            Ok(moved) => {
                &&& findings.len() > 0 ==> encode_utf8(path).len() <= 1024 && encode_utf8(
                    base + path,
                ).len() <= 2048
                &&& moved == findings.map_values(
                    |finding: FindingView|
                        FindingView { path, inspector_url: base + path, ..finding },
                )
            },
            Err(error) => {
                &&& findings.len() > 0
                &&& if encode_utf8(path).len() > 1024 {
                    error == ScanError::PathTooLong
                } else {
                    &&& encode_utf8(base + path).len() > 2048
                    &&& error == ScanError::InspectorUrlTooLong
                }
            },
        },
    decreases findings.len(),
{
    let place = |finding: FindingView| FindingView { path, inspector_url: base + path, ..finding };
    if findings.len() > 0 {
        lemma_all_relocated_or_none(findings.drop_last(), path, base);
        if let Ok(moved) = all_relocated(findings, path, base) {
            assert(moved =~= findings.map_values(place));
        }
    } else {
        assert(all_relocated(findings, path, base)->Ok_0 =~= findings.map_values(place));
    }
}

/// What one more place does, said of the models.
pub open spec fn is_place_step(
    done: Seq<FindingView>,
    findings: Seq<FindingView>,
    ids: Seq<u64>,
    inspectors: Seq<Seq<char>>,
    alias: AliasView,
    result: Result<Seq<FindingView>, ScanError>,
) -> bool {
    let here = at_place(findings, ids, inspectors, alias);
    if !has_findings(ids, alias.target_id) {
        result == Ok::<Seq<FindingView>, ScanError>(done)
    } else if alias.distribution_index >= inspectors.len() {
        result == Err::<Seq<FindingView>, ScanError>(ScanError::UnknownDistribution)
    } else if done.len() + here.len() > 500 {
        result == Err::<Seq<FindingView>, ScanError>(ScanError::TooManyFindings)
    } else if encode_utf8(alias.path).len() > 1024 {
        result == Err::<Seq<FindingView>, ScanError>(ScanError::PathTooLong)
    } else if encode_utf8(inspectors[alias.distribution_index as int] + alias.path).len() > 2048 {
        result == Err::<Seq<FindingView>, ScanError>(ScanError::InspectorUrlTooLong)
    } else {
        result == Ok::<Seq<FindingView>, ScanError>(done + here)
    }
}

pub proof fn lemma_with_alias(
    done: Seq<FindingView>,
    findings: Seq<FindingView>,
    ids: Seq<u64>,
    inspectors: Seq<Seq<char>>,
    alias: AliasView,
)
    ensures
        is_place_step(
            done,
            findings,
            ids,
            inspectors,
            alias,
            with_alias(done, findings, ids, inspectors, alias),
        ),
        at_place(findings, ids, inspectors, alias).len() == 0 <==> !has_findings(
            ids,
            alias.target_id,
        ),
{
    let here = |k: int| ids[k] == alias.target_id;
    let listed = positions_where(ids.len(), here);
    let base = inspectors[alias.distribution_index as int];
    let path = alias.path;
    let found = group(findings, ids, alias.target_id);
    let place = |finding: FindingView| FindingView { path, inspector_url: base + path, ..finding };
    lemma_group_positions(findings, ids, alias.target_id);
    lemma_listed_positions(ids.len(), here);
    lemma_all_relocated_or_none(found, path, base);
    if has_findings(ids, alias.target_id) {
        let k = choose|k: int| 0 <= k < ids.len() && #[trigger] ids[k] == alias.target_id;
        assert(here(k));
        assert(listed.contains(k));
    }
    if listed.len() > 0 {
        assert(here(listed[0]));
        assert(ids[listed[0]] == alias.target_id);
    }
    assert(found.map_values(place) =~= at_place(findings, ids, inspectors, alias));
}

/// One more place adds the findings in its target, all of them and nothing else, at the place. It
/// fails only where the target has findings: where the place names no distribution of the package,
/// or else where a job would report too much, or else where the path or the URL is too long.
pub proof fn law_places_get_the_findings_of_their_target(
    before: FindingExpansion,
    package: &PackageTarget,
    alias: &TargetAlias,
    result: Result<FindingExpansion, ScanError>,
)
    requires
        before.wf(),
        call_ensures(FindingExpansion::add, (before, package, alias), result),
    ensures
        ({
            let ids = before.ids();
            let inspectors = package@.inspectors;
            let listed = positions_where(ids.len(), |k: int| ids[k] == alias.target_id);
            let base = inspectors[alias.distribution_index as int];
            match result {
                Ok(next) => {
                    &&& next.wf()
                    &&& next.findings() == before.findings()
                    &&& next.ids() == before.ids()
                    &&& next.done() == before.done() + listed.map_values(
                        |k: int|
                            FindingView {
                                path: alias.path@,
                                inspector_url: base + alias.path@,
                                ..before.findings()[k]
                            },
                    )
                    &&& listed.len() > 0 ==> {
                        &&& alias.distribution_index < inspectors.len()
                        &&& next.done().len() <= 500
                        &&& encode_utf8(alias.path@).len() <= 1024
                        &&& encode_utf8(base + alias.path@).len() <= 2048
                    }
                },
                Err(error) => {
                    &&& listed.len() > 0
                    &&& error == (if alias.distribution_index >= inspectors.len() {
                        ScanError::UnknownDistribution
                    } else if before.done().len() + listed.len() > 500 {
                        ScanError::TooManyFindings
                    } else if encode_utf8(alias.path@).len() > 1024 {
                        ScanError::PathTooLong
                    } else {
                        ScanError::InspectorUrlTooLong
                    })
                    &&& error == ScanError::InspectorUrlTooLong ==> encode_utf8(
                        base + alias.path@,
                    ).len() > 2048
                },
            }
        }),
{
    let ids = before.ids();
    let here = at_place(before.findings(), ids, package@.inspectors, alias@);
    let listed = positions_where(ids.len(), |k: int| ids[k] == alias.target_id);
    let base = package@.inspectors[alias.distribution_index as int];
    lemma_with_alias(before.done(), before.findings(), ids, package@.inspectors, alias@);
    assert(here.len() == listed.len());
    assert(here =~= listed.map_values(
        |k: int|
            FindingView {
                path: alias.path@,
                inspector_url: base + alias.path@,
                ..before.findings()[k]
            },
    ));
    if here.len() == 0 {
        assert(before.done() + here =~= before.done());
    }
}

/// Whether identifiers are the targets that findings name.
pub open spec fn are_targets(findings: Seq<FindingView>, ids: Seq<u64>) -> bool {
    &&& ids.len() == findings.len()
    &&& forall|k: int|
        0 <= k < ids.len() ==> names_target(encode_utf8((#[trigger] findings[k]).path), ids[k])
}

/// Whether a finding names no target.
pub open spec fn names_none(finding: FindingView) -> bool {
    forall|target_id: u64| !#[trigger] names_target(encode_utf8(finding.path), target_id)
}

pub proof fn lemma_are_targets(findings: Seq<FindingView>, ids: Seq<u64>)
    ensures
        targets_of(findings) == Ok::<Seq<u64>, ScanError>(ids) <==> are_targets(findings, ids),
        targets_of(findings) is Err <==> exists|k: int|
            0 <= k < findings.len() && names_none(#[trigger] findings[k]),
        targets_of(findings) matches Err(error) ==> error == ScanError::InvalidTargetPath || error
            is InvalidTargetId,
    decreases findings.len(),
{
    if findings.len() > 0 {
        let before = findings.drop_last();
        let last = findings.last();
        let path = encode_utf8(last.path);
        let n = before.len() as int;
        assert(findings[n] == last);
        assert(forall|k: int| 0 <= k < n ==> before[k] == findings[k]);
        assert forall|target_id: u64| #[trigger] names_target(path, target_id) <==> target_id_of(path)
            == Ok::<u64, ScanError>(target_id) by {
            lemma_target_id_of(path, target_id);
        }
        lemma_target_id_of(path, 0);
        let shorter = if ids.len() > 0 {
            ids.drop_last()
        } else {
            ids
        };
        lemma_are_targets(before, shorter);
        if targets_of(findings) == Ok::<Seq<u64>, ScanError>(ids) {
            assert(shorter =~= targets_of(before)->Ok_0);
            assert forall|k: int| 0 <= k < ids.len() implies names_target(
                encode_utf8((#[trigger] findings[k]).path),
                ids[k],
            ) by {
                if k < n {
                    assert(names_target(encode_utf8(before[k].path), shorter[k]));
                }
            }
        }
        if are_targets(findings, ids) {
            assert forall|k: int| 0 <= k < shorter.len() implies names_target(
                encode_utf8((#[trigger] before[k]).path),
                shorter[k],
            ) by {
                assert(names_target(encode_utf8(findings[k].path), ids[k]));
            }
            assert(names_target(encode_utf8(findings[n].path), ids[n]));
            assert(targets_of(findings)->Ok_0 =~= ids);
        }
        if targets_of(findings) is Err {
            if targets_of(before) is Err {
                let k = choose|k: int| 0 <= k < before.len() && names_none(#[trigger] before[k]);
                assert(names_none(findings[k]));
            } else {
                assert(names_none(findings[n]));
            }
        }
        if exists|k: int| 0 <= k < findings.len() && names_none(#[trigger] findings[k]) {
            let k = choose|k: int| 0 <= k < findings.len() && names_none(#[trigger] findings[k]);
            if k < n {
                assert(names_none(before[k]));
            } else if let Ok(target_id) = target_id_of(path) {
                assert(names_target(path, target_id));
            }
        }
    } else {
        assert(targets_of(findings)->Ok_0 =~= Seq::<u64>::empty());
        if are_targets(findings, ids) {
            assert(ids =~= Seq::<u64>::empty());
        }
    }
}

/// Findings can be expanded just where each of them names a target; the targets are those that they
/// name, and no place has a finding yet.
pub proof fn law_expansions_start_with_the_targets(
    findings: Vec<OpenGrepFinding>,
    result: Result<FindingExpansion, ScanError>,
)
    requires
        call_ensures(FindingExpansion::new, (findings,), result),
    ensures
        match result {
            Ok(expansion) => {
                &&& expansion.wf()
                &&& expansion.findings() == views(findings@)
                &&& are_targets(views(findings@), expansion.ids())
                &&& expansion.done().len() == 0
            },
            Err(error) => {
                &&& exists|k: int| 0 <= k < findings@.len() && names_none((#[trigger] findings@[k])@)
                &&& error == ScanError::InvalidTargetPath || error is InvalidTargetId
            },
        },
{
    let all = views(findings@);
    match result {
        Ok(expansion) => {
            lemma_are_targets(all, expansion.ids());
        },
        Err(_) => {
            lemma_are_targets(all, Seq::empty());
            let k = choose|k: int| 0 <= k < all.len() && names_none(#[trigger] all[k]);
            assert(names_none(findings@[k]@));
        },
    }
}

/// An expansion ends with what its places have got.
pub proof fn law_expansions_end_with_all_places(
    expansion: FindingExpansion,
    expanded: Vec<OpenGrepFinding>,
    empty: bool,
)
    requires
        expansion.wf(),
        call_ensures(FindingExpansion::finish, (expansion,), expanded),
        call_ensures(FindingExpansion::is_empty, (&expansion,), empty),
    ensures
        views(expanded@) == expansion.done(),
        expanded@.len() <= 500,
        empty <==> expansion.findings().len() == 0,
{
}

/// The findings in all places, in the order of the places.
pub open spec fn at_places(
    findings: Seq<FindingView>,
    ids: Seq<u64>,
    inspectors: Seq<Seq<char>>,
    aliases: Seq<AliasView>,
) -> Seq<FindingView> {
    Seq::new(aliases.len(), |a: int| at_place(findings, ids, inspectors, aliases[a])).flatten()
}

proof fn lemma_at_places(
    findings: Seq<FindingView>,
    ids: Seq<u64>,
    inspectors: Seq<Seq<char>>,
    aliases: Seq<AliasView>,
)
    requires
        aliases.len() > 0,
    ensures
        at_places(findings, ids, inspectors, aliases) == at_places(
            findings,
            ids,
            inspectors,
            aliases.drop_last(),
        ) + at_place(findings, ids, inspectors, aliases.last()),
{
    let before = aliases.drop_last();
    let lists = Seq::new(before.len(), |a: int| at_place(findings, ids, inspectors, before[a]));
    let last = at_place(findings, ids, inspectors, aliases.last());
    lists.lemma_flatten_push(last);
    assert(lists.push(last) =~= Seq::new(
        aliases.len(),
        |a: int| at_place(findings, ids, inspectors, aliases[a]),
    ));
}

/// Whether every place of a target with findings is good.
pub open spec fn are_good_places(
    ids: Seq<u64>,
    inspectors: Seq<Seq<char>>,
    aliases: Seq<AliasView>,
) -> bool {
    forall|a: int|
        0 <= a < aliases.len() && has_findings(ids, (#[trigger] aliases[a]).target_id)
            ==> is_good_place(inspectors, aliases[a])
}

pub proof fn lemma_with_aliases(
    findings: Seq<FindingView>,
    ids: Seq<u64>,
    inspectors: Seq<Seq<char>>,
    aliases: Seq<AliasView>,
)
    ensures
        ({
            let all = at_places(findings, ids, inspectors, aliases);
            match with_aliases(findings, ids, inspectors, aliases) {
                Ok(out) => {
                    &&& out == all
                    &&& all.len() <= 500
                    &&& are_good_places(ids, inspectors, aliases)
                },
                Err(error) => {
                    &&& all.len() > 500 || !are_good_places(ids, inspectors, aliases)
                    &&& error == ScanError::UnknownDistribution ==> exists|a: int|
                        {
                            &&& 0 <= a < aliases.len()
                            &&& has_findings(ids, (#[trigger] aliases[a]).target_id)
                            &&& aliases[a].distribution_index >= inspectors.len()
                        }
                    &&& error == ScanError::TooManyFindings ==> all.len() > 500
                    &&& {
                        ||| error == ScanError::UnknownDistribution
                        ||| error == ScanError::TooManyFindings
                        ||| error == ScanError::PathTooLong
                        ||| error == ScanError::InspectorUrlTooLong
                    }
                },
            }
        }),
    decreases aliases.len(),
{
    let all = at_places(findings, ids, inspectors, aliases);
    if aliases.len() > 0 {
        let before = aliases.drop_last();
        let last = aliases.last();
        let n = before.len() as int;
        lemma_with_aliases(findings, ids, inspectors, before);
        lemma_at_places(findings, ids, inspectors, aliases);
        assert(aliases[n] == last);
        assert(forall|a: int| 0 <= a < n ==> before[a] == aliases[a]);
        match with_aliases(findings, ids, inspectors, before) {
            Ok(done) => {
                lemma_with_alias(done, findings, ids, inspectors, last);
                assert(done + at_place(findings, ids, inspectors, last) =~= all);
                if let Ok(out) = with_aliases(findings, ids, inspectors, aliases) {
                    assert forall|a: int|
                        0 <= a < aliases.len() && has_findings(
                            ids,
                            (#[trigger] aliases[a]).target_id,
                        ) implies is_good_place(inspectors, aliases[a]) by {
                        if a < n {
                            assert(is_good_place(inspectors, before[a]));
                        }
                    }
                    assert(out =~= all);
                }
            },
            Err(error) => {
                if !are_good_places(ids, inspectors, before) {
                    let a = choose|a: int|
                        0 <= a < before.len() && has_findings(
                            ids,
                            (#[trigger] before[a]).target_id,
                        ) && !is_good_place(inspectors, before[a]);
                    assert(!is_good_place(inspectors, aliases[a]));
                }
                if error == ScanError::UnknownDistribution {
                    let a = choose|a: int|
                        {
                            &&& 0 <= a < before.len()
                            &&& has_findings(ids, (#[trigger] before[a]).target_id)
                            &&& before[a].distribution_index >= inspectors.len()
                        };
                    assert(has_findings(ids, aliases[a].target_id));
                }
            },
        }
    } else {
        assert(Seq::new(aliases.len(), |a: int| at_place(findings, ids, inspectors, aliases[a]))
            =~= Seq::<Seq<FindingView>>::empty());
        assert(all =~= Seq::<FindingView>::empty());
    }
}

/// Expanding succeeds wherever every finding names a target, every place of a target with findings
/// names one of the distributions of the package, the paths and the URLs there are short enough, and
/// there are not too many findings in all. It then gives the findings in all places, in the order of
/// the places. It says that a distribution is unknown only where a place of a target with findings
/// names none of the package.
pub proof fn law_expansion_succeeds_where_it_can(
    package: &PackageTarget,
    findings: Vec<OpenGrepFinding>,
    aliases: &[TargetAlias],
    ids: Seq<u64>,
    result: Result<Vec<OpenGrepFinding>, ScanError>,
)
    requires
        are_targets(views(findings@), ids),
        call_ensures(PackageTarget::expand_findings, (package, findings, aliases), result),
    ensures
        ({
            let inspectors = package@.inspectors;
            let places = views(aliases@);
            let all = at_places(views(findings@), ids, inspectors, places);
            &&& result is Ok <==> all.len() <= 500 && are_good_places(ids, inspectors, places)
            &&& result matches Ok(out) ==> views(out@) == all
            &&& result matches Err(error) ==> {
                &&& error == ScanError::UnknownDistribution ==> exists|a: int|
                    {
                        &&& 0 <= a < places.len()
                        &&& has_findings(ids, (#[trigger] places[a]).target_id)
                        &&& places[a].distribution_index >= inspectors.len()
                    }
                &&& error == ScanError::TooManyFindings ==> all.len() > 500
                &&& {
                    ||| error == ScanError::UnknownDistribution
                    ||| error == ScanError::TooManyFindings
                    ||| error == ScanError::PathTooLong
                    ||| error == ScanError::InspectorUrlTooLong
                }
            }
        }),
{
    lemma_are_targets(views(findings@), ids);
    lemma_with_aliases(views(findings@), ids, package@.inspectors, views(aliases@));
}

/// Expanding fails where a finding names no target.
pub proof fn law_expansion_needs_targets(
    package: &PackageTarget,
    findings: Vec<OpenGrepFinding>,
    aliases: &[TargetAlias],
    k: int,
    result: Result<Vec<OpenGrepFinding>, ScanError>,
)
    requires
        0 <= k < findings@.len(),
        names_none(findings@[k]@),
        call_ensures(PackageTarget::expand_findings, (package, findings, aliases), result),
    ensures
        result matches Err(error) && (error == ScanError::InvalidTargetPath || error
            is InvalidTargetId),
{
    let all = views(findings@);
    assert(names_none(all[k]));
    lemma_are_targets(all, Seq::empty());
}

} // verus!
