//! What holds of the worker as a whole.

use vstd::arithmetic::div_mod::{lemma_fundamental_div_mod, lemma_fundamental_div_mod_converse};
use vstd::prelude::*;
use vstd::utf8::*;

use crate::engine::{
    all_normalized, description, fatal_errors, means, recoverable, scanned_set, warnings_of,
    OpenGrepDocument, OpenGrepRun, ReportedError,
};
use crate::error::{Deadline, ScanError, MAX_FINDINGS};
use crate::expansion::{
    all_relocated, expansion, group, lemma_all_relocated, lemma_targets_of, targets_of, with_alias,
    with_aliases,
};
use crate::findings::{
    contents_of, normalized, placeless, relocated, RawFinding, MAX_INSPECTOR_URL_BYTES,
    MAX_MESSAGE_BYTES,
};
use crate::identities::{distinct, lemma_map_of, map_of};
use crate::identity::IdentityView;
use crate::models::{CacheStats, FindingView};
use crate::order::lemma_mapped_multisets;
use crate::package::{
    admission, identity_of, ids_unique, in_path_order, is_plan, lemma_committed, lemma_numbering,
    lemma_pending_with, lemma_plan_of, plan_of, planned_aliases, repeated_files, with_distribution,
    with_file, AliasView, PackageView, PlanView, PlannedTarget, SourceFile,
};
use crate::paths::{
    has_root, law_safe_paths_stay_below, law_target_id_round_trip, law_target_path_is_relative,
    name_at, names, names_below, path_extension, path_in, plain_relative, reported_path, stripped,
    target_id_of, target_name, target_path_in, with_slashes, DOT, MAX_PATH_BYTES,
};
use crate::reuse::{
    after_step, at_path, considered, counted, findings_in, fresh_of, is_keep_step, is_mismatch,
    pending_bytes, rejected, with_engine, FreshView, KeepStep, KeptView, LookUp, PendingView,
    PreparedView,
};
use crate::rules::safe_corpus;
use crate::scan::{is_due, is_group_step, no_group, rest_left, with_entry, GroupedView};
use crate::text::views;

verus! {

/// Whether a planned target stands for the files with an identity.
pub open spec fn stands_for(
    known: Map<IdentityView, u64>,
    pending: Seq<(IdentityView, Seq<u8>)>,
    target: PlannedTarget,
    identity: IdentityView,
) -> bool {
    match target {
        PlannedTarget::Existing(target_id) => known.contains_key(identity) && known[identity]
            == target_id,
        PlannedTarget::Pending(k) => k < pending.len() && pending[k as int].0 == identity,
    }
}

/// Whether a file of a distribution is taken under a path.
pub open spec fn taken_as(
    file: SourceFile,
    source_directory: Seq<u8>,
    max_scan_size: u64,
    path: Seq<char>,
) -> bool {
    admission(file.path@, source_directory, file.size, max_scan_size) == Ok::<
        Option<Seq<char>>,
        ScanError,
    >(Some(path))
}

proof fn lemma_plan_covers(
    known: Map<IdentityView, u64>,
    files: Seq<SourceFile>,
    directory: Seq<u8>,
    max_scan_size: u64,
    deadline: u128,
    plan: PlanView,
)
    requires
        files.len() <= usize::MAX,
        plan_of(known, files, directory, max_scan_size, deadline) == Ok::<PlanView, ScanError>(plan),
    ensures
        forall|i: int, path: Seq<char>|
            0 <= i < files.len() && #[trigger] taken_as(files[i], directory, max_scan_size, path)
                ==> exists|j: int|
                {
                    &&& 0 <= j < plan.aliases.len()
                    &&& (#[trigger] plan.aliases[j]).1 == path
                    &&& stands_for(known, plan.pending, plan.aliases[j].0, identity_of(files[i]))
                },
        forall|j: int|
            0 <= j < plan.aliases.len() ==> exists|i: int|
                {
                    &&& 0 <= i < files.len()
                    &&& taken_as(
                        #[trigger] files[i],
                        directory,
                        max_scan_size,
                        (#[trigger] plan.aliases[j]).1,
                    )
                    &&& stands_for(known, plan.pending, plan.aliases[j].0, identity_of(files[i]))
                },
    decreases files.len(),
{
    if files.len() > 0 {
        let before = files.drop_last();
        let file = files.last();
        let earlier = plan_of(known, before, directory, max_scan_size, deadline)->Ok_0;
        lemma_plan_of(known, before, directory, max_scan_size, deadline);
        lemma_plan_covers(known, before, directory, max_scan_size, deadline, earlier);
        lemma_pending_with(earlier.pending, identity_of(file));
        let n = earlier.aliases.len() as int;
        assert(forall|j: int| 0 <= j < n ==> plan.aliases[j] == earlier.aliases[j]);
        assert(forall|k: int|
            0 <= k < earlier.pending.len() ==> plan.pending[k] == earlier.pending[k]);
        assert forall|i: int, path: Seq<char>|
            0 <= i < files.len() && #[trigger] taken_as(
                files[i],
                directory,
                max_scan_size,
                path,
            ) implies exists|j: int|
            {
                &&& 0 <= j < plan.aliases.len()
                &&& (#[trigger] plan.aliases[j]).1 == path
                &&& stands_for(known, plan.pending, plan.aliases[j].0, identity_of(files[i]))
            } by {
            if i < before.len() {
                assert(before[i] == files[i]);
                assert(taken_as(before[i], directory, max_scan_size, path));
                let j = choose|j: int|
                    {
                        &&& 0 <= j < earlier.aliases.len()
                        &&& (#[trigger] earlier.aliases[j]).1 == path
                        &&& stands_for(
                            known,
                            earlier.pending,
                            earlier.aliases[j].0,
                            identity_of(before[i]),
                        )
                    };
                assert(plan.aliases[j].1 == path);
                assert(stands_for(known, plan.pending, plan.aliases[j].0, identity_of(files[i])));
            } else {
                assert(plan.aliases[n].1 == path);
                assert(stands_for(known, plan.pending, plan.aliases[n].0, identity_of(file)));
            }
        }
        assert forall|j: int| 0 <= j < plan.aliases.len() implies exists|i: int|
            {
                &&& 0 <= i < files.len()
                &&& taken_as(
                    #[trigger] files[i],
                    directory,
                    max_scan_size,
                    (#[trigger] plan.aliases[j]).1,
                )
                &&& stands_for(known, plan.pending, plan.aliases[j].0, identity_of(files[i]))
            } by {
            if j < n {
                let i = choose|i: int|
                    {
                        &&& 0 <= i < before.len()
                        &&& taken_as(
                            #[trigger] before[i],
                            directory,
                            max_scan_size,
                            earlier.aliases[j].1,
                        )
                        &&& stands_for(
                            known,
                            earlier.pending,
                            earlier.aliases[j].0,
                            identity_of(before[i]),
                        )
                    };
                assert(files[i] == before[i]);
                assert(stands_for(known, plan.pending, plan.aliases[j].0, identity_of(files[i])));
            } else {
                assert(files[files.len() - 1] == file);
                assert(taken_as(file, directory, max_scan_size, plan.aliases[j].1));
                assert(stands_for(known, plan.pending, plan.aliases[j].0, identity_of(file)));
            }
        }
    }
}

proof fn lemma_every_file_has_its_target(
    package: PackageView,
    files: Seq<SourceFile>,
    source_directory: Seq<u8>,
    max_scan_size: u64,
    deadline: u128,
    plan: PlanView,
    inspector: Seq<char>,
)
    requires
        files.len() <= usize::MAX,
        plan_of(package.identities, files, source_directory, max_scan_size, deadline) == Ok::<
            PlanView,
            ScanError,
        >(plan),
        package.next_target_id + plan.pending.len() <= u64::MAX,
    ensures
        ({
            let next = with_distribution(package, plan, inspector, plan.pending.len() as int);
            let aliases = planned_aliases(package, plan);
            &&& forall|i: int, path: Seq<char>|
                0 <= i < files.len() && #[trigger] taken_as(
                    files[i],
                    source_directory,
                    max_scan_size,
                    path,
                ) ==> {
                    &&& next.identities.contains_key(identity_of(files[i]))
                    &&& exists|j: int|
                        {
                            &&& 0 <= j < aliases.len()
                            &&& (#[trigger] aliases[j]).path == path
                            &&& aliases[j].target_id == next.identities[identity_of(files[i])]
                        }
                }
            &&& forall|j: int|
                0 <= j < aliases.len() ==> exists|i: int|
                    {
                        &&& 0 <= i < files.len()
                        &&& taken_as(
                            #[trigger] files[i],
                            source_directory,
                            max_scan_size,
                            (#[trigger] aliases[j]).path,
                        )
                        &&& next.identities.contains_key(identity_of(files[i]))
                        &&& next.identities[identity_of(files[i])] == aliases[j].target_id
                    }
            &&& forall|identity: IdentityView| #[trigger]
                package.identities.contains_key(identity) ==> {
                    &&& next.identities.contains_key(identity)
                    &&& next.identities[identity] == package.identities[identity]
                }
        }),
{
    let known = package.identities;
    let first = package.next_target_id;
    let next = with_distribution(package, plan, inspector, plan.pending.len() as int);
    let aliases = planned_aliases(package, plan);
    assert(plan.pending.take(plan.pending.len() as int) =~= plan.pending);
    lemma_plan_of(known, files, source_directory, max_scan_size, deadline);
    lemma_plan_covers(known, files, source_directory, max_scan_size, deadline, plan);
    lemma_numbering(known, plan.pending, first);
    assert forall|j: int, identity: IdentityView|
        0 <= j < plan.aliases.len() && #[trigger] stands_for(
            known,
            plan.pending,
            plan.aliases[j].0,
            identity,
        ) implies next.identities.contains_key(identity) && next.identities[identity]
        == aliases[j].target_id by {
        match plan.aliases[j].0 {
            PlannedTarget::Existing(target_id) => {},
            PlannedTarget::Pending(k) => {
                assert(plan.pending[k as int].0 == identity);
            },
        }
    }
    assert forall|i: int, path: Seq<char>|
        0 <= i < files.len() && #[trigger] taken_as(
            files[i],
            source_directory,
            max_scan_size,
            path,
        ) implies next.identities.contains_key(identity_of(files[i])) && exists|j: int|
        {
            &&& 0 <= j < aliases.len()
            &&& (#[trigger] aliases[j]).path == path
            &&& aliases[j].target_id == next.identities[identity_of(files[i])]
        } by {
        let j = choose|j: int|
            {
                &&& 0 <= j < plan.aliases.len()
                &&& (#[trigger] plan.aliases[j]).1 == path
                &&& stands_for(known, plan.pending, plan.aliases[j].0, identity_of(files[i]))
            };
        assert(aliases[j].path == path);
    }
    assert forall|j: int| 0 <= j < aliases.len() implies exists|i: int|
        {
            &&& 0 <= i < files.len()
            &&& taken_as(
                #[trigger] files[i],
                source_directory,
                max_scan_size,
                (#[trigger] aliases[j]).path,
            )
            &&& next.identities.contains_key(identity_of(files[i]))
            &&& next.identities[identity_of(files[i])] == aliases[j].target_id
        } by {
        let i = choose|i: int|
            {
                &&& 0 <= i < files.len()
                &&& taken_as(
                    #[trigger] files[i],
                    source_directory,
                    max_scan_size,
                    plan.aliases[j].1,
                )
                &&& stands_for(known, plan.pending, plan.aliases[j].0, identity_of(files[i]))
            };
        assert(taken_as(files[i], source_directory, max_scan_size, aliases[j].path));
    }
}

proof fn lemma_same_files(order: Seq<SourceFile>, files: Seq<SourceFile>)
    requires
        in_path_order(order, files),
    ensures
        order.len() == files.len(),
        forall|i: int| 0 <= i < files.len() ==> order.contains(#[trigger] files[i]),
        forall|i: int| 0 <= i < order.len() ==> files.contains(#[trigger] order[i]),
{
    broadcast use vstd::seq_lib::group_to_multiset_ensures;

    assert(order.to_multiset().len() == order.len());
    assert(files.to_multiset().len() == files.len());
    assert forall|i: int| 0 <= i < files.len() implies order.contains(#[trigger] files[i]) by {
        assert(files.contains(files[i]));
        assert(files.to_multiset().count(files[i]) > 0);
    }
    assert forall|i: int| 0 <= i < order.len() implies files.contains(#[trigger] order[i]) by {
        assert(order.contains(order[i]));
        assert(order.to_multiset().count(order[i]) > 0);
    }
}

/// A file that is taken into a package has a target: once its distribution is added, the package
/// has a target for the identity of the file, and the manifest has the path of the file under that
/// target. Nothing else is put into the manifest, and earlier targets keep their identifiers.
#[verifier::spinoff_prover]
#[verifier::rlimit(40)]
pub proof fn law_every_file_has_its_target(
    package: PackageView,
    files: Seq<SourceFile>,
    source_directory: Seq<u8>,
    max_scan_size: u64,
    deadline: u128,
    plan: PlanView,
    inspector: Seq<char>,
)
    requires
        files.len() <= usize::MAX,
        is_plan(
            package.identities,
            files,
            source_directory,
            max_scan_size,
            deadline,
            Ok(plan),
        ),
        package.next_target_id + plan.pending.len() <= u64::MAX,
    ensures
        ({
            let next = with_distribution(package, plan, inspector, plan.pending.len() as int);
            let aliases = planned_aliases(package, plan);
            &&& forall|i: int, path: Seq<char>|
                0 <= i < files.len() && #[trigger] taken_as(
                    files[i],
                    source_directory,
                    max_scan_size,
                    path,
                ) ==> {
                    &&& next.identities.contains_key(identity_of(files[i]))
                    &&& exists|j: int|
                        {
                            &&& 0 <= j < aliases.len()
                            &&& (#[trigger] aliases[j]).path == path
                            &&& aliases[j].target_id == next.identities[identity_of(files[i])]
                        }
                }
            &&& forall|j: int|
                0 <= j < aliases.len() ==> exists|i: int|
                    {
                        &&& 0 <= i < files.len()
                        &&& taken_as(
                            #[trigger] files[i],
                            source_directory,
                            max_scan_size,
                            (#[trigger] aliases[j]).path,
                        )
                        &&& next.identities.contains_key(identity_of(files[i]))
                        &&& next.identities[identity_of(files[i])] == aliases[j].target_id
                    }
            &&& forall|identity: IdentityView| #[trigger]
                package.identities.contains_key(identity) ==> {
                    &&& next.identities.contains_key(identity)
                    &&& next.identities[identity] == package.identities[identity]
                }
        }),
{
    let order = choose|order: Seq<SourceFile>|
        {
            &&& #[trigger] in_path_order(order, files)
            &&& plan_of(package.identities, order, source_directory, max_scan_size, deadline)
                == Ok::<PlanView, ScanError>(plan)
        };
    lemma_same_files(order, files);
    lemma_every_file_has_its_target(
        package,
        order,
        source_directory,
        max_scan_size,
        deadline,
        plan,
        inspector,
    );
    let next = with_distribution(package, plan, inspector, plan.pending.len() as int);
    let aliases = planned_aliases(package, plan);
    assert forall|i: int, path: Seq<char>|
        0 <= i < files.len() && #[trigger] taken_as(
            files[i],
            source_directory,
            max_scan_size,
            path,
        ) implies next.identities.contains_key(identity_of(files[i])) && exists|j: int|
        {
            &&& 0 <= j < aliases.len()
            &&& (#[trigger] aliases[j]).path == path
            &&& aliases[j].target_id == next.identities[identity_of(files[i])]
        } by {
        assert(order.contains(files[i]));
        let k = choose|k: int| 0 <= k < order.len() && order[k] == files[i];
        assert(taken_as(order[k], source_directory, max_scan_size, path));
    }
    assert forall|j: int| 0 <= j < aliases.len() implies exists|i: int|
        {
            &&& 0 <= i < files.len()
            &&& taken_as(
                #[trigger] files[i],
                source_directory,
                max_scan_size,
                (#[trigger] aliases[j]).path,
            )
            &&& next.identities.contains_key(identity_of(files[i]))
            &&& next.identities[identity_of(files[i])] == aliases[j].target_id
        } by {
        let k = choose|k: int|
            {
                &&& 0 <= k < order.len()
                &&& taken_as(
                    #[trigger] order[k],
                    source_directory,
                    max_scan_size,
                    aliases[j].path,
                )
                &&& next.identities.contains_key(identity_of(order[k]))
                &&& next.identities[identity_of(order[k])] == aliases[j].target_id
            };
        assert(files.contains(order[k]));
        let i = choose|i: int| 0 <= i < files.len() && files[i] == order[k];
        assert(taken_as(files[i], source_directory, max_scan_size, aliases[j].path));
    }
}

/// A package has one target for every distinct file: it stays so when a distribution is added, two
/// files that are taken have the same target just where they have the same identity, and every file
/// is a target of its own or counted as a repetition.
pub proof fn law_one_target_per_identity(
    package: PackageView,
    files: Seq<SourceFile>,
    source_directory: Seq<u8>,
    max_scan_size: u64,
    deadline: u128,
    plan: PlanView,
    inspector: Seq<char>,
)
    requires
        files.len() <= usize::MAX,
        ids_unique(package),
        is_plan(
            package.identities,
            files,
            source_directory,
            max_scan_size,
            deadline,
            Ok(plan),
        ),
        package.next_target_id + plan.pending.len() <= u64::MAX,
    ensures
        ({
            let next = with_distribution(package, plan, inspector, plan.pending.len() as int);
            &&& ids_unique(next)
            &&& forall|i: int, j: int, left: Seq<char>, right: Seq<char>|
                {
                    &&& 0 <= i < files.len()
                    &&& 0 <= j < files.len()
                    &&& #[trigger] taken_as(files[i], source_directory, max_scan_size, left)
                    &&& #[trigger] taken_as(files[j], source_directory, max_scan_size, right)
                } ==> (next.identities[identity_of(files[i])] == next.identities[identity_of(
                    files[j],
                )] <==> identity_of(files[i]) == identity_of(files[j]))
            &&& plan.pending.len() + repeated_files(plan) == plan.aliases.len()
        }),
{
    let order = choose|order: Seq<SourceFile>|
        {
            &&& #[trigger] in_path_order(order, files)
            &&& plan_of(package.identities, order, source_directory, max_scan_size, deadline)
                == Ok::<PlanView, ScanError>(plan)
        };
    lemma_same_files(order, files);
    lemma_plan_of(package.identities, order, source_directory, max_scan_size, deadline);
    lemma_committed(package, plan, inspector, plan.pending.len() as int);
    law_every_file_has_its_target(
        package,
        files,
        source_directory,
        max_scan_size,
        deadline,
        plan,
        inspector,
    );
}

/// A finding in a canonical target, in one of the places of the target.
pub open spec fn placed(
    finding: FindingView,
    alias: AliasView,
    inspectors: Seq<Seq<char>>,
) -> FindingView {
    FindingView {
        path: alias.path,
        inspector_url: inspectors[alias.distribution_index as int] + alias.path,
        ..finding
    }
}

proof fn lemma_group_has(findings: Seq<FindingView>, ids: Seq<u64>, target_id: u64, k: int)
    requires
        0 <= k < ids.len(),
        ids[k] == target_id,
    ensures
        group(findings, ids, target_id).contains(findings[k]),
    decreases ids.len(),
{
    let shorter = ids.drop_last();
    let before = group(findings, shorter, target_id);
    let all = group(findings, ids, target_id);
    if k < shorter.len() {
        assert(shorter[k] == target_id);
        lemma_group_has(findings, shorter, target_id, k);
        let g = choose|g: int| 0 <= g < before.len() && before[g] == findings[k];
        assert(all[g] == findings[k]);
    } else {
        assert(all[before.len() as int] == findings[k]);
    }
}

proof fn lemma_group_only_has(
    findings: Seq<FindingView>,
    ids: Seq<u64>,
    target_id: u64,
    g: int,
) -> (k: int)
    requires
        0 <= g < group(findings, ids, target_id).len(),
    ensures
        0 <= k < ids.len(),
        ids[k] == target_id,
        findings[k] == group(findings, ids, target_id)[g],
    decreases ids.len(),
{
    let shorter = ids.drop_last();
    let before = group(findings, shorter, target_id);
    if g < before.len() {
        let k = lemma_group_only_has(findings, shorter, target_id, g);
        assert(ids[k] == shorter[k]);
        k
    } else {
        ids.len() - 1
    }
}

/// Whether the k-th finding is in the target of the a-th place, and this is what it is there.
pub open spec fn comes_from(
    finding: FindingView,
    findings: Seq<FindingView>,
    ids: Seq<u64>,
    inspectors: Seq<Seq<char>>,
    aliases: Seq<AliasView>,
    a: int,
    k: int,
) -> bool {
    &&& 0 <= a < aliases.len()
    &&& 0 <= k < ids.len()
    &&& ids[k] == aliases[a].target_id
    &&& aliases[a].distribution_index < inspectors.len()
    &&& finding == placed(findings[k], aliases[a], inspectors)
}

/// Whether a finding is what one of the findings is in one of the places.
pub open spec fn comes_from_a_target(
    finding: FindingView,
    findings: Seq<FindingView>,
    ids: Seq<u64>,
    inspectors: Seq<Seq<char>>,
    aliases: Seq<AliasView>,
) -> bool {
    exists|a: int, k: int| #[trigger]
        comes_from(finding, findings, ids, inspectors, aliases, a, k)
}

proof fn lemma_all_are_placed(
    findings: Seq<FindingView>,
    ids: Seq<u64>,
    inspectors: Seq<Seq<char>>,
    aliases: Seq<AliasView>,
    out: Seq<FindingView>,
    a: int,
    k: int,
)
    requires
        with_aliases(findings, ids, inspectors, aliases) == Ok::<Seq<FindingView>, ScanError>(out),
        0 <= a < aliases.len(),
        0 <= k < ids.len(),
        ids[k] == aliases[a].target_id,
    ensures
        aliases[a].distribution_index < inspectors.len(),
        out.contains(placed(findings[k], aliases[a], inspectors)),
    decreases aliases.len(),
{
    let shorter = aliases.drop_last();
    let alias = aliases.last();
    let done = with_aliases(findings, ids, inspectors, shorter)->Ok_0;
    let wanted = placed(findings[k], aliases[a], inspectors);
    let here = group(findings, ids, alias.target_id);
    let base = inspectors[alias.distribution_index as int];
    if a < shorter.len() {
        assert(shorter[a] == aliases[a]);
        lemma_all_are_placed(findings, ids, inspectors, shorter, done, a, k);
        let o = choose|o: int| 0 <= o < done.len() && done[o] == wanted;
        assert(out[o] == wanted);
    } else {
        lemma_group_has(findings, ids, alias.target_id, k);
        lemma_all_relocated(here, alias.path, base);
        let g = choose|g: int| 0 <= g < here.len() && here[g] == findings[k];
        assert(relocated(here[g], alias.path, base) is Ok);
        assert(out[done.len() + g] == wanted);
    }
}

proof fn lemma_none_else_is_placed(
    findings: Seq<FindingView>,
    ids: Seq<u64>,
    inspectors: Seq<Seq<char>>,
    aliases: Seq<AliasView>,
    out: Seq<FindingView>,
    o: int,
)
    requires
        with_aliases(findings, ids, inspectors, aliases) == Ok::<Seq<FindingView>, ScanError>(out),
        0 <= o < out.len(),
    ensures
        comes_from_a_target(out[o], findings, ids, inspectors, aliases),
    decreases aliases.len(),
{
    let shorter = aliases.drop_last();
    let alias = aliases.last();
    let done = with_aliases(findings, ids, inspectors, shorter)->Ok_0;
    let here = group(findings, ids, alias.target_id);
    let base = inspectors[alias.distribution_index as int];
    if o < done.len() {
        assert(out[o] == done[o]);
        lemma_none_else_is_placed(findings, ids, inspectors, shorter, done, o);
        let (a, k) = choose|a: int, k: int| #[trigger]
            comes_from(out[o], findings, ids, inspectors, shorter, a, k);
        assert(aliases[a] == shorter[a]);
        assert(comes_from(out[o], findings, ids, inspectors, aliases, a, k));
    } else {
        let g = o - done.len();
        lemma_all_relocated(here, alias.path, base);
        let k = lemma_group_only_has(findings, ids, alias.target_id, g);
        assert(relocated(here[g], alias.path, base) is Ok);
        assert(comes_from(out[o], findings, ids, inspectors, aliases, aliases.len() - 1, k));
    }
}

proof fn lemma_placed_bound(
    findings: Seq<FindingView>,
    ids: Seq<u64>,
    inspectors: Seq<Seq<char>>,
    aliases: Seq<AliasView>,
)
    ensures
        with_aliases(findings, ids, inspectors, aliases) matches Ok(out) ==> out.len()
            <= MAX_FINDINGS,
    decreases aliases.len(),
{
    if aliases.len() > 0 {
        let alias = aliases.last();
        lemma_placed_bound(findings, ids, inspectors, aliases.drop_last());
        lemma_all_relocated(
            group(findings, ids, alias.target_id),
            alias.path,
            inspectors[alias.distribution_index as int],
        );
    }
}

/// Expanding findings gives every finding in a canonical target in every place of the target, with
/// the path and the inspector URL of the place and otherwise unchanged. It gives nothing else, and
/// no more than a job may report.
pub proof fn law_expansion_is_exact(
    findings: Seq<FindingView>,
    ids: Seq<u64>,
    inspectors: Seq<Seq<char>>,
    aliases: Seq<AliasView>,
    out: Seq<FindingView>,
)
    requires
        targets_of(findings) == Ok::<Seq<u64>, ScanError>(ids),
        expansion(findings, inspectors, aliases) == Ok::<Seq<FindingView>, ScanError>(out),
    ensures
        forall|a: int, k: int|
            {
                &&& 0 <= a < aliases.len()
                &&& 0 <= k < findings.len()
                &&& #[trigger] ids[k] == (#[trigger] aliases[a]).target_id
            } ==> {
                &&& aliases[a].distribution_index < inspectors.len()
                &&& out.contains(placed(findings[k], aliases[a], inspectors))
            },
        forall|o: int|
            0 <= o < out.len() ==> comes_from_a_target(
                #[trigger] out[o],
                findings,
                ids,
                inspectors,
                aliases,
            ),
        out.len() <= MAX_FINDINGS,
{
    lemma_targets_of(findings);
    assert forall|a: int, k: int|
        {
            &&& 0 <= a < aliases.len()
            &&& 0 <= k < findings.len()
            &&& #[trigger] ids[k] == (#[trigger] aliases[a]).target_id
        } implies {
        &&& aliases[a].distribution_index < inspectors.len()
        &&& out.contains(placed(findings[k], aliases[a], inspectors))
    } by {
        lemma_all_are_placed(findings, ids, inspectors, aliases, out, a, k);
    }
    assert forall|o: int| 0 <= o < out.len() implies comes_from_a_target(
        #[trigger] out[o],
        findings,
        ids,
        inspectors,
        aliases,
    ) by {
        lemma_none_else_is_placed(findings, ids, inspectors, aliases, out, o);
    }
    lemma_placed_bound(findings, ids, inspectors, aliases);
}

proof fn lemma_place_of_file(
    package: PackageView,
    files: Seq<SourceFile>,
    directory: Seq<u8>,
    max_scan_size: u64,
    deadline: u128,
    plan: PlanView,
    inspector: Seq<char>,
    i: int,
    path: Seq<char>,
) -> (j: int)
    requires
        files.len() <= usize::MAX,
        is_plan(
            package.identities,
            files,
            directory,
            max_scan_size,
            deadline,
            Ok(plan),
        ),
        package.next_target_id + plan.pending.len() <= u64::MAX,
        0 <= i < files.len(),
        taken_as(files[i], directory, max_scan_size, path),
    ensures
        0 <= j < planned_aliases(package, plan).len(),
        planned_aliases(package, plan)[j].path == path,
        planned_aliases(package, plan)[j].target_id == with_distribution(
            package,
            plan,
            inspector,
            plan.pending.len() as int,
        ).identities[identity_of(files[i])],
{
    let next = with_distribution(package, plan, inspector, plan.pending.len() as int);
    let aliases = planned_aliases(package, plan);
    law_every_file_has_its_target(
        package,
        files,
        directory,
        max_scan_size,
        deadline,
        plan,
        inspector,
    );
    choose|j: int|
        {
            &&& 0 <= j < aliases.len()
            &&& (#[trigger] aliases[j]).path == path
            &&& aliases[j].target_id == next.identities[identity_of(files[i])]
        }
}

/// Putting findings into one place after another is expanding them: the next place adds to what
/// the places before it gave.
pub proof fn law_places_are_added_one_by_one(
    findings: Seq<FindingView>,
    inspectors: Seq<Seq<char>>,
    aliases: Seq<AliasView>,
    alias: AliasView,
)
    requires
        targets_of(findings) is Ok,
    ensures
        expansion(findings, inspectors, Seq::empty()) == Ok::<Seq<FindingView>, ScanError>(
            Seq::empty(),
        ),
        expansion(findings, inspectors, aliases.push(alias)) == (match expansion(
            findings,
            inspectors,
            aliases,
        ) {
            Err(error) => Err(error),
            Ok(done) => with_alias(
                done,
                findings,
                targets_of(findings)->Ok_0,
                inspectors,
                alias,
            ),
        }),
{
    assert(aliases.push(alias).drop_last() =~= aliases);
}

/// Planning one file after another is planning them all: the next file adds to the plan of the
/// files before it, or is left out, or ends the plan.
pub proof fn law_files_are_planned_one_by_one(
    known: Map<IdentityView, u64>,
    files: Seq<SourceFile>,
    file: SourceFile,
    source_directory: Seq<u8>,
    max_scan_size: u64,
    deadline: u128,
)
    ensures
        plan_of(known, Seq::empty(), source_directory, max_scan_size, deadline) == Ok::<
            PlanView,
            ScanError,
        >(PlanView { aliases: Seq::empty(), pending: Seq::empty() }),
        plan_of(known, files.push(file), source_directory, max_scan_size, deadline) == (
        match plan_of(known, files, source_directory, max_scan_size, deadline) {
            Err(error) => Err(error),
            Ok(plan) => if file.reached >= deadline {
                Err(ScanError::Timeout(Deadline::Preparation))
            } else {
                match admission(file.path@, source_directory, file.size, max_scan_size) {
                    Err(error) => Err(error),
                    Ok(None) => Ok(plan),
                    Ok(Some(path)) => Ok(
                        with_file(known, plan, identity_of(file), file.path@, path),
                    ),
                }
            },
        }),
{
    assert(files.push(file).drop_last() =~= files);
}

/// A finding in the target of a file reaches the file: once the distribution is in the package and
/// its places are in the manifest, expanding gives the finding at the path of the file, below the
/// inspector URL of the distribution. Distributions that are added later change nothing of it.
pub proof fn law_findings_reach_every_copy(
    package: PackageView,
    files: Seq<SourceFile>,
    source_directory: Seq<u8>,
    max_scan_size: u64,
    deadline: u128,
    plan: PlanView,
    inspector: Seq<char>,
    inspectors: Seq<Seq<char>>,
    aliases: Seq<AliasView>,
    findings: Seq<FindingView>,
    out: Seq<FindingView>,
    i: int,
    path: Seq<char>,
    k: int,
)
    requires
        files.len() <= usize::MAX,
        is_plan(
            package.identities,
            files,
            source_directory,
            max_scan_size,
            deadline,
            Ok(plan),
        ),
        package.next_target_id + plan.pending.len() <= u64::MAX,
        package.inspectors.push(inspector).is_prefix_of(inspectors),
        inspectors.len() <= usize::MAX,
        forall|j: int|
            0 <= j < planned_aliases(package, plan).len() ==> aliases.contains(
                #[trigger] planned_aliases(package, plan)[j],
            ),
        expansion(findings, inspectors, aliases) == Ok::<Seq<FindingView>, ScanError>(out),
        0 <= i < files.len(),
        taken_as(files[i], source_directory, max_scan_size, path),
        0 <= k < findings.len(),
        target_id_of(encode_utf8(findings[k].path)) == Ok::<u64, ScanError>(
            with_distribution(
                package,
                plan,
                inspector,
                plan.pending.len() as int,
            ).identities[identity_of(files[i])],
        ),
    ensures
        out.contains(
            (FindingView { path, inspector_url: inspector + path, ..findings[k] }),
        ),
{
    let planned = planned_aliases(package, plan);
    let ids = targets_of(findings)->Ok_0;
    lemma_targets_of(findings);
    let j = lemma_place_of_file(
        package,
        files,
        source_directory,
        max_scan_size,
        deadline,
        plan,
        inspector,
        i,
        path,
    );
    assert(aliases.contains(planned[j]));
    let a = choose|a: int| 0 <= a < aliases.len() && aliases[a] == planned[j];
    assert(ids[k] == aliases[a].target_id);
    lemma_all_are_placed(findings, ids, inspectors, aliases, out, a, k);
    let d = package.inspectors.len() as int;
    assert(package.inspectors.push(inspector)[d] == inspectors[d]);
}

/// The engine's report of a target leads back to it: the path of the target is reported as its
/// name, and the name has the identifier of the target. This is said of targets whose name is
/// UTF-8, not too long, and without backslashes, as the names of files with an ordinary extension
/// are.
pub proof fn law_reported_target_is_found(directory: Seq<u8>, target_id: u64, source: Seq<u8>)
    requires
        has_root(directory),
        valid_utf8(target_name(target_id, path_extension(source))),
        !decode_utf8(target_name(target_id, path_extension(source))).contains('\\'),
        target_name(target_id, path_extension(source)).len() <= MAX_PATH_BYTES,
    ensures
        reported_path(
            target_path_in(directory, target_id, path_extension(source)),
            directory,
        ) matches Ok(reported) && target_id_of(encode_utf8(reported)) == Ok::<u64, ScanError>(
            target_id,
        ),
{
    let name = target_name(target_id, path_extension(source));
    let text = decode_utf8(name);
    law_target_path_is_relative(directory, target_id, source);
    law_target_id_round_trip(target_id, source);
    decode_utf8_encode_utf8(name);
    assert(with_slashes(text) =~= text);
}

/// What a finding says of the contents of a file stays the same wherever the finding is put.
pub proof fn law_contents_do_not_depend_on_places(
    findings: Seq<FindingView>,
    path: Seq<char>,
    inspector_base: Seq<char>,
)
    ensures
        contents_of(at_path(findings, path)) == contents_of(findings),
        all_relocated(findings, path, inspector_base) matches Ok(moved) ==> contents_of(moved)
            == contents_of(findings),
{
    let moved = at_path(findings, path);
    assert(Seq::new(moved.len(), |i: int| placeless(moved[i])) =~= Seq::new(
        findings.len(),
        |i: int| placeless(findings[i]),
    ));
    lemma_all_relocated(findings, path, inspector_base);
    if let Ok(moved) = all_relocated(findings, path, inspector_base) {
        assert forall|i: int| 0 <= i < findings.len() implies placeless(moved[i]) == placeless(
            findings[i],
        ) by {
            assert(relocated(findings[i], path, inspector_base) is Ok);
        }
        assert(Seq::new(moved.len(), |i: int| placeless(moved[i])) =~= Seq::new(
            findings.len(),
            |i: int| placeless(findings[i]),
        ));
    }
}

proof fn lemma_relocated_is_a_map(
    findings: Seq<FindingView>,
    path: Seq<char>,
    base: Seq<char>,
    moved: Seq<FindingView>,
)
    requires
        all_relocated(findings, path, base) == Ok::<Seq<FindingView>, ScanError>(moved),
    ensures
        moved == Seq::new(findings.len(), |i: int| placeless(findings[i])).map_values(
            |finding: FindingView| FindingView { path, inspector_url: base + path, ..finding },
        ),
{
    lemma_all_relocated(findings, path, base);
    let f = |finding: FindingView| FindingView { path, inspector_url: base + path, ..finding };
    let bare = Seq::new(findings.len(), |i: int| placeless(findings[i]));
    assert forall|i: int| 0 <= i < moved.len() implies moved[i] == bare.map_values(f)[i] by {
        assert(relocated(findings[i], path, base) is Ok);
    }
    assert(moved =~= bare.map_values(f));
}

proof fn lemma_relocation_fault(findings: Seq<FindingView>, path: Seq<char>, base: Seq<char>)
    ensures
        all_relocated(findings, path, base) is Err <==> findings.len() > 0 && relocated(
            findings[0],
            path,
            base,
        ) is Err,
        forall|finding: FindingView|
            all_relocated(findings, path, base) matches Err(error) ==> #[trigger] relocated(
                finding,
                path,
                base,
            ) == Err::<FindingView, ScanError>(error),
    decreases findings.len(),
{
    if findings.len() > 0 {
        lemma_relocation_fault(findings.drop_last(), path, base);
        if findings.len() > 1 {
            assert(findings.drop_last()[0] == findings[0]);
        }
        assert(relocated(findings[0], path, base) is Err <==> relocated(
            findings.last(),
            path,
            base,
        ) is Err);
    }
}

/// Whether two outcomes are the same findings in some order, or the same failure.
pub open spec fn agree(
    left: Result<Seq<FindingView>, ScanError>,
    right: Result<Seq<FindingView>, ScanError>,
) -> bool {
    match (left, right) {
        (Ok(reused), Ok(found)) => reused.to_multiset() == found.to_multiset(),
        (Err(reused), Err(found)) => reused == found,
        _ => false,
    }
}

proof fn lemma_same_contents_in_a_place(
    left: Seq<FindingView>,
    right: Seq<FindingView>,
    path: Seq<char>,
    base: Seq<char>,
)
    requires
        contents_of(left) == contents_of(right),
    ensures
        agree(all_relocated(left, path, base), all_relocated(right, path, base)),
        left.len() == right.len(),
{
    broadcast use vstd::seq_lib::group_to_multiset_ensures;

    let bare_left = Seq::new(left.len(), |i: int| placeless(left[i]));
    let bare_right = Seq::new(right.len(), |i: int| placeless(right[i]));
    assert(bare_left.to_multiset().len() == bare_left.len());
    assert(bare_right.to_multiset().len() == bare_right.len());
    lemma_relocation_fault(left, path, base);
    lemma_relocation_fault(right, path, base);
    if right.len() > 0 {
        assert(relocated(right[0], path, base) is Err <==> relocated(left[0], path, base) is Err);
    }
    match (all_relocated(left, path, base), all_relocated(right, path, base)) {
        (Ok(reused), Ok(found)) => {
            lemma_relocated_is_a_map(left, path, base, reused);
            lemma_relocated_is_a_map(right, path, base, found);
            lemma_mapped_multisets(
                bare_left,
                bare_right,
                |finding: FindingView| FindingView { path, inspector_url: base + path, ..finding },
            );
        },
        (Err(reused), Err(found)) => {
            assert(relocated(right[0], path, base) == Err::<FindingView, ScanError>(reused));
        },
        _ => {},
    }
}

proof fn lemma_same_contents_in_all_places(
    left: Seq<FindingView>,
    left_ids: Seq<u64>,
    right: Seq<FindingView>,
    right_ids: Seq<u64>,
    inspectors: Seq<Seq<char>>,
    aliases: Seq<AliasView>,
)
    requires
        forall|target_id: u64|
            contents_of(#[trigger] group(left, left_ids, target_id)) == contents_of(
                group(right, right_ids, target_id),
            ),
    ensures
        agree(
            with_aliases(left, left_ids, inspectors, aliases),
            with_aliases(right, right_ids, inspectors, aliases),
        ),
    decreases aliases.len(),
{
    broadcast use vstd::seq_lib::group_to_multiset_ensures;

    if aliases.len() > 0 {
        let alias = aliases.last();
        let before = aliases.drop_last();
        let base = inspectors[alias.distribution_index as int];
        lemma_same_contents_in_all_places(left, left_ids, right, right_ids, inspectors, before);
        let here = group(left, left_ids, alias.target_id);
        let there = group(right, right_ids, alias.target_id);
        lemma_same_contents_in_a_place(here, there, alias.path, base);
        match (
            with_aliases(left, left_ids, inspectors, before),
            with_aliases(right, right_ids, inspectors, before),
        ) {
            (Ok(done), Ok(other)) => {
                assert(done.to_multiset().len() == done.len());
                assert(other.to_multiset().len() == other.len());
                match (
                    all_relocated(here, alias.path, base),
                    all_relocated(there, alias.path, base),
                ) {
                    (Ok(moved), Ok(shifted)) => {
                        vstd::seq_lib::lemma_multiset_commutative(done, moved);
                        vstd::seq_lib::lemma_multiset_commutative(other, shifted);
                    },
                    _ => {},
                }
            },
            _ => {},
        }
    } else {
        assert(with_aliases(left, left_ids, inspectors, aliases)->Ok_0
            =~= with_aliases(right, right_ids, inspectors, aliases)->Ok_0);
    }
}

/// Reusing kept results changes nothing that is reported: findings with the same contents in every
/// target, kept or fresh, lead to the same findings in all places, in some order, or to the same
/// failure.
pub proof fn law_reuse_is_transparent(
    reused: Seq<FindingView>,
    fresh: Seq<FindingView>,
    inspectors: Seq<Seq<char>>,
    aliases: Seq<AliasView>,
)
    requires
        targets_of(reused) is Ok,
        targets_of(fresh) is Ok,
        forall|target_id: u64|
            contents_of(#[trigger] group(reused, targets_of(reused)->Ok_0, target_id))
                == contents_of(group(fresh, targets_of(fresh)->Ok_0, target_id)),
    ensures
        agree(
            expansion(reused, inspectors, aliases),
            expansion(fresh, inspectors, aliases),
        ),
{
    lemma_same_contents_in_all_places(
        reused,
        targets_of(reused)->Ok_0,
        fresh,
        targets_of(fresh)->Ok_0,
        inspectors,
        aliases,
    );
}

/// Results are handed out to be kept just for targets that the engine says it scanned, in runs that
/// left no warning after a preparation that left none; they are what the run found in the target,
/// which may be nothing.
pub proof fn law_only_scanned_targets_of_complete_runs_are_kept(
    warnings: Seq<Seq<char>>,
    run: OpenGrepRun,
    pending: PendingView,
    directory: Seq<u8>,
    before: CacheStats,
    after: CacheStats,
    result: Result<KeepStep, ScanError>,
)
    requires
        is_keep_step(fresh_of(warnings, run), pending, directory, before, after, result),
    ensures
        (result matches Ok(step) && step is Keep) <==> {
            &&& warnings.len() == 0
            &&& run.warnings@.len() == 0
            &&& reported_path(pending.path, directory) matches Ok(relative)
            &&& run.scanned_paths@.contains(relative)
        },
        result matches Ok(KeepStep::Keep { key, path, findings, action }) ==> {
            &&& key@ == pending.key
            &&& path@ == pending.path
            &&& views(findings@) == findings_in(
                views(run.findings@),
                reported_path(pending.path, directory)->Ok_0,
            )
        },
{
}

/// A scanned package once steps have been taken for the next targets, in order.
pub open spec fn after_steps(
    kept: KeptView,
    steps: Seq<Result<KeepStep, ScanError>>,
) -> KeptView
    decreases steps.len(),
{
    if steps.len() == 0 {
        kept
    } else {
        after_step(after_steps(kept, steps.drop_last()), steps.last())
    }
}

proof fn lemma_mismatch_is_remembered(
    kept: KeptView,
    steps: Seq<Result<KeepStep, ScanError>>,
)
    ensures
        after_steps(kept, steps).mismatched <==> kept.mismatched || exists|i: int|
            0 <= i < steps.len() && is_mismatch(#[trigger] steps[i]),
    decreases steps.len(),
{
    if steps.len() > 0 {
        let before = steps.drop_last();
        lemma_mismatch_is_remembered(kept, before);
        assert(steps[steps.len() - 1] == steps.last());
        if exists|i: int| 0 <= i < before.len() && is_mismatch(#[trigger] before[i]) {
            let i = choose|i: int| 0 <= i < before.len() && is_mismatch(#[trigger] before[i]);
            assert(is_mismatch(steps[i]));
        }
        if exists|i: int| 0 <= i < steps.len() && is_mismatch(#[trigger] steps[i]) {
            let i = choose|i: int| 0 <= i < steps.len() && is_mismatch(#[trigger] steps[i]);
            if i < before.len() {
                assert(is_mismatch(before[i]));
            }
        }
    }
}

/// A job that reused results is rejected where anything that the cache held differed from what was
/// found, whatever else is known of the cache. A job that reused nothing is never rejected, and one
/// that found no difference is rejected only where the cache is said to be disabled.
pub proof fn law_a_mismatch_rejects_reused_results(
    kept: KeptView,
    steps: Seq<Result<KeepStep, ScanError>>,
    stats: CacheStats,
    cache_disabled: bool,
)
    requires
        !kept.mismatched,
    ensures
        rejected(after_steps(kept, steps), stats, cache_disabled) <==> {
            &&& stats.reused_files > 0
            &&& {
                ||| cache_disabled
                ||| exists|i: int| 0 <= i < steps.len() && is_mismatch(#[trigger] steps[i])
            }
        },
{
    lemma_mismatch_is_remembered(kept, steps);
}

/// Results of a run that left something out, or that scanned no target by its own account, are not
/// kept: not those of the runs in groups either, which count no target as scanned.
pub proof fn law_incomplete_results_are_not_kept(
    fresh: FreshView,
    pending: PendingView,
    directory: Seq<u8>,
    before: CacheStats,
    after: CacheStats,
    result: Result<KeepStep, ScanError>,
)
    requires
        is_keep_step(fresh, pending, directory, before, after, result),
        !fresh.complete || fresh.scanned == Set::<Seq<char>>::empty(),
    ensures
        match result {
            Ok(step) => step == KeepStep::Skip,
            Err(_) => true,
        },
        after == before,
{
}

/// Whether the path, the message and the inspector URL of a finding are as short as is reported.
pub open spec fn bounded(finding: FindingView) -> bool {
    &&& encode_utf8(finding.path).len() <= MAX_PATH_BYTES
    &&& encode_utf8(finding.message).len() <= MAX_MESSAGE_BYTES
    &&& encode_utf8(finding.inspector_url).len() <= MAX_INSPECTOR_URL_BYTES
}

/// Every finding that is taken from the engine is bounded.
pub proof fn law_findings_of_the_engine_are_bounded(
    results: Seq<RawFinding>,
    target_directory: Seq<u8>,
    inspector_base: Seq<char>,
)
    ensures
        all_normalized(results, target_directory, inspector_base) matches Ok(findings) ==> {
            &&& findings.len() == results.len()
            &&& forall|i: int| 0 <= i < findings.len() ==> bounded(#[trigger] findings[i])
        },
    decreases results.len(),
{
    if results.len() > 0 {
        law_findings_of_the_engine_are_bounded(
            results.drop_last(),
            target_directory,
            inspector_base,
        );
        if let Ok(findings) = all_normalized(results, target_directory, inspector_base) {
            let before = all_normalized(
                results.drop_last(),
                target_directory,
                inspector_base,
            )->Ok_0;
            assert forall|i: int| 0 <= i < findings.len() implies bounded(
                #[trigger] findings[i],
            ) by {
                if i < before.len() {
                    assert(findings[i] == before[i]);
                } else {
                    assert(normalized(results.last(), target_directory, inspector_base) == Ok::<
                        FindingView,
                        ScanError,
                    >(findings[i]));
                }
            }
        }
    }
}

/// Every finding that is put into its places is bounded there, where its message is.
pub proof fn law_expanded_findings_are_bounded(
    findings: Seq<FindingView>,
    inspectors: Seq<Seq<char>>,
    aliases: Seq<AliasView>,
    out: Seq<FindingView>,
)
    requires
        expansion(findings, inspectors, aliases) == Ok::<Seq<FindingView>, ScanError>(out),
        forall|i: int|
            0 <= i < findings.len() ==> encode_utf8((#[trigger] findings[i]).message).len()
                <= MAX_MESSAGE_BYTES,
    ensures
        out.len() <= MAX_FINDINGS,
        forall|o: int| 0 <= o < out.len() ==> bounded(#[trigger] out[o]),
{
    let ids = targets_of(findings)->Ok_0;
    lemma_targets_of(findings);
    lemma_placed_bound(findings, ids, inspectors, aliases);
    assert forall|o: int| 0 <= o < out.len() implies bounded(#[trigger] out[o]) by {
        lemma_placed_is_bounded(findings, ids, inspectors, aliases, out, o);
    }
}

proof fn lemma_placed_is_bounded(
    findings: Seq<FindingView>,
    ids: Seq<u64>,
    inspectors: Seq<Seq<char>>,
    aliases: Seq<AliasView>,
    out: Seq<FindingView>,
    o: int,
)
    requires
        with_aliases(findings, ids, inspectors, aliases) == Ok::<Seq<FindingView>, ScanError>(out),
        ids.len() == findings.len(),
        forall|i: int|
            0 <= i < findings.len() ==> encode_utf8((#[trigger] findings[i]).message).len()
                <= MAX_MESSAGE_BYTES,
        0 <= o < out.len(),
    ensures
        bounded(out[o]),
    decreases aliases.len(),
{
    let shorter = aliases.drop_last();
    let alias = aliases.last();
    let done = with_aliases(findings, ids, inspectors, shorter)->Ok_0;
    let here = group(findings, ids, alias.target_id);
    let base = inspectors[alias.distribution_index as int];
    if o < done.len() {
        assert(out[o] == done[o]);
        lemma_placed_is_bounded(findings, ids, inspectors, shorter, done, o);
    } else {
        let g = o - done.len();
        lemma_all_relocated(here, alias.path, base);
        let k = lemma_group_only_has(findings, ids, alias.target_id, g);
        assert(encode_utf8(findings[k].message).len() <= MAX_MESSAGE_BYTES);
        assert(relocated(here[g], alias.path, base) == Ok::<FindingView, ScanError>(out[o]));
    }
}

/// No two targets share a path: those with different identifiers are different files in the
/// directory of the targets.
pub proof fn law_targets_have_their_own_paths(
    directory: Seq<u8>,
    left: u64,
    left_source: Seq<u8>,
    right: u64,
    right_source: Seq<u8>,
)
    requires
        left != right,
    ensures
        target_path_in(directory, left, path_extension(left_source)) != target_path_in(
            directory,
            right,
            path_extension(right_source),
        ),
{
    let left_name = target_name(left, path_extension(left_source));
    let right_name = target_name(right, path_extension(right_source));
    law_target_id_round_trip(left, left_source);
    law_target_id_round_trip(right, right_source);
    let left_path = path_in(directory, left_name);
    let right_path = path_in(directory, right_name);
    if left_path == right_path {
        let skip = left_path.len() - left_name.len();
        assert(left_path.len() - left_name.len() == right_path.len() - right_name.len());
        assert(left_path.skip(skip) =~= left_name);
        assert(right_path.skip(skip) =~= right_name);
    }
}

proof fn lemma_all_recoverable(errors: Seq<ReportedError>)
    ensures
        fatal_errors(errors).len() == 0 <==> forall|i: int|
            0 <= i < errors.len() ==> recoverable((#[trigger] errors[i]).value),
        fatal_errors(errors).len() == 0 ==> warnings_of(errors) == Seq::new(
            errors.len(),
            |i: int| description(errors[i].value),
        ),
    decreases errors.len(),
{
    if errors.len() > 0 {
        let before = errors.drop_last();
        lemma_all_recoverable(before);
        assert(errors[errors.len() - 1] == errors.last());
        assert(forall|i: int| 0 <= i < before.len() ==> before[i] == errors[i]);
        if fatal_errors(errors).len() == 0 {
            assert forall|i: int| 0 <= i < errors.len() implies recoverable(
                (#[trigger] errors[i]).value,
            ) by {
                if i < before.len() {
                    assert(recoverable(before[i].value));
                }
            }
            assert(warnings_of(errors) =~= Seq::new(
                errors.len(),
                |i: int| description(errors[i].value),
            ));
        }
        if forall|i: int| 0 <= i < errors.len() ==> recoverable((#[trigger] errors[i]).value) {
            assert forall|i: int| 0 <= i < before.len() implies recoverable(
                (#[trigger] before[i]).value,
            ) by {
                assert(recoverable(errors[i].value));
            }
        }
    } else {
        assert(warnings_of(errors) =~= Seq::new(errors.len(), |i: int| description(errors[i].value)));
    }
}

/// Recoverable errors cost no finding: where all errors are recoverable, the findings of the
/// report are kept and every error becomes a warning, in order. Any other error voids the report.
pub proof fn law_recoverable_errors_preserve_findings(
    document: OpenGrepDocument,
    target_directory: Seq<u8>,
    inspector_base: Seq<char>,
    result: Result<OpenGrepRun, ScanError>,
)
    requires
        means(document, target_directory, inspector_base, result),
    ensures
        ({
            let errors = document.errors@;
            let all_recoverable = forall|i: int|
                0 <= i < errors.len() ==> recoverable((#[trigger] errors[i]).value);
            &&& !all_recoverable ==> (result matches Err(error) && error is EngineErrors)
            &&& {
                &&& all_recoverable
                &&& document.skipped_rules@.len() == 0
                &&& scanned_set(document.paths.scanned@, target_directory) is Ok
                &&& all_normalized(document.results@, target_directory, inspector_base) is Ok
            } ==> {
                &&& result matches Ok(run)
                &&& views(run.findings@) == all_normalized(
                    document.results@,
                    target_directory,
                    inspector_base,
                )->Ok_0
                &&& views(run.warnings@) == Seq::new(errors.len(), |i: int| description(errors[i].value))
            }
        }),
{
    lemma_all_recoverable(document.errors@);
}

/// A path that is reported stays below the directory that it is relative to, where it held no
/// backslash: it is relative and made of names only, none of which leads up.
pub proof fn law_reported_paths_stay_below(path: Seq<u8>, target_directory: Seq<u8>)
    requires
        !has_root(path) ==> !decode_utf8(path).contains('\\'),
        has_root(path) ==> (stripped(path, target_directory) matches Some(relative)
            ==> !decode_utf8(relative).contains('\\')),
    ensures
        reported_path(path, target_directory) matches Ok(text) ==> {
            &&& plain_relative(encode_utf8(text))
            &&& 0 < encode_utf8(text).len() <= MAX_PATH_BYTES
        },
{
    if let Ok(text) = reported_path(path, target_directory) {
        let bytes = if has_root(path) {
            stripped(path, target_directory)->0
        } else {
            path
        };
        assert(with_slashes(decode_utf8(bytes)) =~= decode_utf8(bytes));
        decode_utf8_encode_utf8(bytes);
    }
}

/// Every file of an accepted rule corpus stays below the directory that the corpus is written to.
pub proof fn law_rule_files_stay_below(
    directory: Seq<u8>,
    rules: Seq<(String, String)>,
    i: int,
)
    requires
        safe_corpus(rules),
        0 <= i < rules.len(),
    ensures
        ({
            let relative = encode_utf8(rules[i].0@);
            let path = path_in(directory, relative);
            &&& names_below(path, directory)
            &&& names(path, 0).len() > names(directory, 0).len()
            &&& forall|k: int|
                names(directory, 0).len() <= k < names(path, 0).len() ==> name_at(
                    path,
                    #[trigger] names(path, 0)[k],
                ) != seq![DOT, DOT]
        }),
{
    let relative = encode_utf8(rules[i].0@);
    let path = path_in(directory, relative);
    assert(plain_relative(encode_utf8(rules[i].0@)));
    law_safe_paths_stay_below(directory, relative);
    assert forall|k: int| names(directory, 0).len() <= k < names(path, 0).len() implies name_at(
        path,
        #[trigger] names(path, 0)[k],
    ) != seq![DOT, DOT] by {
        let own = names(relative, 0)[k - names(directory, 0).len()];
        assert(name_at(relative, own) != seq![DOT, DOT]);
    }
}

/// A scan and its statistics once targets have been looked up and counted, in order, or why the
/// scan fails.
pub open spec fn looked_up(
    scan: PreparedView,
    stats: CacheStats,
    directory: Seq<u8>,
    look_ups: Seq<LookUp>,
) -> Result<(PreparedView, CacheStats), ScanError>
    decreases look_ups.len(),
{
    if look_ups.len() == 0 {
        Ok((scan, stats))
    } else {
        match looked_up(scan, stats, directory, look_ups.drop_last()) {
            Err(fault) => Err(fault),
            Ok((scan, stats)) => match considered(scan, directory, look_ups.last()) {
                Err(fault) => Err(fault),
                Ok((scan, decision)) => Ok((scan, counted(stats, decision))),
            },
        }
    }
}

/// Whether the results of a target that is looked up are taken from the cache.
pub open spec fn is_reused(look_up: LookUp) -> bool {
    look_up.reuse && look_up.cached is Some
}

/// The bytes of the targets that are looked up.
pub open spec fn all_bytes(look_ups: Seq<LookUp>) -> nat
    decreases look_ups.len(),
{
    if look_ups.len() == 0 {
        0
    } else {
        all_bytes(look_ups.drop_last()) + look_ups.last().identity.size as nat
    }
}

/// The bytes of the targets whose results are taken from the cache.
pub open spec fn bytes_reused(look_ups: Seq<LookUp>) -> nat
    decreases look_ups.len(),
{
    if look_ups.len() == 0 {
        0
    } else if is_reused(look_ups.last()) {
        bytes_reused(look_ups.drop_last()) + look_ups.last().identity.size as nat
    } else {
        bytes_reused(look_ups.drop_last())
    }
}

proof fn lemma_look_ups_are_counted(
    warnings: Seq<Seq<char>>,
    stats: CacheStats,
    directory: Seq<u8>,
    look_ups: Seq<LookUp>,
)
    requires
        stats.reused_files == 0,
        stats.reused_bytes == 0,
        look_ups.len() <= u64::MAX,
        bytes_reused(look_ups) <= u64::MAX,
    ensures
        ({
            let scan = PreparedView { warnings, reused: Seq::empty(), pending: Seq::empty() };
            looked_up(scan, stats, directory, look_ups) matches Ok((after, counts)) ==> {
                &&& counts.reused_files + after.pending.len() == look_ups.len()
                &&& counts.reused_bytes == bytes_reused(look_ups)
                &&& counts.reused_bytes + pending_bytes(after.pending) == all_bytes(look_ups)
                &&& counts.engine_files == stats.engine_files
                &&& counts.engine_bytes == stats.engine_bytes
            }
        }),
    decreases look_ups.len(),
{
    let scan = PreparedView { warnings, reused: Seq::empty(), pending: Seq::empty() };
    if look_ups.len() > 0 {
        let before = look_ups.drop_last();
        let look_up = look_ups.last();
        lemma_look_ups_are_counted(warnings, stats, directory, before);
        match looked_up(scan, stats, directory, before) {
            Ok((middle, counts)) => match considered(middle, directory, look_up) {
                Ok((after, decision)) => {
                    if !is_reused(look_up) {
                        assert(after.pending.drop_last() =~= middle.pending);
                    }
                },
                Err(_) => {},
            },
            Err(_) => {},
        }
    }
}

/// Every target of a package that has been looked up is counted once: as reused or as given to the
/// engine, with its bytes.
pub proof fn law_every_target_is_counted_once(
    package: PackageView,
    entries: Seq<(IdentityView, u64)>,
    look_ups: Seq<LookUp>,
    warnings: Seq<Seq<char>>,
    stats: CacheStats,
    after: PreparedView,
    counts: CacheStats,
)
    requires
        ids_unique(package),
        distinct(entries),
        map_of(entries) == package.identities,
        look_ups.len() == entries.len(),
        forall|i: int|
            0 <= i < entries.len() ==> ((#[trigger] look_ups[i]).identity, look_ups[i].target_id)
                == entries[i],
        stats.reused_files == 0,
        stats.reused_bytes == 0,
        stats.engine_files == 0,
        stats.engine_bytes == 0,
        looked_up(
            PreparedView { warnings, reused: Seq::empty(), pending: Seq::empty() },
            stats,
            package.directory,
            look_ups,
        ) == Ok::<(PreparedView, CacheStats), ScanError>((after, counts)),
        bytes_reused(look_ups) <= u64::MAX,
        pending_bytes(after.pending) <= u64::MAX,
    ensures
        ({
            let done = with_engine(counts, after.pending);
            &&& done.reused_files + done.engine_files == package.next_target_id
            &&& done.engine_files == after.pending.len()
            &&& done.reused_bytes + done.engine_bytes == all_bytes(look_ups)
            &&& done.reused_bytes == bytes_reused(look_ups)
        }),
{
    lemma_map_of(entries);
    lemma_look_ups_are_counted(warnings, stats, package.directory, look_ups);
}

/// Whether a scan in groups that takes another target, and the results of the current group where
/// it is full, can lead from one state to another.
pub open spec fn takes_entry(before: GroupedView, after: GroupedView) -> bool {
    let added = with_entry(before);
    if is_due(added) {
        exists|run: Result<OpenGrepRun, ScanError>, result: Result<bool, ScanError>|
            #[trigger] is_group_step(added, run, after, result)
    } else {
        after == added
    }
}

/// Whether states are those of a scan in groups, from its start on, before and behind each target:
/// it takes no target once it has stopped.
pub open spec fn is_grouped_scan(max_entries: usize, states: Seq<GroupedView>) -> bool {
    &&& states.len() > 0
    &&& states[0] == no_group(max_entries)
    &&& forall|i: int|
        0 <= i < states.len() - 1 ==> {
            &&& !(#[trigger] states[i]).stopped
            &&& takes_entry(states[i], states[i + 1])
        }
}

/// The sizes of the groups that are full once some targets have been taken.
pub open spec fn full_groups(states: Seq<GroupedView>, taken: nat) -> Seq<nat>
    decreases taken,
{
    if taken == 0 {
        Seq::empty()
    } else {
        let added = with_entry(states[taken - 1]);
        let before = full_groups(states, (taken - 1) as nat);
        if is_due(added) {
            before.push(added.group_size as nat)
        } else {
            before
        }
    }
}

/// The sizes of the groups that are scanned: the full ones, and the rest where there is any.
pub open spec fn group_sizes(states: Seq<GroupedView>) -> Seq<nat> {
    let full = full_groups(states, (states.len() - 1) as nat);
    if rest_left(states.last()) {
        full.push(states.last().group_size as nat)
    } else {
        full
    }
}

proof fn lemma_groups_fill_up(max_entries: usize, states: Seq<GroupedView>, taken: nat)
    requires
        max_entries > 0,
        is_grouped_scan(max_entries, states),
        taken < states.len(),
    ensures
        states[taken as int].max_entries == max_entries,
        states[taken as int].group_size == taken as int % max_entries as int,
        full_groups(states, taken).len() == taken as int / max_entries as int,
        forall|g: int|
            0 <= g < full_groups(states, taken).len() ==> (#[trigger] full_groups(states, taken)[g])
                == max_entries,
    decreases taken,
{
    let m = max_entries as int;
    if taken == 0 {
        lemma_fundamental_div_mod_converse(0, m, 0, 0);
    } else {
        let before = (taken - 1) as nat;
        lemma_groups_fill_up(max_entries, states, before);
        let state = states[before as int];
        let q = before as int / m;
        let r = before as int % m;
        lemma_fundamental_div_mod(before as int, m);
        assert(takes_entry(state, states[before as int + 1]));
        if r + 1 == m {
            assert((q + 1) * m == m * q + m) by (nonlinear_arith);
            lemma_fundamental_div_mod_converse(taken as int, m, q + 1, 0);
        } else {
            assert(q * m == m * q) by (nonlinear_arith);
            lemma_fundamental_div_mod_converse(taken as int, m, q, r + 1);
        }
    }
}

/// A scan in groups that takes all targets scans as few groups as there can be: each group but the
/// last is full, the last has the targets that are left, and each target is in one group, the one
/// that comes behind those that are full when it is taken.
pub proof fn law_every_target_is_in_one_group(max_entries: usize, states: Seq<GroupedView>)
    requires
        max_entries > 0,
        is_grouped_scan(max_entries, states),
    ensures
        ({
            let m = max_entries as int;
            let n = states.len() - 1;
            let sizes = group_sizes(states);
            &&& sizes.len() == (n + m - 1) / m
            &&& forall|g: int|
                0 <= g < sizes.len() ==> {
                    &&& 1 <= #[trigger] sizes[g] <= m
                    &&& sizes[g] == if n - g * m < m {
                        n - g * m
                    } else {
                        m
                    }
                }
            &&& forall|i: int|
                0 <= i < n ==> {
                    &&& (#[trigger] full_groups(states, i as nat)).len() == i / m
                    &&& i / m < sizes.len()
                }
        }),
{
    let m = max_entries as int;
    let n = states.len() - 1;
    let sizes = group_sizes(states);
    let q = n / m;
    let r = n % m;
    lemma_groups_fill_up(max_entries, states, n as nat);
    lemma_fundamental_div_mod(n, m);
    assert(q >= 0) by (nonlinear_arith)
        requires
            n >= 0,
            m > 0,
            q == n / m,
    ;
    assert(q * m == m * q && (q + 1) * m == m * q + m) by (nonlinear_arith);
    if r == 0 {
        lemma_fundamental_div_mod_converse(n + m - 1, m, q, m - 1);
    } else {
        lemma_fundamental_div_mod_converse(n + m - 1, m, q + 1, r - 1);
    }
    assert forall|g: int| 0 <= g < sizes.len() implies {
        &&& 1 <= #[trigger] sizes[g] <= m
        &&& sizes[g] == if n - g * m < m {
            n - g * m
        } else {
            m
        }
    } by {
        if g < q {
            assert(g * m + m <= m * q) by (nonlinear_arith)
                requires
                    g < q,
                    m > 0,
            ;
        }
    }
    assert forall|i: int| 0 <= i < n implies {
        &&& (#[trigger] full_groups(states, i as nat)).len() == i / m
        &&& i / m < sizes.len()
    } by {
        lemma_groups_fill_up(max_entries, states, i as nat);
        lemma_fundamental_div_mod(i, m);
        let k = i / m;
        if k >= sizes.len() {
            assert(m * k >= m * sizes.len()) by (nonlinear_arith)
                requires
                    k >= sizes.len(),
                    m > 0,
            ;
            assert(m * sizes.len() >= n) by (nonlinear_arith)
                requires
                    m > 0,
                    n == m * q + r,
                    r < m,
                    sizes.len() == if r == 0 {
                        q
                    } else {
                        q + 1
                    },
            ;
        }
    }
}

} // verus!
