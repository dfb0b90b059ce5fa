//! What holds of the targets of a package.

use vstd::prelude::*;

use crate::error::{Deadline, ScanError};
use crate::identities::{entry_views, lemma_map_of, map_of};
use crate::identity::{FileIdentity, IdentityView};
use crate::order::Ordered;
use crate::package::{
    admit_file, identity_of, in_path_order, lemma_numbering, lemma_pending_with, lemma_plan_of,
    plan_for, plan_of, with_file, Commit, DistributionPlanner, DistributionTargetPlan,
    PackageTarget, PlanView, PlannedTarget, SourceFile,
};
use crate::path_order::path_le;
use crate::paths::{path_extension, relative_target_path, reported_path, target_path_in};
use crate::text::views;

verus! {

/// A package starts without distributions and without targets.
pub proof fn law_packages_start_empty(directory: Vec<u8>, package: PackageTarget)
    requires
        call_ensures(PackageTarget::new, (directory,), package),
    ensures
        package.wf(),
        package@.directory == directory@,
        package@.identities == Map::<IdentityView, u64>::empty(),
        package@.inspectors.len() == 0,
        package@.next_target_id == 0,
        package@.deduplicated_files == 0,
{
}

/// A package tells its directory, how many targets and repeated files it has, the URL of each of its
/// distributions, and each of its targets once.
pub proof fn law_packages_tell_what_they_have(
    package: &PackageTarget,
    path: &[u8],
    empty: bool,
    count: u64,
    repeated: usize,
    distribution_index: usize,
    inspector: Option<&str>,
    entries: &Vec<(FileIdentity, u64)>,
)
    requires
        package.wf(),
        call_ensures(PackageTarget::path, (package,), path),
        call_ensures(PackageTarget::is_empty, (package,), empty),
        call_ensures(PackageTarget::target_count, (package,), count),
        call_ensures(PackageTarget::deduplicated_files, (package,), repeated),
        call_ensures(PackageTarget::inspector, (package, distribution_index), inspector),
        call_ensures(PackageTarget::identities, (package,), entries),
    ensures
        path@ == package@.directory,
        empty <==> package@.next_target_id == 0,
        count == package@.next_target_id,
        repeated == package@.deduplicated_files,
        inspector is Some <==> distribution_index < package@.inspectors.len(),
        inspector matches Some(url) ==> url@ == package@.inspectors[distribution_index as int],
        forall|i: int|
            0 <= i < entries@.len() ==> {
                &&& package@.identities.contains_key((#[trigger] entries@[i]).0@)
                &&& package@.identities[entries@[i].0@] == entries@[i].1
            },
        forall|i: int, j: int|
            0 <= i < j < entries@.len() ==> (#[trigger] entries@[i]).0@ != (
            #[trigger] entries@[j]).0@,
        forall|identity: IdentityView| #[trigger]
            package@.identities.contains_key(identity) ==> exists|i: int|
                0 <= i < entries@.len() && (#[trigger] entries@[i]).0@ == identity,
{
    let all = entry_views(entries@);
    lemma_map_of(all);
    assert forall|i: int| 0 <= i < entries@.len() implies {
        &&& package@.identities.contains_key((#[trigger] entries@[i]).0@)
        &&& package@.identities[entries@[i].0@] == entries@[i].1
    } by {
        assert(all[i].0 == entries@[i].0@);
    }
    assert forall|i: int, j: int| 0 <= i < j < entries@.len() implies (
    #[trigger] entries@[i]).0@ != (#[trigger] entries@[j]).0@ by {
        assert(all[i].0 != all[j].0);
    }
    assert forall|identity: IdentityView| #[trigger]
        package@.identities.contains_key(identity) implies exists|i: int|
        0 <= i < entries@.len() && (#[trigger] entries@[i]).0@ == identity by {
        assert(map_of(all).contains_key(identity));
        let i = choose|i: int| 0 <= i < all.len() && (#[trigger] all[i]).0 == identity;
        assert(entries@[i].0@ == identity);
    }
}

/// A file is left out just where it is too large; any other is taken under the path that is reported
/// for it, or is why nothing is taken.
pub proof fn law_files_are_taken_unless_too_large(
    path: &[u8],
    source_directory: &[u8],
    size: u64,
    max_scan_size: u64,
    reported: Result<String, ScanError>,
    result: Result<Option<String>, ScanError>,
)
    requires
        call_ensures(relative_target_path, (path, source_directory), reported),
        call_ensures(admit_file, (path, source_directory, size, max_scan_size), result),
    ensures
        size > max_scan_size ==> result matches Ok(None),
        size <= max_scan_size ==> match reported {
            Ok(text) => result matches Ok(Some(given)) && given@ == text@,
            Err(fault) => result == Err::<Option<String>, ScanError>(fault),
        },
{
}

/// Whether a file stops a plan, and how: its turn comes too late, or it is not too large and cannot
/// be reported.
pub open spec fn stops_plan(
    file: SourceFile,
    source_directory: Seq<u8>,
    max_scan_size: u64,
    deadline: u128,
    error: ScanError,
) -> bool {
    if file.reached >= deadline {
        error == ScanError::Timeout(Deadline::Preparation)
    } else {
        file.size <= max_scan_size && reported_path(file.path@, source_directory) == Err::<
            Seq<char>,
            ScanError,
        >(error)
    }
}

/// Whether a file does not stop a plan.
pub open spec fn passes_plan(
    file: SourceFile,
    source_directory: Seq<u8>,
    max_scan_size: u64,
    deadline: u128,
) -> bool {
    file.reached < deadline && (file.size <= max_scan_size ==> reported_path(
        file.path@,
        source_directory,
    ) is Ok)
}

/// Whether the i-th file is the first that stops a plan.
pub open spec fn stops_first(
    files: Seq<SourceFile>,
    source_directory: Seq<u8>,
    max_scan_size: u64,
    deadline: u128,
    error: ScanError,
    i: int,
) -> bool {
    &&& 0 <= i < files.len()
    &&& stops_plan(files[i], source_directory, max_scan_size, deadline, error)
    &&& forall|j: int|
        0 <= j < i ==> passes_plan(
            #[trigger] files[j],
            source_directory,
            max_scan_size,
            deadline,
        )
}

/// What identifies a file: the digest of its contents, its size, and its extension.
pub open spec fn is_identity_of(identity: IdentityView, file: SourceFile) -> bool {
    &&& identity.digest == file.digest
    &&& identity.size == file.size
    &&& identity.extension == path_extension(file.path@)
}

/// Whether the i-th place of a plan is that of a file: under its reported path, and with the target
/// that the package has for its identity, or else one that the plan adds for it.
pub open spec fn is_place_of(
    known: Map<IdentityView, u64>,
    plan: PlanView,
    i: int,
    file: SourceFile,
    source_directory: Seq<u8>,
) -> bool {
    &&& reported_path(file.path@, source_directory) == Ok::<Seq<char>, ScanError>(
        plan.aliases[i].1,
    )
    &&& match plan.aliases[i].0 {
        PlannedTarget::Existing(target_id) => {
            &&& known.contains_key(identity_of(file))
            &&& known[identity_of(file)] == target_id
        },
        PlannedTarget::Pending(k) => {
            &&& !known.contains_key(identity_of(file))
            &&& k < plan.pending.len()
            &&& plan.pending[k as int].0 == identity_of(file)
        },
    }
}

/// Whether a plan adds a target from the i-th file: the first with its identity.
pub open spec fn adds_first(
    plan: PlanView,
    k: int,
    files: Seq<SourceFile>,
    i: int,
) -> bool {
    &&& 0 <= i < files.len()
    &&& plan.pending[k] == (identity_of(files[i]), files[i].path@)
    &&& forall|j: int| 0 <= j < i ==> identity_of(#[trigger] files[j]) != identity_of(files[i])
}

/// Whether a plan is that of files: a place for each in order, and a target for each identity that
/// the package does not have, from the first file with it.
pub open spec fn plans_files(
    known: Map<IdentityView, u64>,
    plan: PlanView,
    files: Seq<SourceFile>,
    source_directory: Seq<u8>,
) -> bool {
    &&& plan.aliases.len() == files.len()
    &&& forall|i: int|
        0 <= i < files.len() ==> is_place_of(
            known,
            plan,
            i,
            #[trigger] files[i],
            source_directory,
        )
    &&& forall|k: int|
        0 <= k < plan.pending.len() ==> !known.contains_key((#[trigger] plan.pending[k]).0)
            && exists|i: int| #[trigger] adds_first(plan, k, files, i)
    &&& forall|k: int, l: int|
        0 <= k < l < plan.pending.len() ==> (#[trigger] plan.pending[k]).0 != (
        #[trigger] plan.pending[l]).0
}

/// The files that are not too large, in order.
pub open spec fn fitting(files: Seq<SourceFile>, max_scan_size: u64) -> Seq<SourceFile> {
    files.filter(|file: SourceFile| file.size <= max_scan_size)
}

proof fn lemma_plan(
    known: Map<IdentityView, u64>,
    files: Seq<SourceFile>,
    directory: Seq<u8>,
    max_scan_size: u64,
    deadline: u128,
)
    requires
        files.len() <= usize::MAX,
    ensures
        match plan_of(known, files, directory, max_scan_size, deadline) {
            Ok(plan) => {
                &&& forall|i: int|
                    0 <= i < files.len() ==> passes_plan(
                        #[trigger] files[i],
                        directory,
                        max_scan_size,
                        deadline,
                    )
                &&& plans_files(known, plan, fitting(files, max_scan_size), directory)
            },
            Err(error) => exists|i: int| #[trigger]
                stops_first(files, directory, max_scan_size, deadline, error, i),
        },
    decreases files.len(),
{
    reveal(Seq::filter);
    let all = fitting(files, max_scan_size);
    if files.len() > 0 {
        let before = files.drop_last();
        let file = files.last();
        let n = before.len() as int;
        lemma_plan(known, before, directory, max_scan_size, deadline);
        lemma_plan_of(known, before, directory, max_scan_size, deadline);
        lemma_plan_of(known, files, directory, max_scan_size, deadline);
        assert(files[n] == file);
        assert(forall|i: int| 0 <= i < n ==> before[i] == files[i]);
        match plan_of(known, before, directory, max_scan_size, deadline) {
            Err(error) => {
                let i = choose|i: int| #[trigger]
                    stops_first(before, directory, max_scan_size, deadline, error, i);
                assert forall|j: int| 0 <= j < i implies passes_plan(
                    #[trigger] files[j],
                    directory,
                    max_scan_size,
                    deadline,
                ) by {
                    assert(passes_plan(before[j], directory, max_scan_size, deadline));
                }
                assert(stops_first(files, directory, max_scan_size, deadline, error, i));
            },
            Ok(earlier) => {
                assert forall|j: int| 0 <= j < n implies passes_plan(
                    #[trigger] files[j],
                    directory,
                    max_scan_size,
                    deadline,
                ) by {
                    assert(passes_plan(before[j], directory, max_scan_size, deadline));
                }
                let kept = fitting(before, max_scan_size);
                match plan_of(known, files, directory, max_scan_size, deadline) {
                    Err(error) => {
                        assert(stops_first(files, directory, max_scan_size, deadline, error, n));
                    },
                    Ok(plan) => if file.size <= max_scan_size {
                        assert(all =~= kept.push(file));
                        lemma_plan_with_file(known, earlier, kept, file, directory);
                    } else {
                        assert(all =~= kept);
                    },
                }
            },
        }
    }
}

proof fn lemma_plan_with_file(
    known: Map<IdentityView, u64>,
    plan: PlanView,
    files: Seq<SourceFile>,
    file: SourceFile,
    directory: Seq<u8>,
)
    requires
        plans_files(known, plan, files, directory),
        plan.pending.len() < usize::MAX,
        reported_path(file.path@, directory) is Ok,
    ensures
        plans_files(
            known,
            with_file(
                known,
                plan,
                identity_of(file),
                file.path@,
                reported_path(file.path@, directory)->Ok_0,
            ),
            files.push(file),
            directory,
        ),
{
    let identity = identity_of(file);
    let path = reported_path(file.path@, directory)->Ok_0;
    let next = with_file(known, plan, identity, file.path@, path);
    let all = files.push(file);
    let n = files.len() as int;
    let m = plan.pending.len() as int;
    lemma_pending_with(plan.pending, identity);
    assert forall|i: int| 0 <= i < all.len() implies is_place_of(
        known,
        next,
        i,
        #[trigger] all[i],
        directory,
    ) by {
        if i < n {
            assert(is_place_of(known, plan, i, files[i], directory));
            assert(next.aliases[i] == plan.aliases[i]);
        }
    }
    assert forall|k: int| 0 <= k < next.pending.len() implies !known.contains_key(
        (#[trigger] next.pending[k]).0,
    ) && exists|i: int| #[trigger] adds_first(next, k, all, i) by {
        if k < m {
            assert(next.pending[k] == plan.pending[k]);
            let i = choose|i: int| #[trigger] adds_first(plan, k, files, i);
            assert forall|j: int| 0 <= j < i implies identity_of(#[trigger] all[j])
                != identity_of(all[i]) by {
                assert(identity_of(files[j]) != identity_of(files[i]));
            }
            assert(adds_first(next, k, all, i));
        } else {
            assert forall|j: int| 0 <= j < n implies identity_of(#[trigger] all[j])
                != identity by {
                assert(is_place_of(known, plan, j, files[j], directory));
                if identity_of(files[j]) == identity {
                    match plan.aliases[j].0 {
                        PlannedTarget::Existing(_) => {},
                        PlannedTarget::Pending(p) => {
                            assert(plan.pending[p as int].0 == identity);
                        },
                    }
                }
            }
            assert(adds_first(next, k, all, n));
        }
    }
    assert forall|k: int, l: int| 0 <= k < l < next.pending.len() implies (
    #[trigger] next.pending[k]).0 != (#[trigger] next.pending[l]).0 by {
        assert(next.pending[k] == plan.pending[k]);
        if l < m {
            assert(next.pending[l] == plan.pending[l]);
        }
    }
}

/// Whether these are the given files, in the order of their paths.
pub open spec fn are_sorted(order: Seq<SourceFile>, given: Seq<SourceFile>) -> bool {
    &&& order.to_multiset() == given.to_multiset()
    &&& forall|i: int, j: int|
        0 <= i < j < order.len() ==> path_le(
            (#[trigger] order[i]).path@,
            (#[trigger] order[j]).path@,
        )
}

/// A plan takes the files of a distribution in the order of their paths, and succeeds wherever all
/// are reached in time and those that are not too large can be reported. It then has a place for
/// each of those and for no other, under its reported path, with the target that the package has for
/// its identity, or else one that the plan adds from the first file with it. It otherwise fails with
/// the first file that stops it.
pub proof fn law_plans_place_every_file(
    package: &PackageTarget,
    source_directory: &[u8],
    files: Vec<SourceFile>,
    max_scan_size: u64,
    deadline: u128,
    result: Result<DistributionTargetPlan, ScanError>,
) -> (order: Seq<SourceFile>)
    requires
        package.wf(),
        files@.len() <= usize::MAX,
        call_ensures(
            PackageTarget::plan_distribution,
            (package, source_directory, files, max_scan_size, deadline),
            result,
        ),
    ensures
        are_sorted(order, files@),
        match result {
            Ok(plan) => {
                &&& forall|i: int|
                    0 <= i < order.len() ==> passes_plan(
                        #[trigger] order[i],
                        source_directory@,
                        max_scan_size,
                        deadline,
                    )
                &&& plans_files(
                    package@.identities,
                    plan@,
                    fitting(order, max_scan_size),
                    source_directory@,
                )
                &&& plan_for(package@.identities, plan@)
            },
            Err(error) => exists|i: int| #[trigger]
                stops_first(order, source_directory@, max_scan_size, deadline, error, i),
        },
{
    let planned: Result<PlanView, ScanError> = match result {
        Ok(plan) => Ok(plan@),
        Err(error) => Err(error),
    };
    let known = package@.identities;
    let order = choose|order: Seq<SourceFile>|
        {
            &&& #[trigger] in_path_order(order, files@)
            &&& plan_of(known, order, source_directory@, max_scan_size, deadline) == planned
        };
    assert(order.len() == files@.len()) by {
        broadcast use vstd::seq_lib::group_to_multiset_ensures;

        assert(order.to_multiset().len() == order.len());
        assert(files@.to_multiset().len() == files@.len());
    }
    assert forall|i: int, j: int| 0 <= i < j < order.len() implies path_le(
        (#[trigger] order[i]).path@,
        (#[trigger] order[j]).path@,
    ) by {
        assert(order[i].at_or_before(order[j]));
    }
    lemma_plan(known, order, source_directory@, max_scan_size, deadline);
    order
}

/// The identity of a file is its digest, its size and its extension.
pub proof fn law_files_are_identified(file: SourceFile)
    ensures
        is_identity_of(identity_of(file), file),
{
}

/// A file is added to a plan with one more place, under its path, and with one more target just
/// where neither the package nor the plan has one for its identity.
pub proof fn law_plans_grow_by_one_place(
    planner: &mut DistributionPlanner,
    package: &PackageTarget,
    identity: FileIdentity,
    source: Vec<u8>,
    path: String,
    made: DistributionPlanner,
    plan: DistributionTargetPlan,
)
    requires
        old(planner).wf(),
        package.wf(),
        plan_for(package@.identities, old(planner)@),
        call_ensures(DistributionPlanner::add, (planner, package, identity, source, path), ()),
        call_ensures(DistributionPlanner::new, (), made),
        call_ensures(DistributionPlanner::finish, (made,), plan),
    ensures
        plan@.aliases.len() == 0,
        plan@.pending.len() == 0,
        ({
            let known = package@.identities;
            let before = old(planner)@;
            let after = final(planner)@;
            let has = exists|k: int|
                0 <= k < before.pending.len() && (#[trigger] before.pending[k]).0 == identity@;
            &&& final(planner).wf()
            &&& after.aliases.len() == before.aliases.len() + 1
            &&& after.aliases.drop_last() == before.aliases
            &&& after.aliases.last().1 == path@
            &&& match after.aliases.last().0 {
                PlannedTarget::Existing(target_id) => {
                    &&& known.contains_key(identity@)
                    &&& known[identity@] == target_id
                },
                PlannedTarget::Pending(k) => {
                    &&& !known.contains_key(identity@)
                    &&& k < after.pending.len()
                    &&& after.pending[k as int].0 == identity@
                },
            }
            &&& after.pending == (if known.contains_key(identity@) || has {
                before.pending
            } else {
                before.pending.push((identity@, source@))
            })
        }),
{
    let before = old(planner)@;
    let after = final(planner)@;
    lemma_pending_with(before.pending, identity@);
    assert(after.aliases.drop_last() =~= before.aliases);
}

/// Committing a plan adds a distribution, wherever there are identifiers for its targets. They get
/// the next ones in order; targets that the package has keep theirs, and there are no others. Each
/// place names the new distribution and the target that was planned, under its path, and each new
/// target is linked from its source.
pub proof fn law_commits_number_the_new_targets(
    package: &mut PackageTarget,
    plan: DistributionTargetPlan,
    inspector: String,
    result: Result<Commit, ScanError>,
)
    requires
        old(package).wf(),
        plan_for(old(package)@.identities, plan@),
        old(package)@.inspectors.len() <= usize::MAX,
        call_ensures(PackageTarget::commit_distribution, (package, plan, inspector), result),
    ensures
        ({
            let before = old(package)@;
            let after = final(package)@;
            let first = before.next_target_id;
            let count = plan@.pending.len();
            let repeated = plan@.aliases.len() - count;
            &&& final(package).wf()
            &&& after.directory == before.directory
            &&& after.inspectors == before.inspectors.push(inspector@)
            &&& repeated >= 0 ==> after.deduplicated_files == if before.deduplicated_files
                + repeated > usize::MAX {
                usize::MAX as int
            } else {
                before.deduplicated_files + repeated
            }
            &&& result is Ok <==> first + count <= u64::MAX
            &&& result matches Err(error) ==> error == ScanError::TargetIdOverflow
            &&& result matches Ok(commit) ==> {
                &&& after.next_target_id == first + count
                &&& forall|identity: IdentityView| #[trigger]
                    before.identities.contains_key(identity) ==> {
                        &&& after.identities.contains_key(identity)
                        &&& after.identities[identity] == before.identities[identity]
                    }
                &&& forall|k: int|
                    0 <= k < count ==> {
                        &&& after.identities.contains_key((#[trigger] plan@.pending[k]).0)
                        &&& after.identities[plan@.pending[k].0] == first + k
                    }
                &&& forall|identity: IdentityView| #[trigger]
                    after.identities.contains_key(identity) ==> before.identities.contains_key(
                        identity,
                    ) || exists|k: int|
                        0 <= k < count && (#[trigger] plan@.pending[k]).0 == identity
                &&& commit.aliases@.len() == plan@.aliases.len()
                &&& forall|i: int|
                    0 <= i < commit.aliases@.len() ==> {
                        let alias = #[trigger] commit.aliases@[i];
                        &&& alias.path@ == plan@.aliases[i].1
                        &&& alias.distribution_index == before.inspectors.len()
                        &&& match plan@.aliases[i].0 {
                            PlannedTarget::Existing(target_id) => alias.target_id == target_id,
                            PlannedTarget::Pending(k) => alias.target_id == first + k,
                        }
                    }
                &&& commit.links@.len() == count
                &&& forall|k: int|
                    0 <= k < count ==> {
                        let link = #[trigger] commit.links@[k];
                        &&& link.source@ == plan@.pending[k].1
                        &&& link.destination@ == target_path_in(
                            before.directory,
                            (first + k) as u64,
                            plan@.pending[k].0.extension,
                        )
                    }
            }
        }),
{
    let before = old(package)@;
    let first = before.next_target_id;
    let count = plan@.pending.len();
    if let Ok(commit) = result {
        lemma_numbering(before.identities, plan@.pending, first);
        assert(plan@.pending.take(count as int) =~= plan@.pending);
        assert(views(commit.aliases@).len() == commit.aliases@.len());
        assert forall|i: int| 0 <= i < commit.aliases@.len() implies {
            let alias = #[trigger] commit.aliases@[i];
            &&& alias.path@ == plan@.aliases[i].1
            &&& alias.distribution_index == before.inspectors.len()
            &&& match plan@.aliases[i].0 {
                PlannedTarget::Existing(target_id) => alias.target_id == target_id,
                PlannedTarget::Pending(k) => alias.target_id == first + k,
            }
        } by {
            assert(views(commit.aliases@)[i] == commit.aliases@[i]@);
            let planned = plan@.aliases[i];
        }
    }
}

} // verus!
