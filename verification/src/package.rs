//! The canonical targets of a package: one for every distinct file, with every place where the
//! file occurs.

use vstd::prelude::*;

use crate::error::{ensure_scan_time_remaining, Deadline, ScanError};
use crate::identities::{distinct, entry_views, identity_key, key_of, map_of, IdentityMap};
use crate::identity::{FileIdentity, IdentityView};
use crate::index::{lemma_positions, positions, KeyIndex};
use crate::order::{ascending, sort, Ordered};
use crate::path_order::{path_at_or_before, path_le};
use crate::paths::{
    extension, path_extension, relative_target_path, reported_path, target_path, target_path_in,
};
use crate::text::views;

verus! {

/// The target that stands for a file of a distribution.
#[derive(Clone, Copy, Debug, PartialEq, Eq, Structural)]
pub enum PlannedTarget {
    /// One that the package already has.
    Existing(u64),
    /// One of those that the distribution adds.
    Pending(usize),
}

/// A file of a distribution, and the target that stands for it.
#[derive(Debug)]
pub struct PlannedAlias {
    pub target: PlannedTarget,
    pub path: String,
}

impl View for PlannedAlias {
    type V = (PlannedTarget, Seq<char>);

    open spec fn view(&self) -> (PlannedTarget, Seq<char>) {
        (self.target, self.path@)
    }
}

/// A target that a distribution adds.
#[derive(Debug)]
pub struct PendingTarget {
    pub identity: FileIdentity,
    pub source: Vec<u8>,
}

impl View for PendingTarget {
    type V = (IdentityView, Seq<u8>);

    open spec fn view(&self) -> (IdentityView, Seq<u8>) {
        (self.identity@, self.source@)
    }
}

/// What adding a distribution to a package would do.
#[derive(Debug)]
pub struct DistributionTargetPlan {
    pub aliases: Vec<PlannedAlias>,
    pub pending: Vec<PendingTarget>,
}

/// A plan as a mathematical value.
pub struct PlanView {
    pub aliases: Seq<(PlannedTarget, Seq<char>)>,
    pub pending: Seq<(IdentityView, Seq<u8>)>,
}

impl View for DistributionTargetPlan {
    type V = PlanView;

    open spec fn view(&self) -> PlanView {
        PlanView { aliases: views(self.aliases@), pending: views(self.pending@) }
    }
}

/// The first pending target with an identity.
pub open spec fn pending_with(
    pending: Seq<(IdentityView, Seq<u8>)>,
    identity: IdentityView,
) -> Option<usize>
    decreases pending.len(),
{
    if pending.len() == 0 {
        None
    } else {
        match pending_with(pending.drop_last(), identity) {
            Some(k) => Some(k),
            None => if pending.last().0 == identity {
                Some((pending.len() - 1) as usize)
            } else {
                None
            },
        }
    }
}

pub proof fn lemma_pending_with(pending: Seq<(IdentityView, Seq<u8>)>, identity: IdentityView)
    requires
        pending.len() <= usize::MAX,
    ensures
        match pending_with(pending, identity) {
            Some(k) => {
                &&& k < pending.len()
                &&& pending[k as int].0 == identity
                &&& forall|j: int| 0 <= j < k ==> (#[trigger] pending[j]).0 != identity
            },
            None => forall|j: int|
                0 <= j < pending.len() ==> (#[trigger] pending[j]).0 != identity,
        },
    decreases pending.len(),
{
    if pending.len() > 0 {
        let before = pending.drop_last();
        lemma_pending_with(before, identity);
        assert(forall|j: int| 0 <= j < before.len() ==> before[j] == pending[j]);
    }
}

/// The target that stands for a file with an identity: one that the package has, else one that the
/// distribution already adds, else a new one.
pub open spec fn target_for(
    known: Map<IdentityView, u64>,
    pending: Seq<(IdentityView, Seq<u8>)>,
    identity: IdentityView,
) -> PlannedTarget {
    if known.contains_key(identity) {
        PlannedTarget::Existing(known[identity])
    } else {
        match pending_with(pending, identity) {
            Some(k) => PlannedTarget::Pending(k),
            None => PlannedTarget::Pending(pending.len() as usize),
        }
    }
}

/// A plan with one more file.
pub open spec fn with_file(
    known: Map<IdentityView, u64>,
    plan: PlanView,
    identity: IdentityView,
    source: Seq<u8>,
    path: Seq<char>,
) -> PlanView {
    PlanView {
        aliases: plan.aliases.push((target_for(known, plan.pending, identity), path)),
        pending: if known.contains_key(identity) || pending_with(plan.pending, identity) is Some {
            plan.pending
        } else {
            plan.pending.push((identity, source))
        },
    }
}

/// Whether a plan adds no target twice, none that the package has, and refers to those that it
/// adds only.
pub open spec fn plan_for(known: Map<IdentityView, u64>, plan: PlanView) -> bool {
    &&& plan.pending.len() <= usize::MAX
    &&& forall|i: int, j: int|
        0 <= i < j < plan.pending.len() ==> (#[trigger] plan.pending[i]).0 != (
        #[trigger] plan.pending[j]).0
    &&& forall|i: int|
        0 <= i < plan.pending.len() ==> !known.contains_key((#[trigger] plan.pending[i]).0)
    &&& in_range(plan)
}

/// Whether a plan refers to no pending target that it does not have.
pub open spec fn in_range(plan: PlanView) -> bool {
    forall|i: int|
        0 <= i < plan.aliases.len() ==> ((#[trigger] plan.aliases[i]).0 matches PlannedTarget::Pending(
            k,
        ) ==> k < plan.pending.len())
}

proof fn lemma_with_file(
    known: Map<IdentityView, u64>,
    plan: PlanView,
    identity: IdentityView,
    source: Seq<u8>,
    path: Seq<char>,
)
    requires
        plan_for(known, plan),
        with_file(known, plan, identity, source, path).pending.len() <= usize::MAX,
    ensures
        plan_for(known, with_file(known, plan, identity, source, path)),
{
    lemma_pending_with(plan.pending, identity);
    let next = with_file(known, plan, identity, source, path);
    assert forall|i: int, j: int| 0 <= i < j < next.pending.len() implies (
    #[trigger] next.pending[i]).0 != (#[trigger] next.pending[j]).0 by {
        if j < plan.pending.len() {
            assert(next.pending[i] == plan.pending[i] && next.pending[j] == plan.pending[j]);
        } else {
            assert(next.pending[i] == plan.pending[i]);
        }
    }
    assert forall|i: int| 0 <= i < next.pending.len() implies !known.contains_key(
        (#[trigger] next.pending[i]).0,
    ) by {
        if i < plan.pending.len() {
            assert(next.pending[i] == plan.pending[i]);
        }
    }
    assert forall|i: int| 0 <= i < next.aliases.len() implies ((
    #[trigger] next.aliases[i]).0 matches PlannedTarget::Pending(k) ==> k < next.pending.len()) by {
        if i < plan.aliases.len() {
            assert(next.aliases[i] == plan.aliases[i]);
        }
    }
}

/// A place where a target occurs.
#[derive(Debug, PartialEq)]
pub struct TargetAlias {
    pub target_id: u64,
    pub distribution_index: usize,
    pub path: String,
}

/// A place as a mathematical value.
pub struct AliasView {
    pub target_id: u64,
    pub distribution_index: usize,
    pub path: Seq<char>,
}

impl View for TargetAlias {
    type V = AliasView;

    open spec fn view(&self) -> AliasView {
        AliasView {
            target_id: self.target_id,
            distribution_index: self.distribution_index,
            path: self.path@,
        }
    }
}

/// A file to be linked into the directory of the targets.
#[derive(Debug, PartialEq)]
pub struct TargetLink {
    pub source: Vec<u8>,
    pub destination: Vec<u8>,
}

/// What is to be done to add a distribution to a package.
#[derive(Debug)]
pub struct Commit {
    /// The files that become targets.
    pub links: Vec<TargetLink>,
    /// The places to be added to the manifest.
    pub aliases: Vec<TargetAlias>,
}

/// A package as a mathematical value.
pub struct PackageView {
    /// The directory of the targets.
    pub directory: Seq<u8>,
    /// The target of every distinct file.
    pub identities: Map<IdentityView, u64>,
    /// The inspector URL of every distribution.
    pub inspectors: Seq<Seq<char>>,
    pub next_target_id: u64,
    pub deduplicated_files: usize,
}

/// Whether every identifier is below a bound.
pub open spec fn ids_below(identities: Map<IdentityView, u64>, bound: int) -> bool {
    forall|identity: IdentityView| #[trigger]
        identities.contains_key(identity) ==> identities[identity] < bound
}

/// Whether no two identities have the same identifier.
pub open spec fn injective(identities: Map<IdentityView, u64>) -> bool {
    forall|left: IdentityView, right: IdentityView|
        #![trigger identities[left], identities[right]]
        identities.contains_key(left) && identities.contains_key(right) && identities[left]
            == identities[right] ==> left == right
}

/// Whether there is one target for every identity: every target has an identifier below the next
/// one, no two have the same, and all identifiers below the next one are given out.
pub open spec fn ids_unique(package: PackageView) -> bool {
    &&& ids_below(package.identities, package.next_target_id as int)
    &&& injective(package.identities)
    &&& package.identities.dom().finite()
    &&& package.identities.len() == package.next_target_id
}

/// The targets of a package while its distributions are prepared.
pub struct PackageTarget {
    directory: Vec<u8>,
    identities: IdentityMap,
    inspectors: Vec<String>,
    next_target_id: u64,
    deduplicated_files: usize,
}

impl View for PackageTarget {
    type V = PackageView;

    closed spec fn view(&self) -> PackageView {
        PackageView {
            directory: self.directory@,
            identities: self.identities@,
            inspectors: views(self.inspectors@),
            next_target_id: self.next_target_id,
            deduplicated_files: self.deduplicated_files,
        }
    }
}

/// The targets of a plan, numbered from `first` on and added to those that are known.
pub open spec fn with_pending(
    known: Map<IdentityView, u64>,
    pending: Seq<(IdentityView, Seq<u8>)>,
    first: u64,
) -> Map<IdentityView, u64>
    decreases pending.len(),
{
    if pending.len() == 0 {
        known
    } else {
        with_pending(known, pending.drop_last(), first).insert(
            pending.last().0,
            (first + pending.len() - 1) as u64,
        )
    }
}

/// The identifier of a planned target, once those that are added are numbered from `first` on.
pub open spec fn resolved(target: PlannedTarget, first: u64) -> u64 {
    match target {
        PlannedTarget::Existing(target_id) => target_id,
        PlannedTarget::Pending(k) => (first + k) as u64,
    }
}

/// The sum, or the largest value where it does not fit.
pub open spec fn saturating_sum(left: usize, right: nat) -> usize {
    if left + right > usize::MAX {
        usize::MAX
    } else {
        (left + right) as usize
    }
}

/// How many files of a plan are not targets of their own.
pub open spec fn repeated_files(plan: PlanView) -> nat {
    if plan.aliases.len() > plan.pending.len() {
        (plan.aliases.len() - plan.pending.len()) as nat
    } else {
        0
    }
}

/// A package with a distribution of which the first `count` targets have been added.
pub open spec fn with_distribution(
    package: PackageView,
    plan: PlanView,
    inspector: Seq<char>,
    count: int,
) -> PackageView {
    PackageView {
        directory: package.directory,
        identities: with_pending(
            package.identities,
            plan.pending.take(count),
            package.next_target_id,
        ),
        inspectors: package.inspectors.push(inspector),
        next_target_id: (package.next_target_id + count) as u64,
        deduplicated_files: saturating_sum(package.deduplicated_files, repeated_files(plan)),
    }
}

/// The places that a plan adds to the manifest of a package.
pub open spec fn planned_aliases(package: PackageView, plan: PlanView) -> Seq<AliasView> {
    Seq::new(
        plan.aliases.len(),
        |i: int|
            AliasView {
                target_id: resolved(plan.aliases[i].0, package.next_target_id),
                distribution_index: package.inspectors.len() as usize,
                path: plan.aliases[i].1,
            },
    )
}

pub proof fn lemma_with_pending(
    known: Map<IdentityView, u64>,
    pending: Seq<(IdentityView, Seq<u8>)>,
    first: u64,
)
    requires
        first + pending.len() <= u64::MAX,
        ids_below(known, first as int),
        injective(known),
    ensures
        ids_below(with_pending(known, pending, first), first + pending.len()),
        injective(with_pending(known, pending, first)),
    decreases pending.len(),
{
    if pending.len() > 0 {
        let before = with_pending(known, pending.drop_last(), first);
        let all = with_pending(known, pending, first);
        let last = pending.last().0;
        lemma_with_pending(known, pending.drop_last(), first);
        assert forall|identity: IdentityView| #[trigger] all.contains_key(identity) implies all[identity]
            < first + pending.len() by {
            if identity != last {
                assert(before.contains_key(identity));
            }
        }
        assert forall|left: IdentityView, right: IdentityView|
            #![trigger all[left], all[right]]
            all.contains_key(left) && all.contains_key(right) && all[left]
                == all[right] implies left == right by {
            if left != last {
                assert(before.contains_key(left));
                assert(before[left] == all[left]);
            }
            if right != last {
                assert(before.contains_key(right));
                assert(before[right] == all[right]);
            }
        }
    }
}

/// Pending targets that are new and distinct get consecutive identifiers, and the known targets
/// keep theirs.
pub proof fn lemma_numbering(
    known: Map<IdentityView, u64>,
    pending: Seq<(IdentityView, Seq<u8>)>,
    first: u64,
)
    requires
        first + pending.len() <= u64::MAX,
        forall|i: int, j: int|
            0 <= i < j < pending.len() ==> (#[trigger] pending[i]).0 != (#[trigger] pending[j]).0,
        forall|i: int| 0 <= i < pending.len() ==> !known.contains_key((#[trigger] pending[i]).0),
    ensures
        forall|k: int|
            0 <= k < pending.len() ==> {
                &&& with_pending(known, pending, first).contains_key((#[trigger] pending[k]).0)
                &&& with_pending(known, pending, first)[pending[k].0] == first + k
            },
        forall|identity: IdentityView| #[trigger]
            known.contains_key(identity) ==> {
                &&& with_pending(known, pending, first).contains_key(identity)
                &&& with_pending(known, pending, first)[identity] == known[identity]
            },
        forall|identity: IdentityView| #[trigger]
            with_pending(known, pending, first).contains_key(identity) ==> known.contains_key(
                identity,
            ) || exists|k: int| 0 <= k < pending.len() && (#[trigger] pending[k]).0 == identity,
        known.dom().finite() ==> {
            &&& with_pending(known, pending, first).dom().finite()
            &&& with_pending(known, pending, first).len() == known.len() + pending.len()
        },
    decreases pending.len(),
{
    if pending.len() > 0 {
        let before = pending.drop_last();
        let last = pending.last().0;
        assert forall|i: int, j: int| 0 <= i < j < before.len() implies (#[trigger] before[i]).0 != (
        #[trigger] before[j]).0 by {
            assert(before[i] == pending[i] && before[j] == pending[j]);
        }
        assert forall|i: int| 0 <= i < before.len() implies !known.contains_key(
            (#[trigger] before[i]).0,
        ) by {
            assert(before[i] == pending[i]);
        }
        lemma_numbering(known, before, first);
        let earlier = with_pending(known, before, first);
        let all = with_pending(known, pending, first);
        assert(pending[pending.len() - 1].0 == last);
        assert(!earlier.contains_key(last)) by {
            if earlier.contains_key(last) && !known.contains_key(last) {
                let k = choose|k: int| 0 <= k < before.len() && (#[trigger] before[k]).0 == last;
                assert(pending[k].0 == last);
            }
        }
        assert forall|k: int| 0 <= k < pending.len() implies all.contains_key(
            (#[trigger] pending[k]).0,
        ) && all[pending[k].0] == first + k by {
            if k < before.len() {
                assert(before[k] == pending[k]);
            }
        }
        assert forall|identity: IdentityView| #[trigger]
            all.contains_key(identity) implies known.contains_key(identity) || exists|k: int|
            0 <= k < pending.len() && (#[trigger] pending[k]).0 == identity by {
            if identity == last {
                assert(pending[pending.len() - 1].0 == identity);
            } else if !known.contains_key(identity) {
                assert(earlier.contains_key(identity));
                let k = choose|k: int| 0 <= k < before.len() && (#[trigger] before[k]).0 == identity;
                assert(pending[k].0 == identity);
            }
        }
    }
}

/// Adding the first targets of a plan leaves one target for every identity.
pub proof fn lemma_committed(
    package: PackageView,
    plan: PlanView,
    inspector: Seq<char>,
    count: int,
)
    requires
        ids_unique(package),
        plan_for(package.identities, plan),
        0 <= count <= plan.pending.len(),
        package.next_target_id + count <= u64::MAX,
    ensures
        ids_unique(with_distribution(package, plan, inspector, count)),
{
    let known = package.identities;
    let first = package.next_target_id;
    let added = plan.pending.take(count);
    assert forall|i: int, j: int| 0 <= i < j < added.len() implies (#[trigger] added[i]).0 != (
    #[trigger] added[j]).0 by {
        assert(added[i] == plan.pending[i] && added[j] == plan.pending[j]);
    }
    assert forall|i: int| 0 <= i < added.len() implies !known.contains_key(
        (#[trigger] added[i]).0,
    ) by {
        assert(added[i] == plan.pending[i]);
    }
    lemma_numbering(known, added, first);
    lemma_with_pending(known, added, first);
}

impl PackageTarget {
    /// Whether the identities are well formed, and there is one target for every identity.
    pub closed spec fn wf(self) -> bool {
        &&& self.identities.wf()
        &&& ids_unique(self@)
    }

    /// A package has one target for every identity, each with its own identifier.
    pub proof fn law_targets_have_their_own_identifiers(self)
        requires
            self.wf(),
        ensures
            ids_unique(self@),
    {
    }

    /// A package without distributions whose targets go into a directory.
    pub fn new(directory: Vec<u8>) -> (package: Self)
        ensures
            package.wf(),
            package@ == (PackageView {
                directory: directory@,
                identities: Map::empty(),
                inspectors: Seq::empty(),
                next_target_id: 0,
                deduplicated_files: 0,
            }),
    {
        let package = PackageTarget {
            directory,
            identities: IdentityMap::new(),
            inspectors: Vec::new(),
            next_target_id: 0,
            deduplicated_files: 0,
        };
        assert(package@.inspectors =~= Seq::<Seq<char>>::empty());
        package
    }

    /// The directory of the targets.
    pub fn path(&self) -> (path: &[u8])
        ensures
            path@ == self@.directory,
    {
        self.directory.as_slice()
    }

    /// Whether there is no target.
    pub fn is_empty(&self) -> (result: bool)
        ensures
            result == (self@.next_target_id == 0),
    {
        self.next_target_id == 0
    }

    /// How many targets there are.
    pub fn target_count(&self) -> (count: u64)
        ensures
            count == self@.next_target_id,
    {
        self.next_target_id
    }

    /// How many files are not targets of their own.
    pub fn deduplicated_files(&self) -> (count: usize)
        ensures
            count == self@.deduplicated_files,
    {
        self.deduplicated_files
    }

    /// The identity and the identifier of every target, each once.
    pub fn identities(&self) -> (entries: &Vec<(FileIdentity, u64)>)
        requires
            self.wf(),
        ensures
            distinct(entry_views(entries@)),
            map_of(entry_views(entries@)) == self@.identities,
    {
        self.identities.entries()
    }

    /// The inspector URL of a distribution.
    pub fn inspector(&self, distribution_index: usize) -> (result: Option<&str>)
        ensures
            match result {
                Some(inspector) => {
                    &&& distribution_index < self@.inspectors.len()
                    &&& inspector@ == self@.inspectors[distribution_index as int]
                },
                None => distribution_index >= self@.inspectors.len(),
            },
    {
        if distribution_index < self.inspectors.len() {
            Some(self.inspectors[distribution_index].as_str())
        } else {
            None
        }
    }

    /// The path of a target.
    pub fn target_path(&self, target_id: u64, extension: Option<&[u8]>) -> (path: Vec<u8>)
        ensures
            path@ == target_path_in(
                self@.directory,
                target_id,
                match extension {
                    Some(bytes) => Some(bytes@),
                    None => None,
                },
            ),
    {
        target_path(self.directory.as_slice(), target_id, extension)
    }

    /// Adds a planned distribution, whose files can be inspected below a URL. Fails where there
    /// are not enough identifiers; the targets that still have one are then added.
    pub fn commit_distribution(
        &mut self,
        plan: DistributionTargetPlan,
        inspector: String,
    ) -> (result: Result<Commit, ScanError>)
        requires
            old(self).wf(),
            plan_for(old(self)@.identities, plan@),
        ensures
            final(self).wf(),
            match result {
                Ok(commit) => {
                    &&& old(self)@.next_target_id + plan@.pending.len() <= u64::MAX
                    &&& final(self)@ == with_distribution(
                        old(self)@,
                        plan@,
                        inspector@,
                        plan@.pending.len() as int,
                    )
                    &&& views(commit.aliases@) == planned_aliases(old(self)@, plan@)
                    &&& commit.links@.len() == plan@.pending.len()
                    &&& forall|k: int|
                        0 <= k < commit.links@.len() ==> {
                            &&& (#[trigger] commit.links@[k]).source@ == plan@.pending[k].1
                            &&& commit.links@[k].destination@ == target_path_in(
                                old(self)@.directory,
                                (old(self)@.next_target_id + k) as u64,
                                plan@.pending[k].0.extension,
                            )
                        }
                },
                Err(error) => {
                    &&& old(self)@.next_target_id + plan@.pending.len() > u64::MAX
                    &&& error == ScanError::TargetIdOverflow
                    &&& final(self)@ == with_distribution(
                        old(self)@,
                        plan@,
                        inspector@,
                        u64::MAX - old(self)@.next_target_id,
                    )
                },
            },
    {
        let ghost start = self@;
        let ghost planned = plan@;
        let distribution_index: usize = self.inspectors.len();
        self.inspectors.push(inspector);
        assert(views(self.inspectors@) =~= start.inspectors.push(inspector@));
        let aliases_len: usize = plan.aliases.len();
        let pending_len: usize = plan.pending.len();
        let repeated: usize = if aliases_len > pending_len {
            aliases_len - pending_len
        } else {
            0
        };
        self.deduplicated_files = if self.deduplicated_files > usize::MAX - repeated {
            usize::MAX
        } else {
            self.deduplicated_files + repeated
        };
        let first: u64 = self.next_target_id;
        let mut links: Vec<TargetLink> = Vec::new();
        assert(planned.pending.take(0) =~= Seq::<(IdentityView, Seq<u8>)>::empty());
        for pending in it: plan.pending
            invariant
                it.seq() == plan.pending@,
                planned == plan@,
                start == old(self)@,
                first == start.next_target_id,
                self.identities.wf(),
                self.directory@ == start.directory,
                views(self.inspectors@) == start.inspectors.push(inspector@),
                self.deduplicated_files == saturating_sum(
                    start.deduplicated_files,
                    repeated_files(planned),
                ),
                ids_unique(start),
                plan_for(start.identities, planned),
                start.next_target_id + it.index() <= u64::MAX,
                self.next_target_id == start.next_target_id + it.index(),
                self.identities@ == with_pending(
                    start.identities,
                    planned.pending.take(it.index() as int),
                    first,
                ),
                links@.len() == it.index(),
                forall|k: int|
                    0 <= k < links@.len() ==> {
                        &&& (#[trigger] links@[k]).source@ == planned.pending[k].1
                        &&& links@[k].destination@ == target_path_in(
                            start.directory,
                            (start.next_target_id + k) as u64,
                            planned.pending[k].0.extension,
                        )
                    },
        {
            let ghost i = it.index() as int;
            assert(planned.pending[i] == pending@);
            let target_id: u64 = self.next_target_id;
            if target_id == u64::MAX {
                proof {
                    lemma_committed(start, planned, inspector@, i);
                }
                return Err(ScanError::TargetIdOverflow);
            }
            self.next_target_id = target_id + 1;
            let destination = match &pending.identity.extension {
                Some(bytes) => target_path(
                    self.directory.as_slice(),
                    target_id,
                    Some(bytes.as_slice()),
                ),
                None => target_path(self.directory.as_slice(), target_id, None),
            };
            assert(planned.pending.take(i + 1).drop_last() == planned.pending.take(i));
            assert(planned.pending.take(i + 1).last() == pending@);
            self.identities.insert(pending.identity, target_id);
            links.push(TargetLink { source: pending.source, destination });
        }
        proof {
            assert(planned.pending.take(planned.pending.len() as int) == planned.pending);
            lemma_committed(start, planned, inspector@, planned.pending.len() as int);
        }
        let mut aliases: Vec<TargetAlias> = Vec::new();
        assert(views(aliases@) =~= planned_aliases(start, planned).take(0));
        for alias in it: plan.aliases
            invariant
                it.seq() == plan.aliases@,
                planned == plan@,
                in_range(planned),
                first == start.next_target_id,
                distribution_index == start.inspectors.len(),
                start.next_target_id + planned.pending.len() <= u64::MAX,
                views(aliases@) == planned_aliases(start, planned).take(it.index() as int),
        {
            let ghost i = it.index() as int;
            let ghost before = views(aliases@);
            assert(planned.aliases[i] == alias@);
            let target_id: u64 = match alias.target {
                PlannedTarget::Existing(target_id) => target_id,
                PlannedTarget::Pending(k) => first + k as u64,
            };
            aliases.push(TargetAlias { target_id, distribution_index, path: alias.path });
            assert(views(aliases@) =~= before.push(planned_aliases(start, planned)[i]));
            assert(planned_aliases(start, planned).take(i + 1) =~= before.push(
                planned_aliases(start, planned)[i],
            ));
        }
        assert(planned_aliases(start, planned).take(planned.aliases.len() as int)
            =~= planned_aliases(start, planned));
        Ok(Commit { links, aliases })
    }
}

/// A file of a distribution, and when its turn came.
#[derive(Debug)]
pub struct SourceFile {
    /// Where the file is.
    pub path: Vec<u8>,
    pub size: u64,
    /// The digest of the contents.
    pub digest: u128,
    /// When the file was reached, in nanoseconds from an origin that all times share.
    pub reached: u128,
}

/// Whether a file is taken, and under which path: one that is too large is left out.
pub open spec fn admission(
    path: Seq<u8>,
    source_directory: Seq<u8>,
    size: u64,
    max_scan_size: u64,
) -> Result<Option<Seq<char>>, ScanError> {
    if size > max_scan_size {
        Ok(None)
    } else {
        match reported_path(path, source_directory) {
            Ok(relative) => Ok(Some(relative)),
            Err(error) => Err(error),
        }
    }
}

/// Decides whether a file of a distribution is taken, and under which path.
pub fn admit_file(
    path: &[u8],
    source_directory: &[u8],
    size: u64,
    max_scan_size: u64,
) -> (result: Result<Option<String>, ScanError>)
    ensures
        match result {
            Ok(Some(relative)) => admission(path@, source_directory@, size, max_scan_size) == Ok::<
                Option<Seq<char>>,
                ScanError,
            >(Some(relative@)),
            Ok(None) => admission(path@, source_directory@, size, max_scan_size) == Ok::<
                Option<Seq<char>>,
                ScanError,
            >(None),
            Err(error) => admission(path@, source_directory@, size, max_scan_size) == Err::<
                Option<Seq<char>>,
                ScanError,
            >(error),
        },
{
    if size > max_scan_size {
        return Ok(None);
    }
    match relative_target_path(path, source_directory) {
        Ok(relative) => Ok(Some(relative)),
        Err(error) => Err(error),
    }
}

/// The identity of a file.
pub open spec fn identity_of(file: SourceFile) -> IdentityView {
    IdentityView { digest: file.digest, size: file.size, extension: path_extension(file.path@) }
}

/// The plan for files in their order; the first fault counts, and a file whose turn comes too late
/// is one.
pub open spec fn plan_of(
    known: Map<IdentityView, u64>,
    files: Seq<SourceFile>,
    source_directory: Seq<u8>,
    max_scan_size: u64,
    deadline: u128,
) -> Result<PlanView, ScanError>
    decreases files.len(),
{
    if files.len() == 0 {
        Ok(PlanView { aliases: Seq::empty(), pending: Seq::empty() })
    } else {
        let file = files.last();
        match plan_of(known, files.drop_last(), source_directory, max_scan_size, deadline) {
            Err(error) => Err(error),
            Ok(plan) => if file.reached >= deadline {
                Err(ScanError::Timeout(Deadline::Preparation))
            } else {
                match admission(file.path@, source_directory, file.size, max_scan_size) {
                    Err(error) => Err(error),
                    Ok(None) => Ok(plan),
                    Ok(Some(relative)) => Ok(
                        with_file(known, plan, identity_of(file), file.path@, relative),
                    ),
                }
            },
        }
    }
}

proof fn lemma_plan_fault_stays(
    known: Map<IdentityView, u64>,
    files: Seq<SourceFile>,
    directory: Seq<u8>,
    max_scan_size: u64,
    deadline: u128,
    end: int,
)
    requires
        0 <= end <= files.len(),
        plan_of(known, files.take(end), directory, max_scan_size, deadline) is Err,
    ensures
        plan_of(known, files, directory, max_scan_size, deadline) == plan_of(
            known,
            files.take(end),
            directory,
            max_scan_size,
            deadline,
        ),
    decreases files.len() - end,
{
    if end == files.len() {
        assert(files.take(end) == files);
    } else {
        assert(files.take(end + 1).drop_last() == files.take(end));
        lemma_plan_fault_stays(known, files, directory, max_scan_size, deadline, end + 1);
    }
}

/// A plan for files refers to no target that it does not add, and adds none twice and none that
/// is known.
pub proof fn lemma_plan_of(
    known: Map<IdentityView, u64>,
    files: Seq<SourceFile>,
    directory: Seq<u8>,
    max_scan_size: u64,
    deadline: u128,
)
    requires
        files.len() <= usize::MAX,
    ensures
        plan_of(known, files, directory, max_scan_size, deadline) matches Ok(plan) ==> {
            &&& plan.pending.len() <= plan.aliases.len() <= files.len()
            &&& plan_for(known, plan)
        },
    decreases files.len(),
{
    if files.len() > 0 {
        let before = files.drop_last();
        let file = files.last();
        lemma_plan_of(known, before, directory, max_scan_size, deadline);
        if let Ok(plan) = plan_of(known, before, directory, max_scan_size, deadline) {
            if let Ok(Some(relative)) = admission(
                file.path@,
                directory,
                file.size,
                max_scan_size,
            ) {
                lemma_with_file(known, plan, identity_of(file), file.path@, relative);
            }
        }
    }
}

/// The keys of pending targets.
pub open spec fn pending_keys(pending: Seq<(IdentityView, Seq<u8>)>) -> Seq<u64> {
    Seq::new(pending.len(), |i: int| identity_key(pending[i].0))
}

/// A plan in the making.
pub struct DistributionPlanner {
    plan: DistributionTargetPlan,
    index: KeyIndex,
}

impl View for DistributionPlanner {
    type V = PlanView;

    closed spec fn view(&self) -> PlanView {
        self.plan@
    }
}

impl DistributionPlanner {
    /// Whether the index lists the pending targets.
    pub closed spec fn wf(self) -> bool {
        &&& self.index.wf()
        &&& self.index@ == pending_keys(self@.pending)
    }

    /// A plan without files.
    pub fn new() -> (planner: Self)
        ensures
            planner.wf(),
            planner@ == (PlanView { aliases: Seq::empty(), pending: Seq::empty() }),
    {
        let planner = DistributionPlanner {
            plan: DistributionTargetPlan { aliases: Vec::new(), pending: Vec::new() },
            index: KeyIndex::new(),
        };
        assert(planner@.aliases =~= Seq::<(PlannedTarget, Seq<char>)>::empty());
        assert(planner@.pending =~= Seq::<(IdentityView, Seq<u8>)>::empty());
        assert(pending_keys(planner@.pending) =~= Seq::<u64>::empty());
        planner
    }

    /// The pending target with an identity.
    fn find_pending(&self, identity: &FileIdentity) -> (result: Option<usize>)
        requires
            self.wf(),
        ensures
            self@.pending.len() <= usize::MAX,
            result == pending_with(self@.pending, identity@),
    {
        let ghost pending = self@.pending;
        let total: usize = self.plan.pending.len();
        let key = key_of(identity);
        proof {
            lemma_positions(self.index@, key);
            lemma_positions_rise(self.index@, key);
            lemma_pending_with(pending, identity@);
        }
        let ghost listed = positions(self.index@, key);
        assert forall|i: int| 0 <= i < pending.len() && (#[trigger] pending[i]).0
            == identity@ implies listed.contains(i as usize) by {
            assert(self.index@[i] == key);
        }
        match self.index.find(key) {
            None => None,
            Some(list) => {
                let mut k: usize = 0;
                while k < list.len()
                    invariant
                        self.wf(),
                        pending == self@.pending,
                        total == self.plan.pending@.len(),
                        listed == positions(self.index@, key),
                        list@ == listed,
                        k <= list@.len(),
                        forall|i: int|
                            0 <= i < pending.len() && (#[trigger] pending[i]).0 == identity@
                                ==> listed.contains(i as usize),
                        forall|j: int|
                            0 <= j < k ==> pending[#[trigger] list@[j] as int].0 != identity@,
                    decreases list@.len() - k,
                {
                    proof {
                        lemma_positions(self.index@, key);
                        lemma_positions_rise(self.index@, key);
                        lemma_pending_with(pending, identity@);
                    }
                    let position: usize = list[k];
                    assert(position < total);
                    if self.plan.pending[position].identity.same_as(identity) {
                        proof {
                            assert(pending[position as int].0 == identity@);
                            let first = pending_with(pending, identity@)->0;
                            assert(pending[first as int].0 == identity@);
                            let j = choose|j: int| 0 <= j < listed.len() && listed[j] == first;
                            assert(list@[j] == first);
                            assert(j >= k);
                            if j > k {
                                assert(listed[k as int] < listed[j]);
                            }
                        }
                        return Some(position);
                    }
                    assert(pending[position as int].0 != identity@);
                    k += 1;
                }
                proof {
                    lemma_pending_with(pending, identity@);
                    if let Some(first) = pending_with(pending, identity@) {
                        assert(pending[first as int].0 == identity@);
                        let j = choose|j: int| 0 <= j < listed.len() && listed[j] == first;
                        assert(pending[list@[j] as int].0 == identity@);
                    }
                }
                None
            },
        }
    }

    /// Adds a file under the path that it is reported with.
    pub fn add(
        &mut self,
        package: &PackageTarget,
        identity: FileIdentity,
        source: Vec<u8>,
        path: String,
    )
        requires
            old(self).wf(),
            package.wf(),
            plan_for(package@.identities, old(self)@),
        ensures
            final(self).wf(),
            plan_for(package@.identities, final(self)@),
            final(self)@ == with_file(
                package@.identities,
                old(self)@,
                identity@,
                source@,
                path@,
            ),
    {
        let ghost start = self@;
        let ghost expected = with_file(package@.identities, start, identity@, source@, path@);
        let target = match package.identities.get(&identity) {
            Some(target_id) => PlannedTarget::Existing(target_id),
            None => match self.find_pending(&identity) {
                Some(k) => {
                    proof {
                        lemma_pending_with(start.pending, identity@);
                    }
                    PlannedTarget::Pending(k)
                },
                None => {
                    let k: usize = self.plan.pending.len();
                    self.index.add(key_of(&identity), k);
                    let ghost added = (identity@, source@);
                    self.plan.pending.push(PendingTarget { identity, source });
                    assert(views(self.plan.pending@) =~= start.pending.push(added));
                    assert(pending_keys(self@.pending) =~= pending_keys(start.pending).push(
                        identity_key(added.0),
                    ));
                    PlannedTarget::Pending(k)
                },
            },
        };
        self.plan.aliases.push(PlannedAlias { target, path });
        assert(views(self.plan.aliases@) =~= start.aliases.push((target, path@)));
        assert(self@ == expected);
        let total: usize = self.plan.pending.len();
        proof {
            assert(total == self@.pending.len());
            lemma_with_file(package@.identities, start, identity@, source@, path@);
        }
    }

    /// The plan.
    pub fn finish(self) -> (plan: DistributionTargetPlan)
        ensures
            plan@ == self@,
    {
        self.plan
    }
}

/// The positions of a key rise.
proof fn lemma_positions_rise(keys: Seq<u64>, key: u64)
    requires
        keys.len() <= usize::MAX,
    ensures
        forall|i: int, j: int|
            0 <= i < j < positions(keys, key).len() ==> #[trigger] positions(keys, key)[i]
                < #[trigger] positions(keys, key)[j],
    decreases keys.len(),
{
    if keys.len() > 0 {
        lemma_positions_rise(keys.drop_last(), key);
        lemma_positions(keys.drop_last(), key);
        let before = positions(keys.drop_last(), key);
        let all = positions(keys, key);
        assert forall|i: int, j: int| 0 <= i < j < all.len() implies #[trigger] all[i]
            < #[trigger] all[j] by {
            if j < before.len() {
                assert(before[i] < before[j]);
            } else {
                assert(before[i] < keys.drop_last().len());
            }
        }
    }
}

/// Files are ordered by their paths.
impl Ordered for SourceFile {
    open spec fn at_or_before(self, other: Self) -> bool {
        path_le(self.path@, other.path@)
    }

    proof fn lemma_total(left: Self, right: Self) {
        Vec::<u8>::lemma_total(left.path, right.path);
    }

    proof fn lemma_transitive(a: Self, b: Self, c: Self) {
        Vec::<u8>::lemma_transitive(a.path, b.path, c.path);
    }

    fn is_at_or_before(&self, other: &Self) -> (result: bool) {
        path_at_or_before(self.path.as_slice(), other.path.as_slice())
    }
}

/// Whether these are the given files, in the order of their paths.
pub open spec fn in_path_order(files: Seq<SourceFile>, given: Seq<SourceFile>) -> bool {
    &&& ascending(files)
    &&& files.to_multiset() == given.to_multiset()
}

/// Whether this is what planning gives for files, which are taken in the order of their paths.
pub open spec fn is_plan(
    known: Map<IdentityView, u64>,
    given: Seq<SourceFile>,
    source_directory: Seq<u8>,
    max_scan_size: u64,
    deadline: u128,
    result: Result<PlanView, ScanError>,
) -> bool {
    exists|files: Seq<SourceFile>|
        {
            &&& #[trigger] in_path_order(files, given)
            &&& plan_of(known, files, source_directory, max_scan_size, deadline) == result
        }
}

/// Whether the places of a plan are those of some files, one by one.
pub open spec fn are_places_of(
    files: Seq<SourceFile>,
    source_directory: Seq<u8>,
    aliases: Seq<(PlannedTarget, Seq<char>)>,
) -> bool {
    &&& files.len() == aliases.len()
    &&& forall|i: int|
        0 <= i < files.len() ==> reported_path((#[trigger] files[i]).path@, source_directory)
            == Ok::<Seq<char>, ScanError>(aliases[i].1)
}

/// Whether a plan has one place for every file that is not too large, in the order of the paths of
/// the files.
pub open spec fn places_in_order(
    given: Seq<SourceFile>,
    source_directory: Seq<u8>,
    max_scan_size: u64,
    plan: PlanView,
) -> bool {
    exists|files: Seq<SourceFile>|
        {
            &&& #[trigger] are_places_of(files, source_directory, plan.aliases)
            &&& ascending(files)
            &&& files.to_multiset() == given.to_multiset().filter(
                |file: SourceFile| file.size <= max_scan_size,
            )
        }
}

/// The files that are not too large, in order.
spec fn small(files: Seq<SourceFile>, max_scan_size: u64) -> Seq<SourceFile>
    decreases files.len(),
{
    if files.len() == 0 {
        Seq::empty()
    } else {
        let before = small(files.drop_last(), max_scan_size);
        if files.last().size <= max_scan_size {
            before.push(files.last())
        } else {
            before
        }
    }
}

proof fn lemma_small(files: Seq<SourceFile>, max_scan_size: u64)
    ensures
        small(files, max_scan_size).to_multiset() == files.to_multiset().filter(
            |file: SourceFile| file.size <= max_scan_size,
        ),
        forall|k: int|
            0 <= k < small(files, max_scan_size).len() ==> files.contains(
                #[trigger] small(files, max_scan_size)[k],
            ),
        ascending(files) ==> ascending(small(files, max_scan_size)),
    decreases files.len(),
{
    broadcast use vstd::seq_lib::group_to_multiset_ensures;
    broadcast use vstd::multiset::group_multiset_axioms;

    let fits = |file: SourceFile| file.size <= max_scan_size;
    let all = small(files, max_scan_size);
    if files.len() == 0 {
        assert(files.to_multiset().len() == 0);
        assert(all.to_multiset().len() == 0);
        assert(all.to_multiset() =~= files.to_multiset().filter(fits));
    } else {
        let before = files.drop_last();
        let last = files.last();
        let kept = small(before, max_scan_size);
        lemma_small(before, max_scan_size);
        assert(files =~= before.push(last));
        assert(files.to_multiset() == before.to_multiset().insert(last));
        assert(all.to_multiset() =~= files.to_multiset().filter(fits));
        assert forall|k: int| 0 <= k < all.len() implies files.contains(#[trigger] all[k]) by {
            if k < kept.len() {
                assert(before.contains(kept[k]));
                let i = choose|i: int| 0 <= i < before.len() && before[i] == kept[k];
                assert(files[i] == all[k]);
            } else {
                assert(files[files.len() - 1] == all[k]);
            }
        }
        if ascending(files) {
            assert(ascending(before)) by {
                assert forall|i: int, j: int| 0 <= i < j < before.len() implies (
                #[trigger] before[i]).at_or_before(#[trigger] before[j]) by {
                    assert(before[i] == files[i] && before[j] == files[j]);
                }
            }
            assert forall|i: int, j: int| 0 <= i < j < all.len() implies (
            #[trigger] all[i]).at_or_before(#[trigger] all[j]) by {
                if j < kept.len() {
                    assert(all[i] == kept[i] && all[j] == kept[j]);
                } else {
                    assert(all[i] == kept[i]);
                    assert(before.contains(kept[i]));
                    let k = choose|k: int| 0 <= k < before.len() && before[k] == kept[i];
                    assert(files[k] == all[i]);
                    assert(files[files.len() - 1] == all[j]);
                }
            }
        }
    }
}

proof fn lemma_places(
    known: Map<IdentityView, u64>,
    files: Seq<SourceFile>,
    directory: Seq<u8>,
    max_scan_size: u64,
    deadline: u128,
)
    ensures
        plan_of(known, files, directory, max_scan_size, deadline) matches Ok(plan)
            ==> are_places_of(small(files, max_scan_size), directory, plan.aliases),
    decreases files.len(),
{
    if files.len() > 0 {
        let before = files.drop_last();
        lemma_places(known, before, directory, max_scan_size, deadline);
        if let Ok(plan) = plan_of(known, files, directory, max_scan_size, deadline) {
            let earlier = plan_of(known, before, directory, max_scan_size, deadline)->Ok_0;
            let kept = small(before, max_scan_size);
            let all = small(files, max_scan_size);
            assert forall|i: int| 0 <= i < all.len() implies reported_path(
                (#[trigger] all[i]).path@,
                directory,
            ) == Ok::<Seq<char>, ScanError>(plan.aliases[i].1) by {
                if i < kept.len() {
                    assert(all[i] == kept[i]);
                    assert(plan.aliases[i] == earlier.aliases[i]);
                }
            }
        }
    }
}

impl PackageTarget {
    /// Plans what adding a distribution would do, from its files, which are taken in the order of
    /// their paths. The package stays as it is.
    pub fn plan_distribution(
        &self,
        source_directory: &[u8],
        files: Vec<SourceFile>,
        max_scan_size: u64,
        deadline: u128,
    ) -> (result: Result<DistributionTargetPlan, ScanError>)
        requires
            self.wf(),
        ensures
            match result {
                Ok(plan) => {
                    &&& is_plan(
                        self@.identities,
                        files@,
                        source_directory@,
                        max_scan_size,
                        deadline,
                        Ok(plan@),
                    )
                    &&& places_in_order(files@, source_directory@, max_scan_size, plan@)
                    &&& plan_for(self@.identities, plan@)
                },
                Err(error) => is_plan(
                    self@.identities,
                    files@,
                    source_directory@,
                    max_scan_size,
                    deadline,
                    Err(error),
                ),
            },
    {
        let ghost given = files@;
        let sorted = sort(files);
        let ghost all = sorted@;
        let ghost known = self@.identities;
        assert(in_path_order(all, given));
        let mut planner = DistributionPlanner::new();
        for file in it: sorted
            invariant
                self.wf(),
                known == self@.identities,
                in_path_order(all, given),
                given == files@,
                it.seq() == all,
                planner.wf(),
                plan_for(known, planner@),
                plan_of(
                    known,
                    all.take(it.index() as int),
                    source_directory@,
                    max_scan_size,
                    deadline,
                ) == Ok::<PlanView, ScanError>(planner@),
        {
            let ghost i = it.index() as int;
            assert(all.take(i + 1).drop_last() == all.take(i));
            assert(all.take(i + 1).last() == file);
            if let Err(error) = ensure_scan_time_remaining(file.reached, deadline) {
                proof {
                    lemma_plan_fault_stays(
                        known,
                        all,
                        source_directory@,
                        max_scan_size,
                        deadline,
                        i + 1,
                    );
                }
                return Err(error);
            }
            match admit_file(file.path.as_slice(), source_directory, file.size, max_scan_size) {
                Err(error) => {
                    proof {
                        lemma_plan_fault_stays(
                            known,
                            all,
                            source_directory@,
                            max_scan_size,
                            deadline,
                            i + 1,
                        );
                    }
                    return Err(error);
                },
                Ok(None) => {},
                Ok(Some(relative)) => {
                    let identity = FileIdentity {
                        digest: file.digest,
                        size: file.size,
                        extension: extension(file.path.as_slice()),
                    };
                    assert(identity@ == identity_of(file));
                    planner.add(self, identity, file.path, relative);
                },
            }
        }
        assert(all.take(all.len() as int) == all);
        proof {
            lemma_places(known, all, source_directory@, max_scan_size, deadline);
            lemma_small(all, max_scan_size);
            assert(are_places_of(
                small(all, max_scan_size),
                source_directory@,
                planner@.aliases,
            ));
        }
        Ok(planner.finish())
    }
}

} // verus!
