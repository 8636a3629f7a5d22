use vstd::prelude::*;

use crate::collections::{
    MapKey, SortedMap, first_where, is_first, lemma_filter_member, lemma_filter_no_duplicates,
    lemma_first_exists, lemma_first_where_at, lemma_first_where_none,
};
use crate::domain::{Action, ActionView, GoalPredicate, MissionId, MissionSpec, Observation, OwnerPath, same_contract, same_except_deadline};
use crate::text::str_eq;
use crate::fsm::MissionState;

use super::goal::evidence_sorted;
use super::progress::{EconomyProgress, checkpoint_opt_view, spec_checkpoint};
use super::goal::GoalEvidence;
use super::record::{
    MissionCancellation, MissionCompletion, MissionFailure, MissionRecord, MissionResolution, MissionView,
    resolution_of, view_of,
};

verus! {

#[derive(Clone, Copy, Debug, PartialEq, Eq, Structural)]
pub enum MissionRegistryError {
    DuplicateMission,
    UnknownMission,
    MissingPlan,
    IntentNotAllowed,
    SelfDependency,
    UnknownDependency,
    DependencyUnavailable,
    InvalidTransition,
}

pub open spec fn spec_is_terminal(s: MissionState) -> bool {
    s == MissionState::Succeeded || s == MissionState::Failed || s == MissionState::Cancelled || s == MissionState::Expired
}

pub open spec fn spec_is_active(s: MissionState) -> bool {
    s == MissionState::Assigned || s == MissionState::Executing || s == MissionState::Blocked || s == MissionState::Suspended
}

pub open spec fn spec_is_blockable(s: MissionState) -> bool {
    s == MissionState::Assigned || s == MissionState::Executing || s == MissionState::Blocked
}

pub open spec fn spec_dependency_unavailable(s: MissionState) -> bool {
    s == MissionState::Failed || s == MissionState::Cancelled || s == MissionState::Expired
}

pub open spec fn spec_goal_can_complete(s: MissionState) -> bool {
    s == MissionState::Ready || spec_is_active(s)
}

/// States reached only once every prerequisite has succeeded.
pub open spec fn spec_released(s: MissionState) -> bool {
    s == MissionState::Ready || spec_is_active(s) || s == MissionState::Succeeded
}

pub fn is_terminal(s: MissionState) -> (r: bool)
    ensures
        r == spec_is_terminal(s),
{
    match s {
        MissionState::Succeeded | MissionState::Failed | MissionState::Cancelled | MissionState::Expired => true,
        _ => false,
    }
}

pub fn is_active(s: MissionState) -> (r: bool)
    ensures
        r == spec_is_active(s),
{
    match s {
        MissionState::Assigned | MissionState::Executing | MissionState::Blocked | MissionState::Suspended => true,
        _ => false,
    }
}

pub fn is_blockable(s: MissionState) -> (r: bool)
    ensures
        r == spec_is_blockable(s),
{
    match s {
        MissionState::Assigned | MissionState::Executing | MissionState::Blocked => true,
        _ => false,
    }
}

pub fn dependency_unavailable(s: MissionState) -> (r: bool)
    ensures
        r == spec_dependency_unavailable(s),
{
    match s {
        MissionState::Failed | MissionState::Cancelled | MissionState::Expired => true,
        _ => false,
    }
}

pub open spec fn with_state(r: MissionRecord, s: MissionState) -> MissionRecord {
    MissionRecord { state: s, ..r }
}

/// Every mission in `deps` is known and has succeeded.
pub open spec fn deps_succeeded(records: Map<MissionId, MissionRecord>, deps: Set<MissionId>) -> bool {
    forall|d: MissionId| #[trigger] deps.contains(d) ==> records.contains_key(d) && records[d].state == MissionState::Succeeded
}

/// `child` waits for `parent`.
pub open spec fn depends_on(records: Map<MissionId, MissionRecord>, child: MissionId, parent: MissionId) -> bool {
    records.contains_key(child) && records[child].spec.spec_dependencies().contains(parent)
}

/// `path` starts at `root` and each later mission waits for the one
/// before it.
pub open spec fn is_chain(records: Map<MissionId, MissionRecord>, root: MissionId, path: Seq<MissionId>) -> bool {
    &&& path.len() > 0
    &&& path[0] == root
    &&& forall|i: int| 0 < i < path.len() ==> depends_on(records, #[trigger] path[i], path[i - 1])
}

/// `x` is `root` or waits, directly or through others, for `root`.
pub open spec fn in_tree(records: Map<MissionId, MissionRecord>, root: MissionId, x: MissionId) -> bool {
    exists|path: Seq<MissionId>| #[trigger] is_chain(records, root, path) && path.last() == x
}

/// What the registry keeps true of its records and its index of active
/// missions: every contract is well formed, every record's owner is an
/// assignment naming that mission, a mission past its prerequisites has
/// them all succeeded, and a unit's active mission is a known, active
/// mission of that unit.
pub open spec fn registry_invariant(records: Map<MissionId, MissionRecord>, active: Map<i64, MissionId>) -> bool {
    &&& forall|m: MissionId| #[trigger] records.contains_key(m) ==> records[m].spec.well_formed()
        && evidence_sorted(records[m].economy_progress.evidence@)
        && records[m].owner.spec_plan() is Some && records[m].owner.spec_intent() is None
        && records[m].owner.spec_mission().id == m
    &&& forall|m: MissionId| #[trigger] records.contains_key(m) && spec_released(records[m].state)
        ==> deps_succeeded(records, records[m].spec.spec_dependencies())
    &&& forall|a: i64| #[trigger] active.contains_key(a) ==> records.contains_key(active[a])
        && records[active[a]].assignee == a && spec_is_active(records[active[a]].state)
}

/// No record is ever dropped, and a record in a terminal state never
/// changes again.
pub open spec fn history_kept(old: Map<MissionId, MissionRecord>, new: Map<MissionId, MissionRecord>) -> bool {
    &&& forall|m: MissionId| #[trigger] old.contains_key(m) ==> new.contains_key(m)
    &&& forall|m: MissionId| #[trigger] old.contains_key(m) && spec_is_terminal(old[m].state) ==> new[m] == old[m]
}

/// A registry that does not change keeps its history.
pub proof fn lemma_history_kept_refl(records: Map<MissionId, MissionRecord>)
    ensures
        history_kept(records, records),
{
}

/// Keeping the history composes: over two steps that each keep it, no
/// record is dropped and no finished record changes.
pub proof fn lemma_history_kept_trans(a: Map<MissionId, MissionRecord>, b: Map<MissionId, MissionRecord>, c: Map<MissionId, MissionRecord>)
    requires
        history_kept(a, b),
        history_kept(b, c),
    ensures
        history_kept(a, c),
{
    assert forall|m: MissionId| #[trigger] a.contains_key(m) && spec_is_terminal(a[m].state) implies c[m] == a[m] by {
        assert(b[m] == a[m]);
        assert(b.contains_key(m));
    }
}

/// The records after cancelling the dependency tree of `root`: every
/// unfinished mission in the tree is cancelled, nothing else changes.
pub open spec fn tree_cancelled(records: Map<MissionId, MissionRecord>, root: MissionId) -> Map<MissionId, MissionRecord> {
    Map::new(
        |m: MissionId| records.contains_key(m),
        |m: MissionId| if in_tree(records, root, m) && !spec_is_terminal(records[m].state) {
            with_state(records[m], MissionState::Cancelled)
        } else {
            records[m]
        },
    )
}

pub open spec fn cancellation_of(r: MissionRecord) -> MissionCancellation {
    MissionCancellation { assignee: r.assignee, owner: r.owner }
}

/// The cancellations that ending the listed missions makes, in list order:
/// one for each known, unfinished mission.
pub open spec fn cancellations(records: Map<MissionId, MissionRecord>, ids: Seq<MissionId>) -> Seq<MissionCancellation>
    decreases ids.len(),
{
    if ids.len() == 0 {
        Seq::empty()
    } else {
        let m = ids.last();
        cancellations(records, ids.drop_last()) + if records.contains_key(m) && !spec_is_terminal(records[m].state) {
            seq![cancellation_of(records[m])]
        } else {
            Seq::empty()
        }
    }
}

/// The index after missions ended: a unit keeps its entry exactly while
/// its mission has not ended.
pub open spec fn pruned_active(active: Map<i64, MissionId>, records: Map<MissionId, MissionRecord>) -> Map<i64, MissionId> {
    Map::new(|a: i64| active.contains_key(a) && !spec_is_terminal(records[active[a]].state), |a: i64| active[a])
}

/// The missions and, for each unit, its active mission.
#[derive(Clone, Debug)]
pub struct MissionRegistry {
    records: SortedMap<MissionId, MissionRecord>,
    active_by_assignee: SortedMap<i64, MissionId>,
}

impl Default for MissionRegistry {
    fn default() -> (r: Self)
        ensures
            r.well_formed(),
            r.records() == Map::<MissionId, MissionRecord>::empty(),
            r.active() == Map::<i64, MissionId>::empty(),
    {
        MissionRegistry { records: SortedMap::new(), active_by_assignee: SortedMap::new() }
    }
}

impl MissionRegistry {
    pub closed spec fn records(&self) -> Map<MissionId, MissionRecord> {
        self.records.view()
    }

    pub closed spec fn active(&self) -> Map<i64, MissionId> {
        self.active_by_assignee.view()
    }

    /// The known missions in increasing id order.
    pub closed spec fn order(&self) -> Seq<MissionId> {
        self.records.key_seq()
    }

    /// The maps behind the registry are in order.
    pub closed spec fn storage_ok(&self) -> bool {
        &&& self.records.well_formed()
        &&& self.active_by_assignee.well_formed()
    }

    pub closed spec fn well_formed(&self) -> bool {
        &&& self.records.well_formed()
        &&& self.active_by_assignee.well_formed()
        &&& registry_invariant(self.records(), self.active())
    }

    pub proof fn lemma_well_formed(&self)
        ensures
            self.well_formed() <==> (self.storage_ok() && registry_invariant(self.records(), self.active())),
    {
    }

    /// The id order depends on the known ids alone.
    pub proof fn lemma_order_determined(&self, other: &Self)
        requires
            self.storage_ok(),
            other.storage_ok(),
            self.records().dom() == other.records().dom(),
        ensures
            self.order() == other.order(),
    {
        self.records.lemma_key_seq_determined(&other.records);
    }

    pub proof fn lemma_order(&self)
        requires
            self.well_formed(),
        ensures
            self.order().no_duplicates(),
            forall|m: MissionId| self.order().contains(m) <==> #[trigger] self.records().contains_key(m),
            self.records().dom().finite(),
            self.order().len() == self.records().dom().len(),
    {
        self.records.lemma_view();
        let s = self.order();
        assert forall|i: int, j: int| 0 <= i < s.len() && 0 <= j < s.len() && i != j implies s[i] != s[j] by {
            if i < j {
                assert(self.records.entries()[i].0.rank() < self.records.entries()[j].0.rank());
            } else {
                assert(self.records.entries()[j].0.rank() < self.records.entries()[i].0.rank());
            }
        }
        assert forall|m: MissionId| s.contains(m) <==> #[trigger] self.records().contains_key(m) by {
            if self.records().contains_key(m) {
                let i = choose|i: int| 0 <= i < self.records.entries().len() && self.records.entries()[i].0 == m;
                assert(s[i] == m);
            }
            if s.contains(m) {
                let i = choose|i: int| 0 <= i < s.len() && s[i] == m;
                assert(self.records.entries()[i].0 == m);
            }
        }
    }

    /// Sets the state of a known mission, leaving the rest of its record.
    fn set_state(&mut self, mission: MissionId, state: MissionState)
        requires
            old(self).records.well_formed(),
            old(self).records().contains_key(mission),
        ensures
            final(self).records.well_formed(),
            final(self).records() == old(self).records().insert(mission, with_state(old(self).records()[mission], state)),
            final(self).active_by_assignee == old(self).active_by_assignee,
            final(self).order() == old(self).order(),
    {
        let removed = self.records.remove(&mission);
        match removed {
            Some(mut record) => {
                record.state = state;
                self.records.insert(mission, record);
                assert(self.records.view() =~= old(self).records.view().insert(mission, with_state(old(self).records()[mission], state)));
            },
            None => {},
        }
        proof {
            assert(self.records.view().dom() =~= old(self).records.view().dom());
            self.records.lemma_key_seq_determined(&old(self).records);
        }
    }

    /// Drops the unit's entry from the index when it names `mission`.
    fn remove_active(&mut self, assignee: i64, mission: MissionId)
        requires
            old(self).active_by_assignee.well_formed(),
        ensures
            final(self).active_by_assignee.well_formed(),
            final(self).records == old(self).records,
            final(self).active() == (if old(self).active().contains_key(assignee) && old(self).active()[assignee] == mission {
                old(self).active().remove(assignee)
            } else {
                old(self).active()
            }),
    {
        let current = self.active_by_assignee.get(&assignee);
        let matches = match current {
            Some(m) => *m == mission,
            None => false,
        };
        if matches {
            self.active_by_assignee.remove(&assignee);
        }
    }
}

/// The records after ending the listed missions by cancellation.
pub open spec fn prefix_cancelled(records: Map<MissionId, MissionRecord>, ids: Seq<MissionId>) -> Map<MissionId, MissionRecord> {
    Map::new(
        |m: MissionId| records.contains_key(m),
        |m: MissionId| if ids.contains(m) && !spec_is_terminal(records[m].state) {
            with_state(records[m], MissionState::Cancelled)
        } else {
            records[m]
        },
    )
}

pub proof fn lemma_root_in_tree(records: Map<MissionId, MissionRecord>, root: MissionId)
    ensures
        in_tree(records, root, root),
{
    let path = seq![root];
    assert(is_chain(records, root, path));
}

pub proof fn lemma_tree_extend(records: Map<MissionId, MissionRecord>, root: MissionId, m: MissionId, c: MissionId)
    requires
        in_tree(records, root, m),
        depends_on(records, c, m),
    ensures
        in_tree(records, root, c),
{
    let path = choose|path: Seq<MissionId>| #[trigger] is_chain(records, root, path) && path.last() == m;
    let longer = path.push(c);
    assert forall|i: int| 0 < i < longer.len() implies depends_on(records, #[trigger] longer[i], longer[i - 1]) by {
        if i < path.len() {
            assert(longer[i] == path[i] && longer[i - 1] == path[i - 1]);
        }
    }
    assert(is_chain(records, root, longer));
}

/// A set that holds `root` and every mission waiting for one of its
/// members holds the end of every chain from `root`.
pub proof fn lemma_chain_closed(records: Map<MissionId, MissionRecord>, root: MissionId, found: Set<MissionId>, path: Seq<MissionId>)
    requires
        found.contains(root),
        forall|f: MissionId, c: MissionId| #[trigger] found.contains(f) && #[trigger] depends_on(records, c, f) ==> found.contains(c),
        is_chain(records, root, path),
    ensures
        found.contains(path.last()),
    decreases path.len(),
{
    if path.len() > 1 {
        let shorter = path.drop_last();
        assert(is_chain(records, root, shorter)) by {
            assert forall|i: int| 0 < i < shorter.len() implies depends_on(records, #[trigger] shorter[i], shorter[i - 1]) by {
                assert(shorter[i] == path[i] && shorter[i - 1] == path[i - 1]);
            }
        }
        lemma_chain_closed(records, root, found, shorter);
        assert(depends_on(records, path[path.len() - 1], path[path.len() - 2]));
    }
}

/// A released mission lies in the tree of a root only as the root itself,
/// or when the root has succeeded.
pub proof fn lemma_released_chain(records: Map<MissionId, MissionRecord>, active: Map<i64, MissionId>, root: MissionId, path: Seq<MissionId>)
    requires
        registry_invariant(records, active),
        is_chain(records, root, path),
        records.contains_key(path.last()),
        spec_released(records[path.last()].state),
        path.len() > 1,
    ensures
        records.contains_key(root) && records[root].state == MissionState::Succeeded,
    decreases path.len(),
{
    let x = path.last();
    let d = path[path.len() - 2];
    assert(depends_on(records, path[path.len() - 1], d));
    assert(records[x].spec.spec_dependencies().contains(d));
    assert(records.contains_key(d) && records[d].state == MissionState::Succeeded);
    if path.len() > 2 {
        let shorter = path.drop_last();
        assert(is_chain(records, root, shorter)) by {
            assert forall|i: int| 0 < i < shorter.len() implies depends_on(records, #[trigger] shorter[i], shorter[i - 1]) by {
                assert(shorter[i] == path[i] && shorter[i - 1] == path[i - 1]);
            }
        }
        lemma_released_chain(records, active, root, shorter);
    }
}

pub proof fn lemma_released_outside_tree(records: Map<MissionId, MissionRecord>, active: Map<i64, MissionId>, root: MissionId, x: MissionId)
    requires
        registry_invariant(records, active),
        records.contains_key(x),
        spec_released(records[x].state),
        in_tree(records, root, x),
        x != root,
    ensures
        records.contains_key(root) && records[root].state == MissionState::Succeeded,
{
    let path = choose|path: Seq<MissionId>| #[trigger] is_chain(records, root, path) && path.last() == x;
    lemma_released_chain(records, active, root, path);
}

impl MissionRegistry {
    /// The dependency tree of `root`: itself and every mission that waits
    /// for it, directly or through others, in increasing id order.
    fn cancellation_ids(&self, root: MissionId) -> (r: Vec<MissionId>)
        requires
            self.well_formed(),
            self.records().contains_key(root),
        ensures
            r@ == self.order().filter(|m: MissionId| in_tree(self.records(), root, m)),
            r@.no_duplicates(),
    {
        let ghost records = self.records();
        proof {
            self.records.lemma_view();
            self.lemma_order();
            lemma_root_in_tree(records, root);
        }
        let mut pending: SortedMap<MissionId, ()> = SortedMap::new();
        pending.insert(root, ());
        let mut found: SortedMap<MissionId, ()> = SortedMap::new();
        proof {
            vstd::set_lib::lemma_len_subset(found.view().dom(), records.dom());
        }
        while !pending.is_empty()
            invariant
                self.well_formed(),
                records == self.records(),
                records.contains_key(root),
                records.dom().finite(),
                pending.well_formed(),
                found.well_formed(),
                forall|x: MissionId| pending.view().contains_key(x) ==> !found.view().contains_key(x),
                forall|x: MissionId| (pending.view().contains_key(x) || found.view().contains_key(x))
                    ==> records.contains_key(x) && in_tree(records, root, x),
                pending.view().contains_key(root) || found.view().contains_key(root),
                forall|f: MissionId, c: MissionId| #[trigger] found.view().contains_key(f) && #[trigger] depends_on(records, c, f)
                    ==> pending.view().contains_key(c) || found.view().contains_key(c),
                found.view().dom().len() <= records.dom().len(),
            decreases records.dom().len() - found.view().dom().len(),
        {
            proof { pending.lemma_view(); found.lemma_view(); }
            let m = *pending.entry_at(0).0;
            let ghost found_before = found.view();
            assert(pending.view().contains_key(m));
            assert(!found_before.contains_key(m));
            pending.remove(&m);
            found.insert(m, ());
            proof {
                assert(found.view().dom() =~= found_before.dom().insert(m));
                assert(found.view().dom().len() == found_before.dom().len() + 1);
            }
            let n: usize = self.records.len();
            let mut i: usize = 0;
            while i < n
                invariant
                    self.well_formed(),
                    records == self.records(),
                    records.contains_key(root),
                    records.dom().finite(),
                    n == self.records.entries().len(),
                    i <= n,
                    pending.well_formed(),
                    found.well_formed(),
                    found.view().contains_key(m),
                    forall|x: MissionId| pending.view().contains_key(x) ==> !found.view().contains_key(x),
                    forall|x: MissionId| (pending.view().contains_key(x) || found.view().contains_key(x))
                        ==> records.contains_key(x) && in_tree(records, root, x),
                    pending.view().contains_key(root) || found.view().contains_key(root),
                    forall|f: MissionId, c: MissionId| #[trigger] found.view().contains_key(f) && #[trigger] depends_on(records, c, f) && f != m
                        ==> pending.view().contains_key(c) || found.view().contains_key(c),
                    forall|j: int| 0 <= j < i && depends_on(records, #[trigger] self.records.entries()[j].0, m)
                        ==> pending.view().contains_key(self.records.entries()[j].0) || found.view().contains_key(self.records.entries()[j].0),
                decreases n - i,
            {
                proof { self.records.lemma_view(); }
                let (c, record) = self.records.entry_at(i);
                let deps = record.spec.dependencies();
                if deps.contains_key(&m) && !found.contains_key(c) {
                    proof { lemma_tree_extend(records, root, m, *c); }
                    pending.insert(*c, ());
                }
                i = i + 1;
            }
            proof {
                self.records.lemma_view();
                assert forall|f: MissionId, c: MissionId| #[trigger] found.view().contains_key(f) && #[trigger] depends_on(records, c, f)
                    implies pending.view().contains_key(c) || found.view().contains_key(c) by {
                    if f == m {
                        let j = choose|j: int| 0 <= j < self.records.entries().len() && self.records.entries()[j].0 == c;
                        assert(depends_on(records, self.records.entries()[j].0, m));
                    }
                }
                assert(found.view().dom().subset_of(records.dom()));
                vstd::set_lib::lemma_len_subset(found.view().dom(), records.dom());
            }
        }
        proof {
            pending.lemma_view();
            assert(!pending.view().contains_key(root));
            assert forall|x: MissionId| in_tree(records, root, x) implies found.view().contains_key(x) by {
                let path = choose|path: Seq<MissionId>| #[trigger] is_chain(records, root, path) && path.last() == x;
                assert forall|f: MissionId, c: MissionId| #[trigger] found.view().dom().contains(f) && #[trigger] depends_on(records, c, f)
                    implies found.view().dom().contains(c) by {
                    assert(found.view().contains_key(f));
                    assert(!pending.view().contains_key(c));
                }
                lemma_chain_closed(records, root, found.view().dom(), path);
            }
        }
        let ghost p = |m: MissionId| in_tree(records, root, m);
        let n: usize = self.records.len();
        let mut result: Vec<MissionId> = Vec::new();
        let mut i: usize = 0;
        while i < n
            invariant
                self.well_formed(),
                records == self.records(),
                n == self.order().len(),
                i <= n,
                found.well_formed(),
                forall|x: MissionId| found.view().contains_key(x) <==> records.contains_key(x) && in_tree(records, root, x),
                p == (|m: MissionId| in_tree(records, root, m)),
                result@ == self.order().subrange(0, i as int).filter(p),
            decreases n - i,
        {
            proof { self.records.lemma_view(); }
            let (c, _) = self.records.entry_at(i);
            let keep = found.contains_key(c);
            proof {
                assert(self.order()[i as int] == *c);
                assert(self.order().subrange(0, i + 1) =~= self.order().subrange(0, i as int).push(*c));
                self.order().subrange(0, i as int).lemma_filter_push(*c, p);
            }
            if keep {
                result.push(*c);
            }
            i = i + 1;
        }
        proof {
            assert(self.order().subrange(0, n as int) =~= self.order());
            self.lemma_order();
            lemma_filter_no_duplicates(self.order(), p);
        }
        result
    }
}

impl MissionRegistry {
    /// Cancels every unfinished mission in the dependency tree of `root`,
    /// in increasing id order, and drops them from the index.
    fn cancel_tree(&mut self, root: MissionId) -> (r: Vec<MissionCancellation>)
        requires
            old(self).well_formed(),
            old(self).records().contains_key(root),
        ensures
            final(self).well_formed(),
            final(self).records() == tree_cancelled(old(self).records(), root),
            r@ == cancellations(old(self).records(), old(self).order().filter(|m: MissionId| in_tree(old(self).records(), root, m))),
            final(self).active() == pruned_active(old(self).active(), final(self).records()),
            final(self).order() == old(self).order(),
            history_kept(old(self).records(), final(self).records()),
    {
        let ghost records = self.records();
        let ghost active = self.active();
        let ids = self.cancellation_ids(root);
        let mut cancelled: Vec<MissionCancellation> = Vec::new();
        proof {
            self.lemma_order();
            assert(prefix_cancelled(records, ids@.subrange(0, 0)) =~= records);
            assert(cancellations(records, ids@.subrange(0, 0)) =~= Seq::<MissionCancellation>::empty());
        }
        let mut i: usize = 0;
        while i < ids.len()
            invariant
                i <= ids@.len(),
                ids@.no_duplicates(),
                registry_invariant(records, active),
                self.records.well_formed(),
                self.active_by_assignee.well_formed(),
                self.records.view().dom() == records.dom(),
                self.records() == prefix_cancelled(records, ids@.subrange(0, i as int)),
                cancelled@ == cancellations(records, ids@.subrange(0, i as int)),
                forall|a: i64| #[trigger] self.active().contains_key(a) <==> (active.contains_key(a)
                    && !(ids@.subrange(0, i as int).contains(active[a]) && !spec_is_terminal(records[active[a]].state))),
                forall|a: i64| #[trigger] self.active().contains_key(a) ==> self.active()[a] == active[a],
            decreases ids@.len() - i,
        {
            let m = ids[i];
            let ghost prefix = ids@.subrange(0, i as int);
            assert(!prefix.contains(m)) by {
                if prefix.contains(m) {
                    let k = choose|k: int| 0 <= k < prefix.len() && prefix[k] == m;
                    assert(ids@[k] == ids@[i as int]);
                }
            }
            assert(ids@.subrange(0, i + 1) =~= prefix.push(m));
            let found = match self.records.get(&m) {
                Some(record) => {
                    if is_terminal(record.state) {
                        None
                    } else {
                        Some(MissionCancellation { assignee: record.assignee, owner: record.owner })
                    }
                },
                None => None,
            };
            match found {
                Some(c) => {
                    assert(c.assignee == records[m].assignee && c.owner == records[m].owner);
                    assert(!spec_is_terminal(records[m].state));
                    let ghost a_prev = self.active();
                    self.set_state(m, MissionState::Cancelled);
                    self.remove_active(c.assignee, m);
                    cancelled.push(c);
                    proof {
                        assert(self.records() =~= prefix_cancelled(records, ids@.subrange(0, i + 1)));
                        assert forall|a: i64| #[trigger] self.active().contains_key(a) implies self.active()[a] == active[a] by {
                            assert(a_prev.contains_key(a));
                        }
                        assert(cancelled@ =~= cancellations(records, ids@.subrange(0, i + 1))) by {
                            assert(prefix.push(m).drop_last() =~= prefix);
                        }
                        assert forall|a: i64| #[trigger] self.active().contains_key(a) <==> (active.contains_key(a)
                            && !(ids@.subrange(0, i + 1).contains(active[a]) && !spec_is_terminal(records[active[a]].state))) by {
                            if active.contains_key(a) && active[a] == m {
                                assert(records[m].assignee == a);
                                assert(a == c.assignee);
                            }
                            if a_prev.contains_key(a) {
                                assert(a_prev[a] == active[a]);
                            }
                            if ids@.subrange(0, i + 1).contains(active[a]) && active[a] != m {
                                let k = choose|k: int| 0 <= k < i + 1 && #[trigger] ids@.subrange(0, i + 1)[k] == active[a];
                                assert(prefix[k] == active[a]);
                            }
                            if prefix.contains(active[a]) {
                                let k = choose|k: int| 0 <= k < prefix.len() && prefix[k] == active[a];
                                assert(ids@.subrange(0, i + 1)[k] == active[a]);
                            }
                        }
                    }
                },
                None => {
                    proof {
                        assert(self.records() =~= prefix_cancelled(records, ids@.subrange(0, i + 1)));
                        assert(cancelled@ =~= cancellations(records, ids@.subrange(0, i + 1))) by {
                            assert(prefix.push(m).drop_last() =~= prefix);
                        }
                        assert forall|a: i64| #[trigger] self.active().contains_key(a) <==> (active.contains_key(a)
                            && !(ids@.subrange(0, i + 1).contains(active[a]) && !spec_is_terminal(records[active[a]].state))) by {
                            if ids@.subrange(0, i + 1).contains(active[a]) && active[a] != m {
                                let k = choose|k: int| 0 <= k < i + 1 && #[trigger] ids@.subrange(0, i + 1)[k] == active[a];
                                assert(prefix[k] == active[a]);
                            }
                            if prefix.contains(active[a]) {
                                let k = choose|k: int| 0 <= k < prefix.len() && prefix[k] == active[a];
                                assert(ids@.subrange(0, i + 1)[k] == active[a]);
                            }
                        }
                    }
                },
            }
            i = i + 1;
        }
        proof {
            let p = |m: MissionId| in_tree(records, root, m);
            assert(ids@.subrange(0, ids@.len() as int) =~= ids@);
            assert forall|m: MissionId| records.contains_key(m) implies (ids@.contains(m) <==> in_tree(records, root, m)) by {
                lemma_filter_member(old(self).order(), p, m);
            }
            assert(self.records() =~= tree_cancelled(records, root));
            self.records.lemma_key_seq_determined(&old(self).records);
            let nr = self.records();
            let na = self.active();
            assert forall|m: MissionId| #[trigger] nr.contains_key(m) && spec_released(nr[m].state)
                implies deps_succeeded(nr, nr[m].spec.spec_dependencies()) by {
                assert(nr[m] == records[m]);
                assert forall|d: MissionId| #[trigger] nr[m].spec.spec_dependencies().contains(d)
                    implies nr.contains_key(d) && nr[d].state == MissionState::Succeeded by {
                    assert(records[d].state == MissionState::Succeeded);
                    assert(nr[d] == records[d]);
                }
            }
            assert forall|a: i64| #[trigger] na.contains_key(a) implies nr.contains_key(na[a])
                && nr[na[a]].assignee == a && spec_is_active(nr[na[a]].state) by {
                assert(nr[na[a]] == records[active[a]]);
            }
            assert(registry_invariant(nr, na));
            assert(na =~= pruned_active(active, nr));
        }
        cancelled
    }
}

/// Why a prerequisite cannot be waited for, if it cannot.
pub open spec fn dependency_error(records: Map<MissionId, MissionRecord>, mission: MissionId, d: MissionId) -> Option<MissionRegistryError> {
    if d == mission {
        Some(MissionRegistryError::SelfDependency)
    } else if !records.contains_key(d) {
        Some(MissionRegistryError::UnknownDependency)
    } else if spec_dependency_unavailable(records[d].state) {
        Some(MissionRegistryError::DependencyUnavailable)
    } else {
        None
    }
}

/// Why a registration is refused, if it is: an owner without a plan, an
/// owner with a step, a mission id already taken, or the first
/// prerequisite (in id order) that is the mission itself, unknown, or ended
/// without success.
pub open spec fn registration_error(records: Map<MissionId, MissionRecord>, spec: MissionSpec, owner: OwnerPath) -> Option<MissionRegistryError> {
    let mission = owner.spec_mission().id;
    if owner.spec_plan() is None {
        Some(MissionRegistryError::MissingPlan)
    } else if owner.spec_intent() is Some {
        Some(MissionRegistryError::IntentNotAllowed)
    } else if records.contains_key(mission) {
        Some(MissionRegistryError::DuplicateMission)
    } else {
        match first_where(spec.spec_dependency_seq(), |d: MissionId| dependency_error(records, mission, d) is Some) {
            Some(d) => dependency_error(records, mission, d),
            None => None,
        }
    }
}

/// A prerequisite that ended without success (it failed, was cancelled or
/// expired) can never be met. A registration is accepted only when each
/// prerequisite is a known mission other than the new one and has ended
/// in none of those ways; and when every prerequisite is a known mission
/// other than the new one but one of them failed, was cancelled or
/// expired, a fresh registration is refused as unavailable.
pub proof fn law_ended_prerequisite_is_unavailable(records: Map<MissionId, MissionRecord>, spec: MissionSpec, owner: OwnerPath)
    requires
        spec.well_formed(),
    ensures
        registration_error(records, spec, owner) is None ==> forall|d: MissionId| #[trigger] spec.spec_dependencies().contains(d)
            ==> d != owner.spec_mission().id && records.contains_key(d)
                && records[d].state != MissionState::Failed && records[d].state != MissionState::Cancelled
                && records[d].state != MissionState::Expired,
        owner.spec_plan() is Some && owner.spec_intent() is None && !records.contains_key(owner.spec_mission().id)
            && (forall|d: MissionId| #[trigger] spec.spec_dependencies().contains(d) ==> d != owner.spec_mission().id && records.contains_key(d))
            && (exists|d: MissionId| #[trigger] spec.spec_dependencies().contains(d) && (records[d].state == MissionState::Failed
                || records[d].state == MissionState::Cancelled || records[d].state == MissionState::Expired))
            ==> registration_error(records, spec, owner) == Some(MissionRegistryError::DependencyUnavailable),
{
    let mission = owner.spec_mission().id;
    let seq = spec.spec_dependency_seq();
    let p = |d: MissionId| dependency_error(records, mission, d) is Some;
    crate::domain::lemma_dependency_seq_members(spec);
    if registration_error(records, spec, owner) is None {
        assert forall|d: MissionId| #[trigger] spec.spec_dependencies().contains(d)
            implies d != mission && records.contains_key(d)
                && records[d].state != MissionState::Failed && records[d].state != MissionState::Cancelled
                && records[d].state != MissionState::Expired by {
            crate::domain::lemma_dependency_seq_covers(spec, d);
            let i = choose|i: int| 0 <= i < seq.len() && seq[i] == d;
            if p(seq[i]) {
                lemma_first_exists(seq, p, i);
                let k = choose|k: int| is_first(seq, p, k);
                lemma_first_where_at(seq, p, k);
            }
        }
    }
    if owner.spec_plan() is Some && owner.spec_intent() is None && !records.contains_key(mission)
        && (forall|d: MissionId| #[trigger] spec.spec_dependencies().contains(d) ==> d != mission && records.contains_key(d))
        && (exists|d: MissionId| #[trigger] spec.spec_dependencies().contains(d) && (records[d].state == MissionState::Failed
            || records[d].state == MissionState::Cancelled || records[d].state == MissionState::Expired)) {
        let d = choose|d: MissionId| #[trigger] spec.spec_dependencies().contains(d) && (records[d].state == MissionState::Failed
            || records[d].state == MissionState::Cancelled || records[d].state == MissionState::Expired);
        crate::domain::lemma_dependency_seq_covers(spec, d);
        let i = choose|i: int| 0 <= i < seq.len() && seq[i] == d;
        assert(p(seq[i]));
        lemma_first_exists(seq, p, i);
        let k = choose|k: int| is_first(seq, p, k);
        lemma_first_where_at(seq, p, k);
        assert(spec.spec_dependencies().contains(seq[k]));
    }
}

/// A fresh mission whose prerequisites have all succeeded can be
/// registered under an owner with a plan and no step.
pub proof fn lemma_registration_ok(records: Map<MissionId, MissionRecord>, spec: MissionSpec, owner: OwnerPath)
    requires
        spec.well_formed(),
        owner.spec_plan() is Some,
        owner.spec_intent() is None,
        !records.contains_key(owner.spec_mission().id),
        deps_succeeded(records, spec.spec_dependencies()),
    ensures
        registration_error(records, spec, owner) is None,
{
    let mission = owner.spec_mission().id;
    let seq = spec.spec_dependency_seq();
    let p = |d: MissionId| dependency_error(records, mission, d) is Some;
    crate::domain::lemma_dependency_seq_members(spec);
    assert forall|j: int| 0 <= j < seq.len() implies !p(#[trigger] seq[j]) by {
        assert(spec.spec_dependencies().contains(seq[j]));
    }
    crate::collections::lemma_first_where_none(seq, p);
}

/// A record as registration creates it.
pub open spec fn fresh_record(r: MissionRecord, spec: MissionSpec, owner: OwnerPath, assignee: i64, state: MissionState) -> bool {
    &&& r.spec == spec
    &&& r.owner == owner
    &&& r.assignee == assignee
    &&& r.state == state
    &&& r.completion_evidence@.len() == 0
    &&& r.goal_submission_round is None
    &&& r.economy_progress.checkpoint is None
    &&& r.economy_progress.evidence@.len() == 0
    &&& !r.economy_progress.sale_observed
    &&& r.retry_count == 0
    &&& r.failure is None
}

/// Proposed missions whose prerequisites have all succeeded.
pub open spec fn wakeable(records: Map<MissionId, MissionRecord>, m: MissionId) -> bool {
    records.contains_key(m) && records[m].state == MissionState::Proposed
        && deps_succeeded(records, records[m].spec.spec_dependencies())
}

/// The records after every wakeable mission became ready.
pub open spec fn woken(records: Map<MissionId, MissionRecord>) -> Map<MissionId, MissionRecord> {
    Map::new(
        |m: MissionId| records.contains_key(m),
        |m: MissionId| if wakeable(records, m) { with_state(records[m], MissionState::Ready) } else { records[m] },
    )
}

impl MissionRegistry {
    /// Whether every listed mission is known and has succeeded.
    pub fn dependencies_succeeded(&self, deps: &SortedMap<MissionId, ()>) -> (r: bool)
        requires
            self.well_formed(),
            deps.well_formed(),
        ensures
            r == deps_succeeded(self.records(), deps.view().dom()),
    {
        proof { deps.lemma_view(); }
        let mut i: usize = 0;
        while i < deps.len()
            invariant
                self.well_formed(),
                deps.well_formed(),
                i <= deps.entries().len(),
                forall|j: int| 0 <= j < i ==> self.records().contains_key(#[trigger] deps.entries()[j].0)
                    && self.records()[deps.entries()[j].0].state == MissionState::Succeeded,
            decreases deps.entries().len() - i,
        {
            let (d, _) = deps.entry_at(i);
            let ok = match self.records.get(d) {
                Some(record) => record.state == MissionState::Succeeded,
                None => false,
            };
            if !ok {
                proof { deps.lemma_view(); }
                return false;
            }
            i = i + 1;
        }
        proof {
            deps.lemma_view();
            assert forall|d: MissionId| #[trigger] deps.view().dom().contains(d)
                implies self.records().contains_key(d) && self.records()[d].state == MissionState::Succeeded by {
                let j = choose|j: int| 0 <= j < deps.entries().len() && deps.entries()[j].0 == d;
                assert(self.records().contains_key(deps.entries()[j].0));
            }
        }
        true
    }

    fn validate_dependencies(&self, mission: MissionId, spec: &MissionSpec) -> (r: Result<(), MissionRegistryError>)
        requires
            self.records.well_formed(),
            spec.well_formed(),
        ensures
            match first_where(spec.spec_dependency_seq(), |d: MissionId| dependency_error(self.records(), mission, d) is Some) {
                Some(d) => r == Err::<(), MissionRegistryError>(dependency_error(self.records(), mission, d)->0),
                None => r is Ok,
            },
    {
        let deps = spec.dependencies();
        let ghost p = |d: MissionId| dependency_error(self.records(), mission, d) is Some;
        let ghost seq = spec.spec_dependency_seq();
        let mut i: usize = 0;
        while i < deps.len()
            invariant
                self.records.well_formed(),
                deps.well_formed(),
                deps.key_seq() == seq,
                seq == spec.spec_dependency_seq(),
                seq.len() == deps.entries().len(),
                p == (|d: MissionId| dependency_error(self.records(), mission, d) is Some),
                i <= seq.len(),
                forall|j: int| 0 <= j < i ==> !p(#[trigger] seq[j]),
            decreases seq.len() - i,
        {
            let (d, _) = deps.entry_at(i);
            let d = *d;
            assert(seq[i as int] == d);
            let error = if d == mission {
                Some(MissionRegistryError::SelfDependency)
            } else {
                match self.records.get(&d) {
                    None => Some(MissionRegistryError::UnknownDependency),
                    Some(record) => if dependency_unavailable(record.state) {
                        Some(MissionRegistryError::DependencyUnavailable)
                    } else {
                        None
                    },
                }
            };
            match error {
                Some(e) => {
                    proof {
                        assert(dependency_error(self.records(), mission, d) == Some(e));
                        assert(is_first(seq, p, i as int));
                        lemma_first_where_at(seq, p, i as int);
                    }
                    return Err(e);
                },
                None => {},
            }
            i = i + 1;
        }
        proof { lemma_first_where_none(seq, p); }
        Ok(())
    }

    /// Registers a mission for a unit under an assignment owner (a mission
    /// with a plan and no step). It starts ready when its prerequisites have
    /// all succeeded and proposed otherwise.
    pub fn register(&mut self, assignee: i64, spec: MissionSpec, owner: OwnerPath) -> (r: Result<MissionId, MissionRegistryError>)
        requires
            old(self).well_formed(),
            spec.well_formed(),
        ensures
            final(self).well_formed(),
            history_kept(old(self).records(), final(self).records()),
            match registration_error(old(self).records(), spec, owner) {
                Some(e) => r == Err::<MissionId, MissionRegistryError>(e) && *final(self) == *old(self),
                None => r == Ok::<MissionId, MissionRegistryError>(owner.spec_mission().id)
                    && final(self).records().dom() == old(self).records().dom().insert(owner.spec_mission().id)
                    && (forall|m: MissionId| #[trigger] old(self).records().contains_key(m) ==> final(self).records()[m] == old(self).records()[m])
                    && fresh_record(final(self).records()[owner.spec_mission().id], spec, owner, assignee,
                        if deps_succeeded(old(self).records(), spec.spec_dependencies()) { MissionState::Ready } else { MissionState::Proposed })
                    && final(self).active() == old(self).active(),
            },
    {
        if owner.plan().is_none() {
            return Err(MissionRegistryError::MissingPlan);
        }
        if owner.intent().is_some() {
            return Err(MissionRegistryError::IntentNotAllowed);
        }
        let mission = owner.mission().id;
        if self.records.contains_key(&mission) {
            return Err(MissionRegistryError::DuplicateMission);
        }
        match self.validate_dependencies(mission, &spec) {
            Err(e) => return Err(e),
            Ok(()) => {},
        }
        let ready = self.dependencies_succeeded(spec.dependencies());
        let state = if ready { MissionState::Ready } else { MissionState::Proposed };
        let ghost old_records = self.records();
        let record = MissionRecord {
            spec,
            owner,
            assignee,
            state,
            completion_evidence: Vec::new(),
            goal_submission_round: None,
            economy_progress: EconomyProgress::new(),
            retry_count: 0,
            failure: None,
        };
        self.records.insert(mission, record);
        proof {
            let nr = self.records();
            assert(nr.dom() =~= old_records.dom().insert(mission));
            assert forall|m: MissionId| #[trigger] nr.contains_key(m) && spec_released(nr[m].state)
                implies deps_succeeded(nr, nr[m].spec.spec_dependencies()) by {
                if m == mission {
                    assert forall|d: MissionId| #[trigger] nr[m].spec.spec_dependencies().contains(d)
                        implies nr.contains_key(d) && nr[d].state == MissionState::Succeeded by {
                        assert(old_records.contains_key(d));
                    }
                } else {
                    assert forall|d: MissionId| #[trigger] nr[m].spec.spec_dependencies().contains(d)
                        implies nr.contains_key(d) && nr[d].state == MissionState::Succeeded by {
                        assert(old_records.contains_key(d));
                    }
                }
            }
            assert(evidence_sorted(nr[mission].economy_progress.evidence@));
        }
        Ok(mission)
    }

    /// Sets the state of a mission that has the expected state.
    fn transition(&mut self, mission: MissionId, expected: MissionState, next: MissionState) -> (r: Result<(), MissionRegistryError>)
        requires
            old(self).well_formed(),
            spec_is_active(expected),
            spec_is_active(next),
        ensures
            final(self).well_formed(),
            history_kept(old(self).records(), final(self).records()),
            !old(self).records().contains_key(mission) ==> r == Err::<(), MissionRegistryError>(MissionRegistryError::UnknownMission),
            old(self).records().contains_key(mission) && old(self).records()[mission].state != expected
                ==> r == Err::<(), MissionRegistryError>(MissionRegistryError::InvalidTransition),
            r is Err ==> *final(self) == *old(self),
            old(self).records().contains_key(mission) && old(self).records()[mission].state == expected ==> r is Ok,
            r is Ok ==> old(self).records().contains_key(mission) && old(self).records()[mission].state == expected
                && final(self).records() == old(self).records().insert(mission, with_state(old(self).records()[mission], next))
                && final(self).active() == old(self).active(),
    {
        let state = match self.records.get(&mission) {
            Some(record) => record.state,
            None => return Err(MissionRegistryError::UnknownMission),
        };
        if state != expected {
            return Err(MissionRegistryError::InvalidTransition);
        }
        let ghost old_records = self.records();
        self.set_state(mission, next);
        proof { self.lemma_state_change_keeps_invariant(old_records, self.active(), mission); }
        Ok(())
    }

    /// Changing a mission between two active states, or from a released
    /// state to a released non-terminal one, keeps the invariant.
    proof fn lemma_state_change_keeps_invariant(&self, old_records: Map<MissionId, MissionRecord>, active: Map<i64, MissionId>, mission: MissionId)
        requires
            registry_invariant(old_records, active),
            old_records.contains_key(mission),
            self.records() == old_records.insert(mission, with_state(old_records[mission], self.records()[mission].state)),
            self.active() == active,
            spec_released(old_records[mission].state),
            spec_released(self.records()[mission].state),
            !spec_is_terminal(old_records[mission].state),
            active.dom().contains(old_records[mission].assignee) && active[old_records[mission].assignee] == mission
                ==> spec_is_active(self.records()[mission].state),
        ensures
            registry_invariant(self.records(), self.active()),
            history_kept(old_records, self.records()),
    {
        let nr = self.records();
        assert forall|m: MissionId| #[trigger] nr.contains_key(m) && spec_released(nr[m].state)
            implies deps_succeeded(nr, nr[m].spec.spec_dependencies()) by {
            assert forall|d: MissionId| #[trigger] nr[m].spec.spec_dependencies().contains(d)
                implies nr.contains_key(d) && nr[d].state == MissionState::Succeeded by {
                assert(old_records[m].spec == nr[m].spec);
                assert(spec_released(old_records[m].state));
                assert(old_records.contains_key(d) && old_records[d].state == MissionState::Succeeded);
            }
        }
        assert forall|a: i64| #[trigger] active.contains_key(a) implies nr.contains_key(active[a])
            && nr[active[a]].assignee == a && spec_is_active(nr[active[a]].state) by {
            if active[a] == mission {
                assert(old_records[mission].assignee == a);
            }
        }
    }

    /// Starts a mission that was assigned.
    pub fn activate(&mut self, mission: MissionId) -> (r: Result<(), MissionRegistryError>)
        requires
            old(self).well_formed(),
        ensures
            final(self).well_formed(),
            history_kept(old(self).records(), final(self).records()),
            r is Ok <==> old(self).records().contains_key(mission) && old(self).records()[mission].state == MissionState::Assigned,
            !old(self).records().contains_key(mission) ==> r == Err::<(), MissionRegistryError>(MissionRegistryError::UnknownMission),
            old(self).records().contains_key(mission) && old(self).records()[mission].state != MissionState::Assigned
                ==> r == Err::<(), MissionRegistryError>(MissionRegistryError::InvalidTransition),
            r is Err ==> *final(self) == *old(self),
            r is Ok ==> final(self).records() == old(self).records().insert(mission, with_state(old(self).records()[mission], MissionState::Executing))
                && final(self).active() == old(self).active(),
    {
        self.transition(mission, MissionState::Assigned, MissionState::Executing)
    }
}

/// The records with the listed missions made ready.
pub open spec fn prefix_woken(records: Map<MissionId, MissionRecord>, ids: Seq<MissionId>) -> Map<MissionId, MissionRecord> {
    Map::new(
        |m: MissionId| records.contains_key(m),
        |m: MissionId| if ids.contains(m) { with_state(records[m], MissionState::Ready) } else { records[m] },
    )
}

/// Whether committing `action` by `actor` submits what the goal waits for:
/// a sale for an economy cycle, the building itself on its site, an answer
/// for a challenge, an attack by the guarded weapon.
pub open spec fn submits_goal(goal: GoalPredicate, actor: i64, action: ActionView) -> bool {
    match (goal, action) {
        (GoalPredicate::EconomyCycleCompleted, ActionView::Sell { .. }) => true,
        (GoalPredicate::BuildingPresent { kind, site }, ActionView::Build { name, pos }) => kind@ == name && site == pos,
        (GoalPredicate::ChallengeResolved, ActionView::SubmitAnswer(_)) => true,
        (GoalPredicate::DefenseWindowCompleted { weapon }, ActionView::Attack { .. }) => weapon == actor,
        _ => false,
    }
}

pub fn action_submits_goal(goal: &GoalPredicate, actor: i64, action: &Action) -> (r: bool)
    ensures
        r == submits_goal(*goal, actor, action@),
{
    match (goal, action) {
        (GoalPredicate::EconomyCycleCompleted, Action::Sell { .. }) => true,
        (GoalPredicate::BuildingPresent { kind, site }, Action::Build { name, pos }) =>
            str_eq(kind.as_str(), name.as_str()) && *site == *pos,
        (GoalPredicate::ChallengeResolved, Action::SubmitAnswer(_)) => true,
        (GoalPredicate::DefenseWindowCompleted { weapon }, Action::Attack { .. }) => *weapon == actor,
        _ => false,
    }
}

/// A commit leaves the record as it was but for the economy checkpoint
/// (for an economy cycle) and the round its goal was first submitted.
pub open spec fn committed(old: MissionRecord, new: MissionRecord, actor: i64, action: ActionView, input: Observation) -> bool {
    &&& new.spec == old.spec
    &&& new.owner == old.owner
    &&& new.assignee == old.assignee
    &&& new.state == old.state
    &&& new.completion_evidence == old.completion_evidence
    &&& new.retry_count == old.retry_count
    &&& new.failure == old.failure
    &&& new.economy_progress.evidence == old.economy_progress.evidence
    &&& new.economy_progress.sale_observed == old.economy_progress.sale_observed
    &&& if old.spec.spec_goal() is EconomyCycleCompleted {
        checkpoint_opt_view(new.economy_progress.checkpoint) == spec_checkpoint(action, old.assignee, input)
    } else {
        new.economy_progress.checkpoint == old.economy_progress.checkpoint
    }
    &&& new.goal_submission_round == (if old.goal_submission_round is None && submits_goal(old.spec.spec_goal(), actor, action) {
        Some(input.round_no)
    } else {
        old.goal_submission_round
    })
}

impl MissionRegistry {
    /// Takes a record out of the map.
    pub(crate) fn take_record(&mut self, mission: MissionId) -> (r: MissionRecord)
        requires
            old(self).storage_ok(),
            old(self).records().contains_key(mission),
        ensures
            final(self).storage_ok(),
            final(self).records() == old(self).records().remove(mission),
            r == old(self).records()[mission],
            final(self).active() == old(self).active(),
    {
        self.records.remove(&mission).unwrap()
    }

    /// Puts a record back in the map.
    pub(crate) fn put_record(&mut self, mission: MissionId, record: MissionRecord)
        requires
            old(self).storage_ok(),
        ensures
            final(self).storage_ok(),
            final(self).records() == old(self).records().insert(mission, record),
            final(self).active() == old(self).active(),
    {
        self.records.insert(mission, record);
    }

    /// Makes every proposed mission whose prerequisites have all succeeded
    /// ready; returns them in increasing id order.
    pub fn wake_ready(&mut self) -> (r: Vec<MissionId>)
        requires
            old(self).well_formed(),
        ensures
            final(self).well_formed(),
            history_kept(old(self).records(), final(self).records()),
            final(self).records() == woken(old(self).records()),
            r@ == old(self).order().filter(|m: MissionId| wakeable(old(self).records(), m)),
            final(self).active() == old(self).active(),
            final(self).order() == old(self).order(),
    {
        let ghost records = self.records();
        let ghost active = self.active();
        let ghost p = |m: MissionId| wakeable(records, m);
        let n: usize = self.records.len();
        let mut ready: Vec<MissionId> = Vec::new();
        let mut i: usize = 0;
        while i < n
            invariant
                self.well_formed(),
                records == self.records(),
                n == self.order().len(),
                i <= n,
                p == (|m: MissionId| wakeable(records, m)),
                ready@ == self.order().subrange(0, i as int).filter(p),
            decreases n - i,
        {
            proof { self.records.lemma_view(); }
            let (m, record) = self.records.entry_at(i);
            let m = *m;
            let keep = record.state == MissionState::Proposed && self.dependencies_succeeded(record.spec.dependencies());
            proof {
                assert(self.order()[i as int] == m);
                assert(self.order().subrange(0, i + 1) =~= self.order().subrange(0, i as int).push(m));
                self.order().subrange(0, i as int).lemma_filter_push(m, p);
            }
            if keep {
                ready.push(m);
            }
            i = i + 1;
        }
        proof {
            assert(self.order().subrange(0, n as int) =~= self.order());
            self.lemma_order();
            lemma_filter_no_duplicates(self.order(), p);
            assert(prefix_woken(records, ready@.subrange(0, 0)) =~= records);
        }
        let mut k: usize = 0;
        while k < ready.len()
            invariant
                k <= ready@.len(),
                ready@ == old(self).order().filter(p),
                ready@.no_duplicates(),
                p == (|m: MissionId| wakeable(records, m)),
                forall|m: MissionId| #[trigger] ready@.contains(m) ==> records.contains_key(m),
                self.records.well_formed(),
                self.active_by_assignee == old(self).active_by_assignee,
                self.records() == prefix_woken(records, ready@.subrange(0, k as int)),
            decreases ready@.len() - k,
        {
            let m = ready[k];
            proof {
                lemma_filter_member(old(self).order(), p, m);
                assert(ready@.contains(m));
            }
            self.set_state(m, MissionState::Ready);
            proof {
                let prefix = ready@.subrange(0, k as int);
                assert(ready@.subrange(0, k + 1) =~= prefix.push(m));
                assert(!prefix.contains(m)) by {
                    if prefix.contains(m) {
                        let j = choose|j: int| 0 <= j < prefix.len() && prefix[j] == m;
                        assert(ready@[j] == ready@[k as int]);
                    }
                }
                assert forall|x: MissionId| #[trigger] ready@.subrange(0, k + 1).contains(x) <==> (prefix.contains(x) || x == m) by {
                    if ready@.subrange(0, k + 1).contains(x) {
                        let j = choose|j: int| 0 <= j < k + 1 && #[trigger] ready@.subrange(0, k + 1)[j] == x;
                        if j < k {
                            assert(prefix[j] == x);
                        }
                    }
                    if prefix.contains(x) {
                        let j = choose|j: int| 0 <= j < prefix.len() && prefix[j] == x;
                        assert(ready@.subrange(0, k + 1)[j] == x);
                    }
                    if x == m {
                        assert(ready@.subrange(0, k + 1)[k as int] == x);
                    }
                }
                assert(self.records() =~= prefix_woken(records, ready@.subrange(0, k + 1)));
            }
            k = k + 1;
        }
        proof {
            assert(ready@.subrange(0, ready@.len() as int) =~= ready@);
            self.lemma_order();
            assert forall|m: MissionId| records.contains_key(m) implies (ready@.contains(m) <==> wakeable(records, m)) by {
                lemma_filter_member(old(self).order(), p, m);
            }
            assert(self.records() =~= woken(records));
            self.records.lemma_key_seq_determined(&old(self).records);
            let nr = self.records();
            assert forall|m: MissionId| #[trigger] nr.contains_key(m) && spec_released(nr[m].state)
                implies deps_succeeded(nr, nr[m].spec.spec_dependencies()) by {
                assert forall|d: MissionId| #[trigger] nr[m].spec.spec_dependencies().contains(d)
                    implies nr.contains_key(d) && nr[d].state == MissionState::Succeeded by {
                    assert(records[d].state == MissionState::Succeeded);
                }
            }
            assert forall|a: i64| #[trigger] active.contains_key(a) implies nr.contains_key(active[a])
                && nr[active[a]].assignee == a && spec_is_active(nr[active[a]].state) by {
                assert(nr[active[a]] == records[active[a]]);
            }
        }
        ready
    }

    /// Assigns a ready mission to its unit, cancelling the unit's previous
    /// active mission (with its dependency tree) when it is another one.
    pub fn assign(&mut self, mission: MissionId) -> (r: Result<Vec<MissionCancellation>, MissionRegistryError>)
        requires
            old(self).well_formed(),
        ensures
            final(self).well_formed(),
            history_kept(old(self).records(), final(self).records()),
            !old(self).records().contains_key(mission) ==> r == Err::<Vec<MissionCancellation>, MissionRegistryError>(MissionRegistryError::UnknownMission),
            old(self).records().contains_key(mission) && old(self).records()[mission].state != MissionState::Ready
                ==> r == Err::<Vec<MissionCancellation>, MissionRegistryError>(MissionRegistryError::InvalidTransition),
            r is Err ==> *final(self) == *old(self),
            r is Ok <==> old(self).records().contains_key(mission) && old(self).records()[mission].state == MissionState::Ready,
            r matches Ok(cancelled) ==> {
                let a = old(self).records()[mission].assignee;
                let replaced = old(self).active().contains_key(a) && old(self).active()[a] != mission;
                let base = if replaced { tree_cancelled(old(self).records(), old(self).active()[a]) } else { old(self).records() };
                &&& final(self).records() == base.insert(mission, with_state(old(self).records()[mission], MissionState::Assigned))
                &&& cancelled@ == (if replaced {
                        cancellations(old(self).records(), old(self).order().filter(|x: MissionId| in_tree(old(self).records(), old(self).active()[a], x)))
                    } else {
                        Seq::empty()
                    })
                &&& final(self).active() == (if replaced { pruned_active(old(self).active(), base) } else { old(self).active() }).insert(a, mission)
            },
    {
        let (state, assignee) = match self.records.get(&mission) {
            Some(record) => (record.state, record.assignee),
            None => return Err(MissionRegistryError::UnknownMission),
        };
        if state != MissionState::Ready {
            return Err(MissionRegistryError::InvalidTransition);
        }
        let ghost records = self.records();
        let ghost active = self.active();
        let current = match self.active_by_assignee.get(&assignee) {
            Some(m) => Some(*m),
            None => None,
        };
        let cancelled = match current {
            Some(previous) => {
                if previous != mission {
                    proof {
                        if in_tree(records, previous, mission) {
                            lemma_released_outside_tree(records, active, previous, mission);
                        }
                    }
                    self.cancel_tree(previous)
                } else {
                    Vec::new()
                }
            },
            None => Vec::new(),
        };
        let ghost base = self.records();
        let ghost pruned = self.active();
        assert(base[mission] == records[mission]);
        self.set_state(mission, MissionState::Assigned);
        self.active_by_assignee.insert(assignee, mission);
        proof {
            let nr = self.records();
            let na = self.active();
            assert forall|m: MissionId| #[trigger] nr.contains_key(m) && spec_released(nr[m].state)
                implies deps_succeeded(nr, nr[m].spec.spec_dependencies()) by {
                if m == mission {
                    assert(spec_released(records[mission].state));
                    assert forall|d: MissionId| #[trigger] nr[m].spec.spec_dependencies().contains(d)
                        implies nr.contains_key(d) && nr[d].state == MissionState::Succeeded by {
                        assert(records[d].state == MissionState::Succeeded);
                        assert(base[d] == records[d]);
                    }
                } else {
                    assert(spec_released(base[m].state));
                    assert forall|d: MissionId| #[trigger] nr[m].spec.spec_dependencies().contains(d)
                        implies nr.contains_key(d) && nr[d].state == MissionState::Succeeded by {
                        assert(base[m].spec == nr[m].spec);
                        assert(base.contains_key(d) && base[d].state == MissionState::Succeeded);
                        if d == mission {
                            assert(records[mission].state == MissionState::Ready);
                        }
                    }
                }
            }
            assert forall|a: i64| #[trigger] na.contains_key(a) implies nr.contains_key(na[a])
                && nr[na[a]].assignee == a && spec_is_active(nr[na[a]].state) by {
                if a != assignee {
                    assert(pruned.contains_key(a));
                    if pruned[a] == mission {
                        assert(base[mission].state == MissionState::Ready);
                    }
                }
            }
            if current is Some && current->0 != mission {
                assert(pruned == pruned_active(active, base));
            } else {
                assert(base == records);
            }
        }
        Ok(cancelled)
    }
}

impl MissionRegistry {
    /// Marks a running, blocked or suspended mission succeeded, drops it from
    /// the index and makes ready the missions waiting only for it.
    pub fn succeed(&mut self, mission: MissionId) -> (r: Result<MissionCompletion, MissionRegistryError>)
        requires
            old(self).well_formed(),
        ensures
            final(self).well_formed(),
            history_kept(old(self).records(), final(self).records()),
            !old(self).records().contains_key(mission) ==> r == Err::<MissionCompletion, MissionRegistryError>(MissionRegistryError::UnknownMission),
            r is Ok <==> old(self).records().contains_key(mission) && (old(self).records()[mission].state == MissionState::Executing
                || old(self).records()[mission].state == MissionState::Blocked || old(self).records()[mission].state == MissionState::Suspended),
            old(self).records().contains_key(mission) && r is Err ==> r == Err::<MissionCompletion, MissionRegistryError>(MissionRegistryError::InvalidTransition),
            r is Err ==> *final(self) == *old(self),
            r matches Ok(completion) ==> {
                let mid = old(self).records().insert(mission, with_state(old(self).records()[mission], MissionState::Succeeded));
                &&& completion.owner == old(self).records()[mission].owner
                &&& final(self).records() == woken(mid)
                &&& completion.ready@ == old(self).order().filter(|x: MissionId| wakeable(mid, x))
                &&& final(self).active() == pruned_active(old(self).active(), mid)
            },
    {
        let (state, assignee, owner) = match self.records.get(&mission) {
            Some(record) => (record.state, record.assignee, record.owner),
            None => return Err(MissionRegistryError::UnknownMission),
        };
        match state {
            MissionState::Executing | MissionState::Blocked | MissionState::Suspended => {},
            _ => return Err(MissionRegistryError::InvalidTransition),
        }
        let ghost records = self.records();
        let ghost active = self.active();
        self.set_state(mission, MissionState::Succeeded);
        self.remove_active(assignee, mission);
        let ghost mid = self.records();
        proof {
            assert(self.records.view().dom() =~= old(self).records.view().dom());
            self.records.lemma_key_seq_determined(&old(self).records);
            let na = self.active();
            assert forall|m: MissionId| #[trigger] mid.contains_key(m) && spec_released(mid[m].state)
                implies deps_succeeded(mid, mid[m].spec.spec_dependencies()) by {
                assert forall|d: MissionId| #[trigger] mid[m].spec.spec_dependencies().contains(d)
                    implies mid.contains_key(d) && mid[d].state == MissionState::Succeeded by {
                    assert(spec_released(records[m].state));
                    assert(records[d].state == MissionState::Succeeded);
                }
            }
            assert forall|a: i64| #[trigger] na.contains_key(a) implies mid.contains_key(na[a])
                && mid[na[a]].assignee == a && spec_is_active(mid[na[a]].state) by {
                if active[a] == mission {
                    assert(records[mission].assignee == a);
                }
            }
            assert forall|a: i64| #[trigger] na.contains_key(a) <==> pruned_active(active, mid).contains_key(a) by {
                if active.contains_key(a) && active[a] == mission {
                    assert(records[mission].assignee == a);
                }
            }
            assert(na =~= pruned_active(active, mid));
        }
        let ready = self.wake_ready();
        Ok(MissionCompletion { owner, ready })
    }

    /// Cancels an unfinished mission together with every mission waiting
    /// for it.
    pub fn cancel(&mut self, mission: MissionId) -> (r: Result<Vec<MissionCancellation>, MissionRegistryError>)
        requires
            old(self).well_formed(),
        ensures
            final(self).well_formed(),
            history_kept(old(self).records(), final(self).records()),
            !old(self).records().contains_key(mission) ==> r == Err::<Vec<MissionCancellation>, MissionRegistryError>(MissionRegistryError::UnknownMission),
            old(self).records().contains_key(mission) && spec_is_terminal(old(self).records()[mission].state)
                ==> r == Err::<Vec<MissionCancellation>, MissionRegistryError>(MissionRegistryError::InvalidTransition),
            r is Ok <==> old(self).records().contains_key(mission) && !spec_is_terminal(old(self).records()[mission].state),
            r is Err ==> *final(self) == *old(self),
            r matches Ok(cancelled) ==> {
                &&& final(self).records() == tree_cancelled(old(self).records(), mission)
                &&& cancelled@ == cancellations(old(self).records(), old(self).order().filter(|x: MissionId| in_tree(old(self).records(), mission, x)))
                &&& final(self).active() == pruned_active(old(self).active(), final(self).records())
            },
    {
        let state = match self.records.get(&mission) {
            Some(record) => record.state,
            None => return Err(MissionRegistryError::UnknownMission),
        };
        if is_terminal(state) {
            return Err(MissionRegistryError::InvalidTransition);
        }
        Ok(self.cancel_tree(mission))
    }

    /// A copy of a mission's record.
    pub fn view(&self, mission: MissionId) -> (r: Option<MissionView>)
        requires
            self.well_formed(),
        ensures
            r is Some <==> self.records().contains_key(mission),
            r matches Some(v) ==> view_of(v, self.records()[mission]),
    {
        match self.records.get(&mission) {
            Some(record) => Some(record.view()),
            None => None,
        }
    }

    /// The owner of the unit's active mission, when that mission runs under
    /// the same contract.
    pub fn current_assignment(&self, assignee: i64, spec: &MissionSpec) -> (r: Option<OwnerPath>)
        requires
            self.well_formed(),
            spec.well_formed(),
        ensures
            r == (if self.active().contains_key(assignee)
                && same_contract(self.records()[self.active()[assignee]].spec, *spec)
                && spec_is_active(self.records()[self.active()[assignee]].state) {
                Some(self.records()[self.active()[assignee]].owner)
            } else {
                None
            }),
    {
        let mission = match self.active_by_assignee.get(&assignee) {
            Some(m) => *m,
            None => return None,
        };
        match self.records.get(&mission) {
            Some(record) => {
                if record.spec.same_as(spec) && is_active(record.state) {
                    Some(record.owner)
                } else {
                    None
                }
            },
            None => None,
        }
    }

    /// The contract of the unit's active mission, when it agrees with
    /// `spec` on everything but the deadline; a mission keeps the deadline
    /// it was given.
    pub fn live_spec(&self, assignee: i64, spec: &MissionSpec) -> (r: Option<MissionSpec>)
        requires
            self.well_formed(),
            spec.well_formed(),
        ensures
            r is Some <==> (self.active().contains_key(assignee)
                && same_except_deadline(self.records()[self.active()[assignee]].spec, *spec)
                && spec_is_active(self.records()[self.active()[assignee]].state)),
            r matches Some(s) ==> s.well_formed() && same_contract(s, self.records()[self.active()[assignee]].spec),
    {
        let mission = match self.active_by_assignee.get(&assignee) {
            Some(m) => *m,
            None => return None,
        };
        match self.records.get(&mission) {
            Some(record) => {
                if record.spec.matches_except_deadline(spec) && is_active(record.state) {
                    Some(record.spec.duplicate())
                } else {
                    None
                }
            },
            None => None,
        }
    }

    /// Registers, assigns and starts a mission in one step, for an action
    /// that is about to be committed.
    pub fn activate_for_action(&mut self, assignee: i64, spec: MissionSpec, owner: OwnerPath) -> (r: Result<Vec<MissionCancellation>, MissionRegistryError>)
        requires
            old(self).well_formed(),
            spec.well_formed(),
        ensures
            final(self).well_formed(),
            history_kept(old(self).records(), final(self).records()),
            registration_error(old(self).records(), spec, owner) matches Some(e)
                ==> r == Err::<Vec<MissionCancellation>, MissionRegistryError>(e) && *final(self) == *old(self),
            registration_error(old(self).records(), spec, owner) is None && !deps_succeeded(old(self).records(), spec.spec_dependencies())
                ==> r == Err::<Vec<MissionCancellation>, MissionRegistryError>(MissionRegistryError::InvalidTransition)
                    && final(self).records().contains_key(owner.spec_mission().id)
                    && final(self).records()[owner.spec_mission().id].state == MissionState::Proposed,
            r is Ok <==> registration_error(old(self).records(), spec, owner) is None && deps_succeeded(old(self).records(), spec.spec_dependencies()),
            r is Ok ==> {
                let m = owner.spec_mission().id;
                &&& final(self).records().contains_key(m)
                &&& final(self).records()[m].state == MissionState::Executing
                &&& final(self).records()[m].owner == owner
                &&& final(self).records()[m].assignee == assignee
                &&& final(self).records()[m].spec == spec
                &&& final(self).active().contains_key(assignee)
                &&& final(self).active()[assignee] == m
            },
            r is Ok && old(self).active().contains_key(assignee)
                ==> final(self).records()[old(self).active()[assignee]].state == MissionState::Cancelled,
            forall|m: MissionId| #[trigger] final(self).records().contains_key(m)
                ==> old(self).records().contains_key(m) || m == owner.spec_mission().id,
    {
        let ghost previous = old(self).active()[assignee];
        proof {
            if old(self).active().contains_key(assignee) {
                assert(is_chain(old(self).records(), previous, seq![previous]));
                assert(in_tree(old(self).records(), previous, previous));
            }
        }
        let mission = self.register(assignee, spec, owner)?;
        proof {
            if old(self).active().contains_key(assignee) {
                assert(is_chain(self.records(), previous, seq![previous]));
            }
        }
        let cancelled = self.assign(mission)?;
        match self.activate(mission) {
            Ok(()) => Ok(cancelled),
            Err(e) => Err(e),
        }
    }

    /// Blocks the mission of an assignment owner while it can be blocked.
    pub fn mark_blocked(&mut self, owner: &OwnerPath) -> (r: bool)
        requires
            old(self).well_formed(),
        ensures
            final(self).well_formed(),
            history_kept(old(self).records(), final(self).records()),
            r == (old(self).records().contains_key(owner.spec_mission().id)
                && old(self).records()[owner.spec_mission().id].owner == owner.spec_assignment()
                && spec_is_blockable(old(self).records()[owner.spec_mission().id].state)),
            r ==> final(self).records() == old(self).records().insert(owner.spec_mission().id,
                with_state(old(self).records()[owner.spec_mission().id], MissionState::Blocked)),
            !r ==> *final(self) == *old(self),
            final(self).active() == old(self).active(),
    {
        let mission = owner.mission().id;
        let ok = match self.records.get(&mission) {
            Some(record) => record.owner == owner.assignment() && is_blockable(record.state),
            None => false,
        };
        if !ok {
            return false;
        }
        let ghost records = self.records();
        self.set_state(mission, MissionState::Blocked);
        proof { self.lemma_state_change_keeps_invariant(records, self.active(), mission); }
        true
    }

    /// Resumes the mission of an assignment owner for its next action.
    pub fn resume_for_action(&mut self, owner: &OwnerPath) -> (r: Result<(), MissionRegistryError>)
        requires
            old(self).well_formed(),
        ensures
            final(self).well_formed(),
            history_kept(old(self).records(), final(self).records()),
            !old(self).records().contains_key(owner.spec_mission().id) ==> r == Err::<(), MissionRegistryError>(MissionRegistryError::UnknownMission),
            r is Ok <==> (old(self).records().contains_key(owner.spec_mission().id)
                && old(self).records()[owner.spec_mission().id].owner == owner.spec_assignment()
                && spec_is_active(old(self).records()[owner.spec_mission().id].state)),
            old(self).records().contains_key(owner.spec_mission().id) && r is Err
                ==> r == Err::<(), MissionRegistryError>(MissionRegistryError::InvalidTransition),
            r is Ok ==> final(self).records() == old(self).records().insert(owner.spec_mission().id,
                with_state(old(self).records()[owner.spec_mission().id], MissionState::Executing)),
            r is Err ==> *final(self) == *old(self),
            final(self).active() == old(self).active(),
    {
        let mission = owner.mission().id;
        let ok = match self.records.get(&mission) {
            Some(record) => record.owner == owner.assignment() && is_active(record.state),
            None => return Err(MissionRegistryError::UnknownMission),
        };
        if !ok {
            return Err(MissionRegistryError::InvalidTransition);
        }
        let ghost records = self.records();
        self.set_state(mission, MissionState::Executing);
        proof { self.lemma_state_change_keeps_invariant(records, self.active(), mission); }
        Ok(())
    }

    /// Cancels the tree of the mission an assignment owner runs, when the
    /// owner still matches.
    pub fn cancel_owner(&mut self, owner: &OwnerPath) -> (r: Vec<MissionCancellation>)
        requires
            old(self).well_formed(),
        ensures
            final(self).well_formed(),
            history_kept(old(self).records(), final(self).records()),
            ({
                let m = owner.spec_mission().id;
                if old(self).records().contains_key(m) && old(self).records()[m].owner == owner.spec_assignment() {
                    &&& final(self).records() == tree_cancelled(old(self).records(), m)
                    &&& r@ == cancellations(old(self).records(), old(self).order().filter(|x: MissionId| in_tree(old(self).records(), m, x)))
                    &&& final(self).active() == pruned_active(old(self).active(), final(self).records())
                } else {
                    &&& *final(self) == *old(self)
                    &&& r@.len() == 0
                }
            }),
    {
        let mission = owner.mission().id;
        let matches = match self.records.get(&mission) {
            Some(record) => record.owner == owner.assignment(),
            None => false,
        };
        if !matches {
            return Vec::new();
        }
        self.cancel_tree(mission)
    }

    /// Cancels the unit's active mission with its tree, if it has one.
    pub fn cancel_current(&mut self, assignee: i64) -> (r: Vec<MissionCancellation>)
        requires
            old(self).well_formed(),
        ensures
            final(self).well_formed(),
            history_kept(old(self).records(), final(self).records()),
            ({
                if old(self).active().contains_key(assignee) {
                    let m = old(self).active()[assignee];
                    &&& final(self).records() == tree_cancelled(old(self).records(), m)
                    &&& r@ == cancellations(old(self).records(), old(self).order().filter(|x: MissionId| in_tree(old(self).records(), m, x)))
                    &&& final(self).active() == pruned_active(old(self).active(), final(self).records())
                } else {
                    &&& *final(self) == *old(self)
                    &&& r@.len() == 0
                }
            }),
    {
        let current = match self.active_by_assignee.get(&assignee) {
            Some(m) => *m,
            None => return Vec::new(),
        };
        self.cancel_tree(current)
    }

    /// Records that an action of an assignment owner's mission was
    /// committed: the economy checkpoint it leaves and, the first time, the
    /// round in which it submitted the mission's goal.
    pub fn record_action_commit(&mut self, owner: &OwnerPath, actor: i64, action: &Action, input: &Observation) -> (r: bool)
        requires
            old(self).well_formed(),
        ensures
            final(self).well_formed(),
            history_kept(old(self).records(), final(self).records()),
            final(self).active() == old(self).active(),
            r == (old(self).records().contains_key(owner.spec_mission().id)
                && old(self).records()[owner.spec_mission().id].owner == owner.spec_assignment()
                && spec_is_active(old(self).records()[owner.spec_mission().id].state)),
            !r ==> *final(self) == *old(self),
            r ==> final(self).records().dom() == old(self).records().dom()
                && (forall|m: MissionId| #[trigger] old(self).records().contains_key(m) && m != owner.spec_mission().id
                    ==> final(self).records()[m] == old(self).records()[m])
                && committed(old(self).records()[owner.spec_mission().id], final(self).records()[owner.spec_mission().id], actor, action@, *input),
    {
        let mission = owner.mission().id;
        let ok = match self.records.get(&mission) {
            Some(record) => record.owner == owner.assignment() && is_active(record.state),
            None => false,
        };
        if !ok {
            return false;
        }
        let ghost records = self.records();
        let ghost active = self.active();
        let mut record = self.take_record(mission);
        let economy = match record.spec.goal() {
            GoalPredicate::EconomyCycleCompleted => true,
            _ => false,
        };
        if economy {
            super::progress::record_action(&mut record.economy_progress, action, record.assignee, input);
        }
        if record.goal_submission_round.is_none() && action_submits_goal(record.spec.goal(), actor, action) {
            record.goal_submission_round = Some(input.round_no);
        }
        self.put_record(mission, record);
        proof {
            let nr = self.records();
            assert(nr.dom() =~= records.dom());
            assert forall|m: MissionId| #[trigger] nr.contains_key(m) && spec_released(nr[m].state)
                implies deps_succeeded(nr, nr[m].spec.spec_dependencies()) by {
                assert forall|d: MissionId| #[trigger] nr[m].spec.spec_dependencies().contains(d)
                    implies nr.contains_key(d) && nr[d].state == MissionState::Succeeded by {
                    assert(records[m].spec == nr[m].spec);
                    assert(records[d].state == MissionState::Succeeded);
                    if d == mission {
                        assert(spec_is_active(records[mission].state));
                    }
                }
            }
            assert forall|a: i64| #[trigger] active.contains_key(a) implies nr.contains_key(active[a])
                && nr[active[a]].assignee == a && spec_is_active(nr[active[a]].state) by {
            }
        }
        true
    }

    /// Whether the unit may still be given this contract: it has not
    /// already failed under the same contract.
    pub fn proposal_allowed(&self, assignee: i64, spec: &MissionSpec) -> (r: bool)
        requires
            self.well_formed(),
            spec.well_formed(),
        ensures
            r == !(exists|m: MissionId| #[trigger] self.records().contains_key(m) && self.records()[m].assignee == assignee
                && self.records()[m].state == MissionState::Failed && same_contract(self.records()[m].spec, *spec)),
    {
        let n: usize = self.records.len();
        let mut i: usize = 0;
        while i < n
            invariant
                self.well_formed(),
                spec.well_formed(),
                n == self.records.entries().len(),
                i <= n,
                forall|j: int| 0 <= j < i ==> !({
                    let rec = #[trigger] self.records.entries()[j].1;
                    rec.assignee == assignee && rec.state == MissionState::Failed && same_contract(rec.spec, *spec)
                }),
            decreases n - i,
        {
            proof { self.records.lemma_view(); }
            let (_, record) = self.records.entry_at(i);
            if record.assignee == assignee && record.state == MissionState::Failed && record.spec.same_as(spec) {
                proof {
                    assert(self.records().contains_key(self.records.entries()[i as int].0));
                }
                return false;
            }
            i = i + 1;
        }
        proof {
            self.records.lemma_view();
            if exists|m: MissionId| #[trigger] self.records().contains_key(m) && self.records()[m].assignee == assignee
                && self.records()[m].state == MissionState::Failed && same_contract(self.records()[m].spec, *spec) {
                let m = choose|m: MissionId| #[trigger] self.records().contains_key(m) && self.records()[m].assignee == assignee
                    && self.records()[m].state == MissionState::Failed && same_contract(self.records()[m].spec, *spec);
                let j = choose|j: int| 0 <= j < self.records.entries().len() && self.records.entries()[j].0 == m;
                assert(self.records.entries()[j].1 == self.records()[m]);
            }
        }
        true
    }
}

/// A record of the tree of `root` as ending it leaves it: the root in the
/// given end state (with the given failure, if any), the others cancelled.
pub open spec fn ended_record(r: MissionRecord, is_root: bool, root_state: MissionState, failure: Option<MissionFailure>) -> MissionRecord {
    if is_root {
        MissionRecord { state: root_state, failure: if failure is Some { failure } else { r.failure }, ..r }
    } else {
        with_state(r, MissionState::Cancelled)
    }
}

/// The records after ending the dependency tree of `root`: every
/// unfinished mission in it ends, the root in `root_state`, the others
/// cancelled; nothing else changes.
pub open spec fn tree_ended(records: Map<MissionId, MissionRecord>, root: MissionId, root_state: MissionState, failure: Option<MissionFailure>) -> Map<MissionId, MissionRecord> {
    Map::new(
        |m: MissionId| records.contains_key(m),
        |m: MissionId| if in_tree(records, root, m) && !spec_is_terminal(records[m].state) {
            ended_record(records[m], m == root, root_state, failure)
        } else {
            records[m]
        },
    )
}

pub open spec fn prefix_ended(records: Map<MissionId, MissionRecord>, ids: Seq<MissionId>, root: MissionId, root_state: MissionState, failure: Option<MissionFailure>) -> Map<MissionId, MissionRecord> {
    Map::new(
        |m: MissionId| records.contains_key(m),
        |m: MissionId| if ids.contains(m) && !spec_is_terminal(records[m].state) {
            ended_record(records[m], m == root, root_state, failure)
        } else {
            records[m]
        },
    )
}

/// The resolutions that ending the listed missions makes, in list order.
pub open spec fn resolutions(records: Map<MissionId, MissionRecord>, ids: Seq<MissionId>, root: MissionId, root_state: MissionState, failure: Option<MissionFailure>) -> Seq<MissionResolution>
    decreases ids.len(),
{
    if ids.len() == 0 {
        Seq::empty()
    } else {
        let m = ids.last();
        resolutions(records, ids.drop_last(), root, root_state, failure) + if records.contains_key(m) && !spec_is_terminal(records[m].state) {
            seq![resolution_of(ended_record(records[m], m == root, root_state, failure))]
        } else {
            Seq::empty()
        }
    }
}

/// The record after its goal was reached with the given evidence.
pub open spec fn completed_record(old: MissionRecord, new: MissionRecord, evidence: Seq<GoalEvidence>) -> bool {
    new == MissionRecord { state: MissionState::Succeeded, completion_evidence: new.completion_evidence, ..old }
        && new.completion_evidence@ == evidence
}

impl MissionRegistry {
    /// Ends the dependency tree of `root`: the root in `root_state`, every
    /// other unfinished mission of the tree cancelled, each dropped from the
    /// index; returns their resolutions in increasing id order.
    pub(crate) fn end_tree(&mut self, root: MissionId, root_state: MissionState, failure: Option<MissionFailure>) -> (r: Vec<MissionResolution>)
        requires
            old(self).well_formed(),
            old(self).records().contains_key(root),
            root_state == MissionState::Expired || root_state == MissionState::Failed,
        ensures
            final(self).well_formed(),
            final(self).records() == tree_ended(old(self).records(), root, root_state, failure),
            r@ == resolutions(old(self).records(), old(self).order().filter(|m: MissionId| in_tree(old(self).records(), root, m)), root, root_state, failure),
            final(self).active() == pruned_active(old(self).active(), final(self).records()),
            final(self).order() == old(self).order(),
            history_kept(old(self).records(), final(self).records()),
    {
        let ghost records = self.records();
        let ghost active = self.active();
        let ids = self.cancellation_ids(root);
        let mut ended: Vec<MissionResolution> = Vec::new();
        proof {
            self.lemma_order();
            assert(prefix_ended(records, ids@.subrange(0, 0), root, root_state, failure) =~= records);
            assert(resolutions(records, ids@.subrange(0, 0), root, root_state, failure) =~= Seq::<MissionResolution>::empty());
        }
        let mut i: usize = 0;
        while i < ids.len()
            invariant
                i <= ids@.len(),
                ids@.no_duplicates(),
                root_state == MissionState::Expired || root_state == MissionState::Failed,
                registry_invariant(records, active),
                self.records.well_formed(),
                self.active_by_assignee.well_formed(),
                self.records.view().dom() == records.dom(),
                self.records() == prefix_ended(records, ids@.subrange(0, i as int), root, root_state, failure),
                ended@ == resolutions(records, ids@.subrange(0, i as int), root, root_state, failure),
                forall|a: i64| #[trigger] self.active().contains_key(a) <==> (active.contains_key(a)
                    && !(ids@.subrange(0, i as int).contains(active[a]) && !spec_is_terminal(records[active[a]].state))),
                forall|a: i64| #[trigger] self.active().contains_key(a) ==> self.active()[a] == active[a],
            decreases ids@.len() - i,
        {
            let m = ids[i];
            let ghost prefix = ids@.subrange(0, i as int);
            assert(!prefix.contains(m)) by {
                if prefix.contains(m) {
                    let k = choose|k: int| 0 <= k < prefix.len() && prefix[k] == m;
                    assert(ids@[k] == ids@[i as int]);
                }
            }
            assert(ids@.subrange(0, i + 1) =~= prefix.push(m));
            let live = match self.records.get(&m) {
                Some(record) => !is_terminal(record.state),
                None => false,
            };
            if live {
                let ghost a_prev = self.active();
                let mut record = self.take_record(m);
                if m == root {
                    record.state = root_state;
                    match failure {
                        Some(f) => { record.failure = Some(f); },
                        None => {},
                    }
                } else {
                    record.state = MissionState::Cancelled;
                }
                let resolution = MissionResolution::from_record(&record);
                let assignee = record.assignee;
                self.put_record(m, record);
                self.remove_active(assignee, m);
                ended.push(resolution);
                proof {
                    assert(assignee == records[m].assignee);
                    assert(self.records() =~= prefix_ended(records, ids@.subrange(0, i + 1), root, root_state, failure));
                    assert(ended@ =~= resolutions(records, ids@.subrange(0, i + 1), root, root_state, failure)) by {
                        assert(prefix.push(m).drop_last() =~= prefix);
                    }
                    assert forall|a: i64| #[trigger] self.active().contains_key(a) implies self.active()[a] == active[a] by {
                        assert(a_prev.contains_key(a));
                    }
                    assert forall|a: i64| #[trigger] self.active().contains_key(a) <==> (active.contains_key(a)
                        && !(ids@.subrange(0, i + 1).contains(active[a]) && !spec_is_terminal(records[active[a]].state))) by {
                        if active.contains_key(a) && active[a] == m {
                            assert(records[m].assignee == a);
                        }
                        if a_prev.contains_key(a) {
                            assert(a_prev[a] == active[a]);
                        }
                        if ids@.subrange(0, i + 1).contains(active[a]) && active[a] != m {
                            let k = choose|k: int| 0 <= k < i + 1 && #[trigger] ids@.subrange(0, i + 1)[k] == active[a];
                            assert(prefix[k] == active[a]);
                        }
                        if prefix.contains(active[a]) {
                            let k = choose|k: int| 0 <= k < prefix.len() && prefix[k] == active[a];
                            assert(ids@.subrange(0, i + 1)[k] == active[a]);
                        }
                    }
                }
            } else {
                proof {
                    assert(self.records() =~= prefix_ended(records, ids@.subrange(0, i + 1), root, root_state, failure));
                    assert(ended@ =~= resolutions(records, ids@.subrange(0, i + 1), root, root_state, failure)) by {
                        assert(prefix.push(m).drop_last() =~= prefix);
                    }
                    assert forall|a: i64| #[trigger] self.active().contains_key(a) <==> (active.contains_key(a)
                        && !(ids@.subrange(0, i + 1).contains(active[a]) && !spec_is_terminal(records[active[a]].state))) by {
                        if ids@.subrange(0, i + 1).contains(active[a]) && active[a] != m {
                            let k = choose|k: int| 0 <= k < i + 1 && #[trigger] ids@.subrange(0, i + 1)[k] == active[a];
                            assert(prefix[k] == active[a]);
                        }
                        if prefix.contains(active[a]) {
                            let k = choose|k: int| 0 <= k < prefix.len() && prefix[k] == active[a];
                            assert(ids@.subrange(0, i + 1)[k] == active[a]);
                        }
                    }
                }
            }
            i = i + 1;
        }
        proof {
            let p = |m: MissionId| in_tree(records, root, m);
            assert(ids@.subrange(0, ids@.len() as int) =~= ids@);
            assert forall|m: MissionId| records.contains_key(m) implies (ids@.contains(m) <==> in_tree(records, root, m)) by {
                lemma_filter_member(old(self).order(), p, m);
            }
            assert(self.records() =~= tree_ended(records, root, root_state, failure));
            assert(self.records.view().dom() =~= old(self).records.view().dom());
            self.records.lemma_key_seq_determined(&old(self).records);
            let nr = self.records();
            let na = self.active();
            assert forall|m: MissionId| #[trigger] nr.contains_key(m) && spec_released(nr[m].state)
                implies deps_succeeded(nr, nr[m].spec.spec_dependencies()) by {
                assert(nr[m] == records[m]);
                assert forall|d: MissionId| #[trigger] nr[m].spec.spec_dependencies().contains(d)
                    implies nr.contains_key(d) && nr[d].state == MissionState::Succeeded by {
                    assert(records[d].state == MissionState::Succeeded);
                    assert(nr[d] == records[d]);
                }
            }
            assert forall|m: MissionId| #[trigger] nr.contains_key(m) implies nr[m].spec.well_formed()
                && evidence_sorted(nr[m].economy_progress.evidence@) by {
                assert(nr[m].spec == records[m].spec);
                assert(nr[m].economy_progress == records[m].economy_progress);
            }
            assert forall|a: i64| #[trigger] na.contains_key(a) implies nr.contains_key(na[a])
                && nr[na[a]].assignee == a && spec_is_active(nr[na[a]].state) by {
                assert(nr[na[a]] == records[active[a]]);
            }
            assert(registry_invariant(nr, na));
            assert(na =~= pruned_active(active, nr));
        }
        ended
    }

    /// Completes a mission whose goal was reached: succeeded, with its
    /// evidence, and dropped from the index.
    pub(crate) fn complete(&mut self, mission: MissionId, evidence: Vec<GoalEvidence>) -> (r: Option<MissionResolution>)
        requires
            old(self).well_formed(),
            old(self).records().contains_key(mission),
            spec_goal_can_complete(old(self).records()[mission].state),
        ensures
            final(self).well_formed(),
            history_kept(old(self).records(), final(self).records()),
            final(self).records().dom() == old(self).records().dom(),
            forall|m: MissionId| #[trigger] old(self).records().contains_key(m) && m != mission ==> final(self).records()[m] == old(self).records()[m],
            completed_record(old(self).records()[mission], final(self).records()[mission], evidence@),
            r == Some(resolution_of(final(self).records()[mission])),
            final(self).active() == pruned_active(old(self).active(), final(self).records()),
            final(self).order() == old(self).order(),
    {
        let ghost records = self.records();
        let ghost active = self.active();
        let mut record = self.take_record(mission);
        record.state = MissionState::Succeeded;
        record.completion_evidence = evidence;
        let resolution = MissionResolution::from_record(&record);
        let assignee = record.assignee;
        self.put_record(mission, record);
        self.remove_active(assignee, mission);
        proof {
            let nr = self.records();
            let na = self.active();
            assert(nr.dom() =~= records.dom());
            assert(self.records.view().dom() =~= old(self).records.view().dom());
            self.records.lemma_key_seq_determined(&old(self).records);
            assert forall|m: MissionId| #[trigger] nr.contains_key(m) && spec_released(nr[m].state)
                implies deps_succeeded(nr, nr[m].spec.spec_dependencies()) by {
                assert(nr[m].spec == records[m].spec);
                assert(spec_released(records[m].state));
                assert forall|d: MissionId| #[trigger] nr[m].spec.spec_dependencies().contains(d)
                    implies nr.contains_key(d) && nr[d].state == MissionState::Succeeded by {
                    assert(records[d].state == MissionState::Succeeded);
                }
            }
            assert forall|a: i64| #[trigger] na.contains_key(a) implies nr.contains_key(na[a])
                && nr[na[a]].assignee == a && spec_is_active(nr[na[a]].state) by {
                if active[a] == mission {
                    assert(records[mission].assignee == a);
                }
            }
            assert forall|a: i64| #[trigger] na.contains_key(a) <==> pruned_active(active, nr).contains_key(a) by {
                if active.contains_key(a) && active[a] == mission {
                    assert(records[mission].assignee == a);
                }
            }
            assert(na =~= pruned_active(active, nr));
        }
        Some(resolution)
    }
}

impl MissionRegistry {
    /// The known mission ids in increasing order.
    pub fn mission_ids(&self) -> (r: Vec<MissionId>)
        requires
            self.storage_ok(),
        ensures
            r@ == self.order(),
    {
        let n: usize = self.records.len();
        let mut ids: Vec<MissionId> = Vec::new();
        let mut i: usize = 0;
        while i < n
            invariant
                self.storage_ok(),
                n == self.order().len(),
                i <= n,
                ids@ == self.order().subrange(0, i as int),
            decreases n - i,
        {
            let (m, _) = self.records.entry_at(i);
            ids.push(*m);
            assert(ids@ =~= self.order().subrange(0, i + 1));
            i = i + 1;
        }
        assert(ids@ =~= self.order());
        ids
    }

    /// The record of a known mission.
    pub fn record_of(&self, mission: MissionId) -> (r: Option<&MissionRecord>)
        requires
            self.storage_ok(),
        ensures
            r is Some <==> self.records().contains_key(mission),
            r matches Some(rec) ==> *rec == self.records()[mission],
    {
        self.records.get(&mission)
    }

    /// The state of a known mission.
    pub fn state_of(&self, mission: MissionId) -> (r: Option<MissionState>)
        requires
            self.storage_ok(),
        ensures
            r is Some <==> self.records().contains_key(mission),
            r matches Some(s) ==> s == self.records()[mission].state,
    {
        match self.records.get(&mission) {
            Some(record) => Some(record.state),
            None => None,
        }
    }
}

} // verus!
