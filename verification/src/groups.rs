//! Duplicate groups and their mathematical model.
//!
//! A group collects the paths that share one fingerprint: the canonical path,
//! which was discovered first, and the duplicates in the order in which they
//! were discovered.

use vstd::prelude::*;
use crate::ignore::{exclusion_of, EntryKind};

verus! {

/// The paths that share one fingerprint.
#[derive(Debug)]
pub struct DuplicateGroup {
    /// The fingerprint that all members share.
    pub fingerprint: String,
    /// The member that was discovered first. It survives remediation.
    pub canonical: String,
    /// The other members, in discovery order.
    pub duplicates: Vec<String>,
}

/// The mathematical value of a [`DuplicateGroup`].
pub struct GroupView {
    pub fingerprint: Seq<char>,
    pub canonical: Seq<char>,
    pub duplicates: Seq<Seq<char>>,
}

impl View for DuplicateGroup {
    type V = GroupView;

    open spec fn view(&self) -> GroupView {
        GroupView {
            fingerprint: self.fingerprint@,
            canonical: self.canonical@,
            duplicates: self.duplicates.deep_view(),
        }
    }
}

/// Where a path stands in its life cycle.
///
/// A path starts `Unseen`. The scan makes it `Canonical`, where it stays, or
/// `Duplicate`. Remediation takes a duplicate to `Removed` and, where links
/// are asked for, on to `Linked`. Nothing leads back.
#[derive(Clone, Copy, Debug, PartialEq, Eq, Structural)]
pub enum Status {
    Unseen,
    Canonical,
    Duplicate,
    Removed,
    Linked,
}

/// The views of a vector of groups.
pub open spec fn views(groups: Seq<DuplicateGroup>) -> Seq<GroupView> {
    groups.map_values(|g: DuplicateGroup| g@)
}

/// All members of a group: the canonical path first, then the duplicates.
pub open spec fn members(group: GroupView) -> Seq<Seq<char>> {
    seq![group.canonical] + group.duplicates
}

/// Whether `path` is a member of some group.
pub open spec fn holds(groups: Seq<GroupView>, path: Seq<char>) -> bool {
    exists|i: int, a: int|
        0 <= i < groups.len() && 0 <= a < members(groups[i]).len() && #[trigger] members(
            groups[i],
        )[a] == path
}

/// Where a path stands after a scan that found `groups`.
pub open spec fn status_of(groups: Seq<GroupView>, path: Seq<char>) -> Status {
    if exists|i: int| 0 <= i < groups.len() && (#[trigger] groups[i]).canonical == path {
        Status::Canonical
    } else if holds(groups, path) {
        Status::Duplicate
    } else {
        Status::Unseen
    }
}

/// Whether some group carries `fingerprint`.
pub open spec fn knows(groups: Seq<GroupView>, fingerprint: Seq<char>) -> bool {
    exists|k: int| 0 <= k < groups.len() && (#[trigger] groups[k]).fingerprint == fingerprint
}

/// The position of a group that carries `fingerprint`. Among well-formed
/// groups there is at most one.
pub open spec fn position_of(groups: Seq<GroupView>, fingerprint: Seq<char>) -> int {
    choose|k: int| 0 <= k < groups.len() && (#[trigger] groups[k]).fingerprint == fingerprint
}

/// No two groups share a fingerprint.
pub open spec fn distinct_fingerprints(groups: Seq<GroupView>) -> bool {
    forall|i: int, j: int|
        0 <= i < j < groups.len() ==> (#[trigger] groups[i]).fingerprint != (
        #[trigger] groups[j]).fingerprint
}

/// No path occurs twice, neither within a group nor in two groups. So a path
/// belongs to at most one group, and a canonical path is never among its own
/// duplicates.
pub open spec fn distinct_paths(groups: Seq<GroupView>) -> bool {
    forall|i: int, a: int, j: int, b: int|
        0 <= i < groups.len() && 0 <= a < members(groups[i]).len() && 0 <= j < groups.len() && 0
            <= b < members(groups[j]).len() && #[trigger] members(groups[i])[a]
            == #[trigger] members(groups[j])[b] ==> i == j && a == b
}

/// The invariant of every collection of groups in this library.
pub open spec fn well_formed(groups: Seq<GroupView>) -> bool {
    distinct_fingerprints(groups) && distinct_paths(groups)
}

/// Every member passes the classifier's rules on paths: none is the
/// program's own executable, and none carries an ignored name.
pub open spec fn admissible(groups: Seq<GroupView>, own_exe: Seq<char>) -> bool {
    forall|i: int, a: int|
        0 <= i < groups.len() && 0 <= a < members(groups[i]).len() ==> exclusion_of(
            #[trigger] members(groups[i])[a],
            EntryKind::File,
            own_exe,
        ) is None
}

/// Whether a group has at least two members.
pub open spec fn plural(group: GroupView) -> bool {
    group.duplicates.len() >= 1
}

/// Whether every group has at least two members.
pub open spec fn all_plural(groups: Seq<GroupView>) -> bool {
    forall|i: int| 0 <= i < groups.len() ==> plural(#[trigger] groups[i])
}

/// The groups that are shown: those with at least two members, in their
/// order. A fingerprint that was met only once forms no visible group.
pub open spec fn emitted(groups: Seq<GroupView>) -> Seq<GroupView>
    decreases groups.len(),
{
    if groups.len() == 0 {
        Seq::empty()
    } else if plural(groups.last()) {
        emitted(groups.drop_last()).push(groups.last())
    } else {
        emitted(groups.drop_last())
    }
}

/// The number of duplicates over all groups.
pub open spec fn total_duplicates(groups: Seq<GroupView>) -> nat
    decreases groups.len(),
{
    if groups.len() == 0 {
        0
    } else {
        total_duplicates(groups.drop_last()) + groups.last().duplicates.len()
    }
}

/// The groups after one more occurrence of `fingerprint` at `path`.
///
/// A path that is already a member changes nothing. Otherwise the first
/// occurrence of a fingerprint founds a group with `path` as its canonical
/// path, and every later one appends `path` to that group's duplicates.
pub open spec fn with_occurrence(
    groups: Seq<GroupView>,
    fingerprint: Seq<char>,
    path: Seq<char>,
) -> Seq<GroupView> {
    if holds(groups, path) {
        groups
    } else if knows(groups, fingerprint) {
        let k = position_of(groups, fingerprint);
        groups.update(
            k,
            GroupView { duplicates: groups[k].duplicates.push(path), ..groups[k] },
        )
    } else {
        groups.push(GroupView { fingerprint, canonical: path, duplicates: Seq::empty() })
    }
}

/// In a well-formed collection the canonical path of a group is not among
/// its duplicates, and no path of one group occurs in another.
pub proof fn lemma_paths_belong_to_one_group(groups: Seq<GroupView>, i: int, j: int)
    requires
        well_formed(groups),
        0 <= i < groups.len(),
        0 <= j < groups.len(),
    ensures
        !groups[i].duplicates.contains(groups[i].canonical),
        groups[i].duplicates.no_duplicates(),
        i != j ==> forall|p: Seq<char>|
            !(members(groups[i]).contains(p) && members(groups[j]).contains(p)),
{
    if groups[i].duplicates.contains(groups[i].canonical) {
        let d = choose|d: int|
            0 <= d < groups[i].duplicates.len() && groups[i].duplicates[d] == groups[i].canonical;
        assert(members(groups[i])[d + 1] == members(groups[i])[0]);
    }
    assert forall|a: int, b: int|
        0 <= a < groups[i].duplicates.len() && 0 <= b < groups[i].duplicates.len() && a
            != b implies groups[i].duplicates[a] != groups[i].duplicates[b] by {
        if groups[i].duplicates[a] == groups[i].duplicates[b] {
            assert(members(groups[i])[a + 1] == members(groups[i])[b + 1]);
        }
    }
    if i != j {
        assert forall|p: Seq<char>|
            !(members(groups[i]).contains(p) && members(groups[j]).contains(p)) by {
            if members(groups[i]).contains(p) && members(groups[j]).contains(p) {
                let a = choose|a: int|
                    0 <= a < members(groups[i]).len() && members(groups[i])[a] == p;
                let b = choose|b: int|
                    0 <= b < members(groups[j]).len() && members(groups[j])[b] == p;
                assert(members(groups[i])[a] == members(groups[j])[b]);
            }
        }
    }
}

/// Adding an occurrence keeps a collection well-formed.
pub proof fn lemma_with_occurrence_well_formed(
    groups: Seq<GroupView>,
    fingerprint: Seq<char>,
    path: Seq<char>,
)
    requires
        well_formed(groups),
    ensures
        well_formed(with_occurrence(groups, fingerprint, path)),
{
    let next = with_occurrence(groups, fingerprint, path);
    if holds(groups, path) {
    } else if knows(groups, fingerprint) {
        let k = position_of(groups, fingerprint);
        assert forall|i: int, a: int| 0 <= i < next.len() && 0 <= a < members(next[i]).len()
            && !(i == k && a == members(next[k]).len() - 1) implies 0 <= a < members(
            groups[i],
        ).len() && #[trigger] members(next[i])[a] == members(groups[i])[a] by {}
        assert forall|i: int, a: int, j: int, b: int|
            0 <= i < next.len() && 0 <= a < members(next[i]).len() && 0 <= j < next.len() && 0
                <= b < members(next[j]).len() && #[trigger] members(next[i])[a]
                == #[trigger] members(next[j])[b] implies i == j && a == b by {
            let last = members(next[k]).len() - 1;
            assert(members(next[k])[last] == path);
            if i == k && a == last {
                if !(j == k && b == last) {
                    assert(members(groups[j])[b] == path);
                }
            } else if j == k && b == last {
                assert(members(groups[i])[a] == path);
            } else {
                assert(members(groups[i])[a] == members(groups[j])[b]);
            }
        }
        assert forall|i: int, j: int| 0 <= i < j < next.len() implies (#[trigger] next[i]).fingerprint
            != (#[trigger] next[j]).fingerprint by {
            assert(next[i].fingerprint == groups[i].fingerprint);
            assert(next[j].fingerprint == groups[j].fingerprint);
        }
    } else {
        let n = groups.len() as int;
        assert(members(next[n]) =~= seq![path]);
        assert forall|i: int, a: int, j: int, b: int|
            0 <= i < next.len() && 0 <= a < members(next[i]).len() && 0 <= j < next.len() && 0
                <= b < members(next[j]).len() && #[trigger] members(next[i])[a]
                == #[trigger] members(next[j])[b] implies i == j && a == b by {
            if i == n {
                if j != n {
                    assert(members(groups[j])[b] == path);
                }
            } else if j == n {
                assert(members(groups[i])[a] == path);
            } else {
                assert(members(groups[i])[a] == members(groups[j])[b]);
            }
        }
        assert forall|i: int, j: int| 0 <= i < j < next.len() implies (#[trigger] next[i]).fingerprint
            != (#[trigger] next[j]).fingerprint by {
            if j == n {
                assert(groups[i].fingerprint != fingerprint);
            } else {
                assert(next[i].fingerprint == groups[i].fingerprint);
                assert(next[j].fingerprint == groups[j].fingerprint);
            }
        }
    }
}

/// The scan moves a path out of `Unseen` once and never again: a first
/// occurrence of a fingerprint makes its path canonical, a later one makes it
/// a duplicate, and every path that was seen before stays what it was.
pub proof fn lemma_occurrence_status(
    groups: Seq<GroupView>,
    fingerprint: Seq<char>,
    path: Seq<char>,
    other: Seq<char>,
)
    requires
        well_formed(groups),
    ensures
        status_of(groups, other) != Status::Unseen ==> status_of(
            with_occurrence(groups, fingerprint, path),
            other,
        ) == status_of(groups, other),
        status_of(groups, path) == Status::Unseen ==> status_of(
            with_occurrence(groups, fingerprint, path),
            path,
        ) == if knows(groups, fingerprint) {
            Status::Duplicate
        } else {
            Status::Canonical
        },
        other != path ==> status_of(with_occurrence(groups, fingerprint, path), other)
            == status_of(groups, other),
{
    let next = with_occurrence(groups, fingerprint, path);
    if exists|i: int| 0 <= i < groups.len() && (#[trigger] groups[i]).canonical == path {
        let i = choose|i: int| 0 <= i < groups.len() && (#[trigger] groups[i]).canonical == path;
        assert(members(groups[i])[0] == path);
    }
    if !holds(groups, path) {
        assert forall|i: int| 0 <= i < groups.len() implies (#[trigger] groups[i]).canonical
            != path by {
            assert(members(groups[i])[0] == groups[i].canonical);
        }
        if knows(groups, fingerprint) {
            let k = position_of(groups, fingerprint);
            assert(members(next[k])[members(next[k]).len() - 1] == path);
            assert forall|i: int| 0 <= i < next.len() implies (#[trigger] next[i]).canonical
                == groups[i].canonical by {}
            if exists|i: int| 0 <= i < groups.len() && (#[trigger] groups[i]).canonical == other {
                let i = choose|i: int|
                    0 <= i < groups.len() && (#[trigger] groups[i]).canonical == other;
                assert(next[i].canonical == other);
            }
            if exists|i: int| 0 <= i < next.len() && (#[trigger] next[i]).canonical == other {
                let i = choose|i: int|
                    0 <= i < next.len() && (#[trigger] next[i]).canonical == other;
                assert(groups[i].canonical == other);
            }
            if holds(groups, other) {
                let (i, a) = choose|i: int, a: int|
                    0 <= i < groups.len() && 0 <= a < members(groups[i]).len()
                        && #[trigger] members(groups[i])[a] == other;
                assert(members(next[i])[a] == other);
            }
            if holds(next, other) && other != path {
                let (i, a) = choose|i: int, a: int|
                    0 <= i < next.len() && 0 <= a < members(next[i]).len()
                        && #[trigger] members(next[i])[a] == other;
                assert(members(groups[i])[a] == other);
            }
        } else {
            let n = groups.len() as int;
            assert(members(next[n]) =~= seq![path]);
            assert(next[n].canonical == path);
            if exists|i: int| 0 <= i < groups.len() && (#[trigger] groups[i]).canonical == other {
                let i = choose|i: int|
                    0 <= i < groups.len() && (#[trigger] groups[i]).canonical == other;
                assert(next[i].canonical == other);
            }
            if exists|i: int| 0 <= i < next.len() && (#[trigger] next[i]).canonical == other {
                let i = choose|i: int|
                    0 <= i < next.len() && (#[trigger] next[i]).canonical == other;
                if i < n {
                    assert(groups[i].canonical == other);
                }
            }
            if holds(groups, other) {
                let (i, a) = choose|i: int, a: int|
                    0 <= i < groups.len() && 0 <= a < members(groups[i]).len()
                        && #[trigger] members(groups[i])[a] == other;
                assert(members(next[i])[a] == other);
            }
            if holds(next, other) && other != path {
                let (i, a) = choose|i: int, a: int|
                    0 <= i < next.len() && 0 <= a < members(next[i]).len()
                        && #[trigger] members(next[i])[a] == other;
                assert(members(groups[i])[a] == other);
            }
        }
    }
}

/// Adding an occurrence of a path that passes the classifier's rules keeps
/// every member admissible.
pub proof fn lemma_with_occurrence_admissible(
    groups: Seq<GroupView>,
    fingerprint: Seq<char>,
    path: Seq<char>,
    own_exe: Seq<char>,
)
    requires
        admissible(groups, own_exe),
        exclusion_of(path, EntryKind::File, own_exe) is None,
    ensures
        admissible(with_occurrence(groups, fingerprint, path), own_exe),
{
    let next = with_occurrence(groups, fingerprint, path);
    assert forall|i: int, a: int|
        0 <= i < next.len() && 0 <= a < members(next[i]).len() implies exclusion_of(
        #[trigger] members(next[i])[a],
        EntryKind::File,
        own_exe,
    ) is None by {
        if holds(groups, path) {
        } else if knows(groups, fingerprint) {
            let k = position_of(groups, fingerprint);
            if i == k && a == members(next[k]).len() - 1 {
                assert(members(next[i])[a] == path);
            } else {
                assert(members(next[i])[a] == members(groups[i])[a]);
            }
        } else {
            if i == groups.len() {
                assert(members(next[i]) =~= seq![path]);
            } else {
                assert(members(next[i])[a] == members(groups[i])[a]);
            }
        }
    }
}

/// What is emitted: exactly the groups with at least two members, each of
/// them a group of the collection, and together well-formed again.
pub proof fn lemma_emitted(groups: Seq<GroupView>, own_exe: Seq<char>)
    requires
        well_formed(groups),
        admissible(groups, own_exe),
    ensures
        all_plural(emitted(groups)),
        well_formed(emitted(groups)),
        admissible(emitted(groups), own_exe),
        forall|i: int|
            0 <= i < emitted(groups).len() ==> groups.contains(#[trigger] emitted(groups)[i]),
        forall|m: int|
            0 <= m < groups.len() && plural(groups[m]) ==> emitted(groups).contains(
                #[trigger] groups[m],
            ),
    decreases groups.len(),
{
    if groups.len() > 0 {
        let front = groups.drop_last();
        let shown = emitted(front);
        let next = emitted(groups);
        let n = groups.len() - 1;
        assert forall|i: int, j: int| 0 <= i < j < front.len() implies (#[trigger] front[i]).fingerprint
            != (#[trigger] front[j]).fingerprint by {
            assert(groups[i].fingerprint != groups[j].fingerprint);
        }
        assert forall|i: int, a: int, j: int, b: int|
            0 <= i < front.len() && 0 <= a < members(front[i]).len() && 0 <= j < front.len() && 0
                <= b < members(front[j]).len() && #[trigger] members(front[i])[a]
                == #[trigger] members(front[j])[b] implies i == j && a == b by {
            assert(members(groups[i])[a] == members(groups[j])[b]);
        }
        assert forall|i: int, a: int|
            0 <= i < front.len() && 0 <= a < members(front[i]).len() implies exclusion_of(
            #[trigger] members(front[i])[a],
            EntryKind::File,
            own_exe,
        ) is None by {
            assert(members(front[i])[a] == members(groups[i])[a]);
        }
        lemma_emitted(front, own_exe);
        assert forall|i: int| 0 <= i < next.len() implies groups.contains(#[trigger] next[i]) by {
            if i < shown.len() {
                let m = choose|m: int| 0 <= m < front.len() && front[m] == shown[i];
                assert(groups[m] == next[i]);
            } else {
                assert(groups[n] == next[i]);
            }
        }
        assert forall|m: int| 0 <= m < groups.len() && plural(groups[m]) implies next.contains(
            #[trigger] groups[m],
        ) by {
            if m < n {
                assert(shown.contains(front[m]));
                let i = choose|i: int| 0 <= i < shown.len() && shown[i] == front[m];
                assert(next[i] == groups[m]);
            } else {
                assert(next[next.len() - 1] == groups[m]);
            }
        }
        if plural(groups.last()) {
            assert forall|i: int, j: int| 0 <= i < j < next.len() implies (#[trigger] next[i]).fingerprint
                != (#[trigger] next[j]).fingerprint by {
                if j == shown.len() {
                    let m = choose|m: int| 0 <= m < front.len() && front[m] == shown[i];
                    assert(groups[m].fingerprint != groups[n].fingerprint);
                } else {
                    assert(shown[i].fingerprint != shown[j].fingerprint);
                }
            }
            assert forall|i: int, a: int, j: int, b: int|
                0 <= i < next.len() && 0 <= a < members(next[i]).len() && 0 <= j < next.len() && 0
                    <= b < members(next[j]).len() && #[trigger] members(next[i])[a]
                    == #[trigger] members(next[j])[b] implies i == j && a == b by {
                if i == shown.len() && j == shown.len() {
                    assert(members(groups[n])[a] == members(groups[n])[b]);
                } else if i == shown.len() {
                    let m = choose|m: int| 0 <= m < front.len() && front[m] == shown[j];
                    assert(members(groups[n])[a] == members(groups[m])[b]);
                } else if j == shown.len() {
                    let m = choose|m: int| 0 <= m < front.len() && front[m] == shown[i];
                    assert(members(groups[m])[a] == members(groups[n])[b]);
                } else {
                    assert(members(shown[i])[a] == members(shown[j])[b]);
                }
            }
            assert forall|i: int, a: int|
                0 <= i < next.len() && 0 <= a < members(next[i]).len() implies exclusion_of(
                #[trigger] members(next[i])[a],
                EntryKind::File,
                own_exe,
            ) is None by {
                if i == shown.len() {
                    assert(members(next[i])[a] == members(groups[n])[a]);
                } else {
                    assert(members(next[i])[a] == members(shown[i])[a]);
                }
            }
        }
    }
}

/// The groups that a scan found, for consumers to read: every group has at
/// least two members.
pub struct GroupModel {
    own_exe: String,
    groups: Vec<DuplicateGroup>,
}

impl View for GroupModel {
    type V = Seq<GroupView>;

    closed spec fn view(&self) -> Seq<GroupView> {
        views(self.groups@)
    }
}

impl GroupModel {
    /// The path of the running program's own executable, which is no member.
    pub closed spec fn own_exe(&self) -> Seq<char> {
        self.own_exe@
    }

    /// The invariant of the model: the groups are well-formed, every member
    /// passed the classifier's rules on paths, and every group has at least
    /// two members.
    pub open spec fn wf(&self) -> bool {
        well_formed(self@) && admissible(self@, self.own_exe()) && all_plural(self@)
    }

    pub(crate) fn assemble(own_exe: String, groups: Vec<DuplicateGroup>) -> (model: Self)
        ensures
            model@ == views(groups@),
            model.own_exe() == own_exe@,
    {
        GroupModel { own_exe, groups }
    }

    pub(crate) fn exe(&self) -> (own_exe: &String)
        ensures
            own_exe@ == self.own_exe(),
    {
        &self.own_exe
    }

    /// The groups and their duplicates are held in memory, so their counts
    /// fit a machine word.
    pub proof fn lemma_sizes(&self)
        ensures
            self@.len() <= usize::MAX,
            forall|g: int| 0 <= g < self@.len() ==> (#[trigger] self@[g]).duplicates.len() <= usize::MAX,
    {
        assert(self@.len() == self.groups.len());
        assert forall|g: int| 0 <= g < self@.len() implies (#[trigger] self@[g]).duplicates.len()
            <= usize::MAX by {
            assert(self@[g].duplicates.len() == self.groups[g].duplicates.len());
        }
    }

    /// The number of duplicates of the group at `position`.
    pub(crate) fn duplicates_in(&self, position: usize) -> (count: usize)
        requires
            position < self@.len(),
        ensures
            count == self@[position as int].duplicates.len(),
    {
        self.groups[position].duplicates.len()
    }

    /// The number of groups.
    pub fn group_count(&self) -> (count: usize)
        ensures
            count == self@.len(),
    {
        self.groups.len()
    }

    /// The number of duplicates over all groups: what remediation of every
    /// group would remove.
    pub fn duplicate_count(&self) -> (count: u128)
        ensures
            count == total_duplicates(self@),
    {
        let mut count: u128 = 0;
        let mut at: usize = 0;
        while at < self.groups.len()
            invariant
                at <= self.groups.len(),
                count == total_duplicates(self@.take(at as int)),
                count <= at * usize::MAX,
            decreases self.groups.len() - at,
        {
            let more = self.groups[at].duplicates.len();
            proof {
                assert(self@.take(at + 1).drop_last() =~= self@.take(at as int));
                assert(self@.take(at + 1).last() == self.groups[at as int]@);
                assert(self.groups[at as int]@.duplicates.len() == more);
                assert((at + 1) * usize::MAX <= usize::MAX * usize::MAX) by (nonlinear_arith)
                    requires
                        at + 1 <= usize::MAX,
                ;
                assert(usize::MAX * usize::MAX < u128::MAX) by (nonlinear_arith)
                    requires
                        usize::MAX <= 0xffff_ffff_ffff_ffff,
                ;
                assert(at * usize::MAX + usize::MAX == (at + 1) * usize::MAX) by (nonlinear_arith);
            }
            count = count + more as u128;
            at += 1;
        }
        assert(self@.take(at as int) =~= self@);
        count
    }

    /// The group at `position`, or `None` where there are fewer groups.
    ///
    /// A group that is handed out has at least two members, and its canonical
    /// path is not among its duplicates.
    pub fn group(&self, position: usize) -> (group: Option<&DuplicateGroup>)
        requires
            self.wf(),
        ensures
            group is Some <==> position < self@.len(),
            group matches Some(g) ==> {
                &&& g@ == self@[position as int]
                &&& g@.duplicates.len() >= 1
                &&& !g@.duplicates.contains(g@.canonical)
            },
    {
        if position < self.groups.len() {
            proof {
                lemma_paths_belong_to_one_group(self@, position as int, position as int);
            }
            Some(&self.groups[position])
        } else {
            None
        }
    }
}

} // verus!
