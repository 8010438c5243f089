//! A whole scan, seen at once: the sequence of files that were met, and the
//! groups that result from it.
//!
//! The laws of grouping are stated here. They speak of the groups as a
//! function of the sequence of sightings, which is how
//! [`DuplicateIndex::record`] builds them, one sighting at a time.

use vstd::prelude::*;
use crate::fingerprint::fingerprint_of;
use crate::groups::{
    admissible, emitted, holds, knows, lemma_emitted, lemma_paths_belong_to_one_group,
    lemma_with_occurrence_admissible, lemma_with_occurrence_well_formed, members, plural,
    position_of, well_formed, GroupView,
};
use crate::ignore::{exclusion_of, ignored, Entry, EntryKind, Exclusion};
use crate::index::{recorded, DuplicateIndex};

verus! {

/// A file that the scan met: its entry and the fingerprint of its content.
#[derive(Debug)]
pub struct Sighting {
    /// The entry as it was observed.
    pub entry: Entry,
    /// The fingerprint of the content that was read.
    pub fingerprint: String,
}

/// The mathematical value of a [`Sighting`].
pub struct SightingView {
    pub path: Seq<char>,
    pub kind: EntryKind,
    pub fingerprint: Seq<char>,
}

impl View for Sighting {
    type V = SightingView;

    open spec fn view(&self) -> SightingView {
        SightingView {
            path: self.entry.path@,
            kind: self.entry.kind,
            fingerprint: self.fingerprint@,
        }
    }
}

/// The views of a vector of sightings.
pub open spec fn sightings(log: Seq<Sighting>) -> Seq<SightingView> {
    log.map_values(|s: Sighting| s@)
}

/// The groups that result from a sequence of sightings.
pub open spec fn scanned(log: Seq<SightingView>, own_exe: Seq<char>) -> Seq<GroupView>
    decreases log.len(),
{
    if log.len() == 0 {
        Seq::empty()
    } else {
        recorded(
            scanned(log.drop_last(), own_exe),
            log.last().path,
            log.last().kind,
            own_exe,
            log.last().fingerprint,
        )
    }
}

/// Whether the classifier lets a sighting take part.
pub open spec fn accepted(sighting: SightingView, own_exe: Seq<char>) -> bool {
    !ignored(sighting.path, sighting.kind, own_exe)
}

/// The paths of the accepted sightings that carry `fingerprint`, in the
/// order of the scan.
pub open spec fn paths_with(
    log: Seq<SightingView>,
    own_exe: Seq<char>,
    fingerprint: Seq<char>,
) -> Seq<Seq<char>>
    decreases log.len(),
{
    if log.len() == 0 {
        Seq::empty()
    } else if accepted(log.last(), own_exe) && log.last().fingerprint == fingerprint {
        paths_with(log.drop_last(), own_exe, fingerprint).push(log.last().path)
    } else {
        paths_with(log.drop_last(), own_exe, fingerprint)
    }
}

/// No path is accepted twice: what a walk over a tree delivers, since it
/// meets every entry once.
pub open spec fn met_once(log: Seq<SightingView>, own_exe: Seq<char>) -> bool {
    forall|i: int, j: int|
        0 <= i < j < log.len() && accepted(#[trigger] log[i], own_exe) && accepted(
            #[trigger] log[j],
            own_exe,
        ) ==> log[i].path != log[j].path
}

/// Whether two paths are members of one group.
pub open spec fn together(groups: Seq<GroupView>, first: Seq<char>, second: Seq<char>) -> bool {
    exists|k: int|
        0 <= k < groups.len() && members(#[trigger] groups[k]).contains(first) && members(
            groups[k],
        ).contains(second)
}

/// The groups of a scan are well-formed, whatever was met, and every member
/// passed the classifier.
pub proof fn lemma_scanned_well_formed(log: Seq<SightingView>, own_exe: Seq<char>)
    ensures
        well_formed(scanned(log, own_exe)),
        admissible(scanned(log, own_exe), own_exe),
    decreases log.len(),
{
    if log.len() > 0 {
        let before = scanned(log.drop_last(), own_exe);
        lemma_scanned_well_formed(log.drop_last(), own_exe);
        if accepted(log.last(), own_exe) {
            lemma_with_occurrence_well_formed(before, log.last().fingerprint, log.last().path);
            lemma_with_occurrence_admissible(
                before,
                log.last().fingerprint,
                log.last().path,
                own_exe,
            );
        }
    }
}

/// A path is among the paths with a fingerprint exactly if an accepted
/// sighting carries both.
pub proof fn lemma_paths_with_contains(
    log: Seq<SightingView>,
    own_exe: Seq<char>,
    fingerprint: Seq<char>,
    path: Seq<char>,
)
    ensures
        paths_with(log, own_exe, fingerprint).contains(path) <==> exists|i: int|
            0 <= i < log.len() && accepted(#[trigger] log[i], own_exe) && log[i].fingerprint
                == fingerprint && log[i].path == path,
    decreases log.len(),
{
    let found = paths_with(log, own_exe, fingerprint);
    if log.len() > 0 {
        let front = log.drop_last();
        let before = paths_with(front, own_exe, fingerprint);
        lemma_paths_with_contains(front, own_exe, fingerprint, path);
        if found.contains(path) {
            let a = choose|a: int| 0 <= a < found.len() && found[a] == path;
            if a < before.len() {
                assert(before[a] == path);
                assert(before.contains(path));
                let i = choose|i: int|
                    0 <= i < front.len() && accepted(#[trigger] front[i], own_exe)
                        && front[i].fingerprint == fingerprint && front[i].path == path;
                assert(log[i] == front[i]);
            } else {
                assert(log[log.len() - 1].path == path);
            }
        }
        if exists|i: int|
            0 <= i < log.len() && accepted(#[trigger] log[i], own_exe) && log[i].fingerprint
                == fingerprint && log[i].path == path {
            let i = choose|i: int|
                0 <= i < log.len() && accepted(#[trigger] log[i], own_exe) && log[i].fingerprint
                    == fingerprint && log[i].path == path;
            if i < front.len() {
                assert(front[i] == log[i]);
                assert(before.contains(path));
                let a = choose|a: int| 0 <= a < before.len() && before[a] == path;
                assert(found[a] == path);
            } else {
                assert(found[found.len() - 1] == path);
            }
        }
    }
}

/// What a scan collects. Where no path is accepted twice, the members of
/// every group are exactly the accepted paths with the group's fingerprint,
/// in the order of the scan: the canonical path is the one met first. And
/// every accepted fingerprint has its group.
pub proof fn lemma_groups_collect_fingerprints(log: Seq<SightingView>, own_exe: Seq<char>)
    requires
        met_once(log, own_exe),
    ensures
        forall|k: int|
            0 <= k < scanned(log, own_exe).len() ==> members(#[trigger] scanned(log, own_exe)[k])
                == paths_with(log, own_exe, scanned(log, own_exe)[k].fingerprint),
        forall|i: int|
            0 <= i < log.len() && accepted(#[trigger] log[i], own_exe) ==> knows(
                scanned(log, own_exe),
                log[i].fingerprint,
            ),
    decreases log.len(),
{
    if log.len() > 0 {
        let front = log.drop_last();
        let last = log.last();
        let before = scanned(front, own_exe);
        let after = scanned(log, own_exe);
        assert forall|i: int, j: int|
            0 <= i < j < front.len() && accepted(#[trigger] front[i], own_exe) && accepted(
                #[trigger] front[j],
                own_exe,
            ) implies front[i].path != front[j].path by {
            assert(log[i] == front[i] && log[j] == front[j]);
        }
        lemma_groups_collect_fingerprints(front, own_exe);
        lemma_scanned_well_formed(front, own_exe);
        if accepted(last, own_exe) {
            if holds(before, last.path) {
                let (k, a) = choose|k: int, a: int|
                    0 <= k < before.len() && 0 <= a < members(before[k]).len()
                        && #[trigger] members(before[k])[a] == last.path;
                assert(paths_with(front, own_exe, before[k].fingerprint).contains(last.path));
                lemma_paths_with_contains(front, own_exe, before[k].fingerprint, last.path);
                let i = choose|i: int|
                    0 <= i < front.len() && accepted(#[trigger] front[i], own_exe)
                        && front[i].fingerprint == before[k].fingerprint && front[i].path
                        == last.path;
                assert(log[i] == front[i]);
                assert(log[log.len() - 1] == last);
                assert(false);
            }
            if knows(before, last.fingerprint) {
                let at = position_of(before, last.fingerprint);
                assert forall|k: int| 0 <= k < after.len() implies members(#[trigger] after[k])
                    == paths_with(log, own_exe, after[k].fingerprint) by {
                    if k == at {
                        assert(members(after[k]) =~= members(before[k]).push(last.path));
                    } else {
                        assert(after[k] == before[k]);
                        assert(before[k].fingerprint != before[at].fingerprint);
                    }
                }
                assert forall|i: int|
                    0 <= i < log.len() && accepted(#[trigger] log[i], own_exe) implies knows(
                    after,
                    log[i].fingerprint,
                ) by {
                    if i < front.len() {
                        assert(front[i] == log[i]);
                        let k = position_of(before, log[i].fingerprint);
                        assert(after[k].fingerprint == log[i].fingerprint);
                    } else {
                        assert(after[at].fingerprint == last.fingerprint);
                    }
                }
            } else {
                let n = before.len() as int;
                let none = paths_with(front, own_exe, last.fingerprint);
                if none.len() > 0 {
                    assert(none.contains(none[0]));
                    lemma_paths_with_contains(front, own_exe, last.fingerprint, none[0]);
                    let i = choose|i: int|
                        0 <= i < front.len() && accepted(#[trigger] front[i], own_exe)
                            && front[i].fingerprint == last.fingerprint && front[i].path
                            == none[0];
                    assert(knows(before, front[i].fingerprint));
                    assert(false);
                }
                assert forall|k: int| 0 <= k < after.len() implies members(#[trigger] after[k])
                    == paths_with(log, own_exe, after[k].fingerprint) by {
                    if k == n {
                        assert(members(after[k]) =~= seq![last.path]);
                        assert(paths_with(log, own_exe, last.fingerprint) =~= seq![last.path]);
                    } else {
                        assert(after[k] == before[k]);
                    }
                }
                assert forall|i: int|
                    0 <= i < log.len() && accepted(#[trigger] log[i], own_exe) implies knows(
                    after,
                    log[i].fingerprint,
                ) by {
                    if i < front.len() {
                        assert(front[i] == log[i]);
                        let k = position_of(before, log[i].fingerprint);
                        assert(after[k].fingerprint == log[i].fingerprint);
                    } else {
                        assert(after[n].fingerprint == last.fingerprint);
                    }
                }
            }
        } else {
            assert forall|i: int|
                0 <= i < log.len() && accepted(#[trigger] log[i], own_exe) implies knows(
                after,
                log[i].fingerprint,
            ) by {
                assert(front[i] == log[i]);
            }
        }
    }
}

/// Two accepted files are members of one group exactly if their fingerprints
/// are equal.
pub proof fn lemma_grouped_iff_same_fingerprint(
    log: Seq<SightingView>,
    own_exe: Seq<char>,
    i: int,
    j: int,
)
    requires
        met_once(log, own_exe),
        0 <= i < log.len(),
        0 <= j < log.len(),
        accepted(log[i], own_exe),
        accepted(log[j], own_exe),
    ensures
        together(scanned(log, own_exe), log[i].path, log[j].path) <==> log[i].fingerprint
            == log[j].fingerprint,
{
    let groups = scanned(log, own_exe);
    lemma_groups_collect_fingerprints(log, own_exe);
    lemma_scanned_well_formed(log, own_exe);
    if log[i].fingerprint == log[j].fingerprint {
        let k = position_of(groups, log[i].fingerprint);
        lemma_paths_with_contains(log, own_exe, groups[k].fingerprint, log[i].path);
        lemma_paths_with_contains(log, own_exe, groups[k].fingerprint, log[j].path);
        assert(members(groups[k]).contains(log[i].path));
        assert(members(groups[k]).contains(log[j].path));
    }
    if together(groups, log[i].path, log[j].path) {
        let k = choose|k: int|
            0 <= k < groups.len() && members(#[trigger] groups[k]).contains(log[i].path)
                && members(groups[k]).contains(log[j].path);
        lemma_sighting_of_member(log, own_exe, k, i);
        lemma_sighting_of_member(log, own_exe, k, j);
    }
}

/// A group that holds the path of an accepted sighting carries the
/// fingerprint of that sighting.
proof fn lemma_sighting_of_member(log: Seq<SightingView>, own_exe: Seq<char>, k: int, i: int)
    requires
        met_once(log, own_exe),
        0 <= i < log.len(),
        accepted(log[i], own_exe),
        0 <= k < scanned(log, own_exe).len(),
        members(scanned(log, own_exe)[k]).contains(log[i].path),
    ensures
        scanned(log, own_exe)[k].fingerprint == log[i].fingerprint,
{
    let groups = scanned(log, own_exe);
    lemma_groups_collect_fingerprints(log, own_exe);
    lemma_paths_with_contains(log, own_exe, groups[k].fingerprint, log[i].path);
    let m = choose|m: int|
        0 <= m < log.len() && accepted(#[trigger] log[m], own_exe) && log[m].fingerprint
            == groups[k].fingerprint && log[m].path == log[i].path;
    if m < i {
        assert(log[m].path != log[i].path);
    } else if i < m {
        assert(log[i].path != log[m].path);
    }
}

/// Two accepted files are members of one group exactly if their content is
/// the same, byte for byte, as long as no two different contents among
/// them collide in one fingerprint.
pub proof fn lemma_grouped_iff_same_content(
    log: Seq<SightingView>,
    own_exe: Seq<char>,
    contents: Seq<Seq<u8>>,
    i: int,
    j: int,
)
    requires
        met_once(log, own_exe),
        contents.len() == log.len(),
        forall|m: int| 0 <= m < log.len() ==> (#[trigger] log[m]).fingerprint == fingerprint_of(contents[m]),
        0 <= i < log.len(),
        0 <= j < log.len(),
        accepted(log[i], own_exe),
        accepted(log[j], own_exe),
        fingerprint_of(contents[i]) == fingerprint_of(contents[j]) ==> contents[i] == contents[j],
    ensures
        together(scanned(log, own_exe), log[i].path, log[j].path) <==> contents[i] == contents[j],
{
    lemma_grouped_iff_same_fingerprint(log, own_exe, i, j);
}

/// A fingerprint forms a visible group exactly if at least two accepted
/// paths share it.
pub proof fn lemma_group_emitted_iff_shared(
    log: Seq<SightingView>,
    own_exe: Seq<char>,
    fingerprint: Seq<char>,
)
    requires
        met_once(log, own_exe),
    ensures
        knows(emitted(scanned(log, own_exe)), fingerprint) <==> paths_with(
            log,
            own_exe,
            fingerprint,
        ).len() >= 2,
{
    let groups = scanned(log, own_exe);
    let shown = emitted(groups);
    lemma_groups_collect_fingerprints(log, own_exe);
    lemma_scanned_well_formed(log, own_exe);
    lemma_emitted(groups, own_exe);
    let paths = paths_with(log, own_exe, fingerprint);
    if knows(shown, fingerprint) {
        let s = position_of(shown, fingerprint);
        assert(groups.contains(shown[s]));
        let k = choose|k: int| 0 <= k < groups.len() && groups[k] == shown[s];
        assert(members(groups[k]).len() >= 2);
    }
    if paths.len() >= 2 {
        assert(paths.contains(paths[0]));
        lemma_paths_with_contains(log, own_exe, fingerprint, paths[0]);
        let i = choose|i: int|
            0 <= i < log.len() && accepted(#[trigger] log[i], own_exe) && log[i].fingerprint
                == fingerprint && log[i].path == paths[0];
        assert(knows(groups, log[i].fingerprint));
        let k = position_of(groups, fingerprint);
        assert(members(groups[k]) == paths);
        assert(plural(groups[k]));
        assert(shown.contains(groups[k]));
        let s = choose|s: int| 0 <= s < shown.len() && shown[s] == groups[k];
        assert(shown[s].fingerprint == fingerprint);
    }
}

/// Every group that a scan shows has at least two members, and its canonical
/// path is not among its duplicates.
pub proof fn lemma_shown_groups_are_plural(log: Seq<SightingView>, own_exe: Seq<char>, k: int)
    requires
        0 <= k < emitted(scanned(log, own_exe)).len(),
    ensures
        emitted(scanned(log, own_exe))[k].duplicates.len() >= 1,
        !emitted(scanned(log, own_exe))[k].duplicates.contains(
            emitted(scanned(log, own_exe))[k].canonical,
        ),
{
    lemma_scanned_well_formed(log, own_exe);
    lemma_emitted(scanned(log, own_exe), own_exe);
    lemma_paths_belong_to_one_group(emitted(scanned(log, own_exe)), k, k);
}

/// The running program's own executable is never a member of a group,
/// whatever its content.
pub proof fn lemma_own_executable_never_grouped(log: Seq<SightingView>, own_exe: Seq<char>)
    ensures
        !holds(scanned(log, own_exe), own_exe),
{
    let groups = scanned(log, own_exe);
    lemma_scanned_well_formed(log, own_exe);
    if holds(groups, own_exe) {
        let (i, a) = choose|i: int, a: int|
            0 <= i < groups.len() && 0 <= a < members(groups[i]).len() && #[trigger] members(
                groups[i],
            )[a] == own_exe;
        assert(exclusion_of(members(groups[i])[a], EntryKind::File, own_exe) is None);
        assert(exclusion_of(own_exe, EntryKind::File, own_exe) == Some(Exclusion::OwnExecutable));
    }
}

/// Scanning the same sightings in the same order again reproduces the same
/// groups: the same canonical paths, the same members, in the same order.
pub proof fn lemma_rescan_reproduces(
    first: Seq<SightingView>,
    second: Seq<SightingView>,
    own_exe: Seq<char>,
)
    requires
        first == second,
    ensures
        scanned(first, own_exe) == scanned(second, own_exe),
        emitted(scanned(first, own_exe)) == emitted(scanned(second, own_exe)),
{
}

impl DuplicateIndex {
    /// Builds the index of a whole scan from its sightings, in their order.
    pub fn build(own_exe: &str, log: &Vec<Sighting>) -> (index: DuplicateIndex)
        ensures
            index.wf(),
            index.own_exe() == own_exe@,
            index@ == scanned(sightings(log@), own_exe@),
    {
        let mut index = DuplicateIndex::new(own_exe);
        let mut at: usize = 0;
        while at < log.len()
            invariant
                at <= log.len(),
                index.wf(),
                index.own_exe() == own_exe@,
                index@ == scanned(sightings(log@).take(at as int), own_exe@),
            decreases log.len() - at,
        {
            let sighting = &log[at];
            proof {
                let seen = sightings(log@).take(at + 1);
                assert(seen.drop_last() =~= sightings(log@).take(at as int));
                assert(seen.last() == sighting@);
            }
            index.record(&sighting.entry, sighting.fingerprint.clone());
            at += 1;
        }
        assert(sightings(log@).take(at as int) =~= sightings(log@));
        index
    }
}

} // verus!
