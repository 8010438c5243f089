//! The duplicate index: groups the paths of a scan by the fingerprint of
//! their content.
//!
//! The caller walks the directory tree and reads the files. For every entry
//! it meets, the index says what to do with it, and for every file that was
//! read, where its path was placed.

use vstd::prelude::*;
use vstd::string::*;
use crate::fingerprint::{fingerprint_of, hash_file};
use crate::groups::{
    admissible, emitted, holds, knows, lemma_emitted, lemma_with_occurrence_admissible,
    lemma_with_occurrence_well_formed, members, position_of, status_of, views, well_formed,
    with_occurrence, DuplicateGroup, GroupModel, GroupView, Status,
};
use crate::ignore::{classify, exclusion_of, ignored, Entry, EntryKind, Exclusion};

verus! {

/// What the scan does with an entry that it meets.
#[derive(Clone, Copy, Debug, PartialEq, Eq, Structural)]
pub enum Visit {
    /// A directory: list it and visit what it holds.
    Descend,
    /// A directory behind a symbolic link: never entered, so that a link that
    /// points back up the tree cannot make the scan run in circles.
    SkipLinkedDirectory,
    /// Left out by the classifier.
    Skip(Exclusion),
    /// A file that takes part: read it and hand its content to
    /// [`DuplicateIndex::process_file`].
    Read,
}

/// Where a file was placed in the index.
#[derive(Clone, Copy, Debug, PartialEq, Eq, Structural)]
pub enum Indexed {
    /// Left out by the classifier; the index is unchanged.
    Skipped(Exclusion),
    /// The path was already a member; the index is unchanged.
    Repeated,
    /// First occurrence of its fingerprint: the path is canonical.
    Canonical,
    /// A later occurrence: the path joined the duplicates of its group.
    Duplicate,
}

/// What the scan does with an entry of the given shape.
pub open spec fn visit_of(
    path: Seq<char>,
    kind: EntryKind,
    symlink: bool,
    own_exe: Seq<char>,
) -> Visit {
    if kind == EntryKind::Directory {
        if symlink {
            Visit::SkipLinkedDirectory
        } else {
            Visit::Descend
        }
    } else {
        match exclusion_of(path, kind, own_exe) {
            Some(reason) => Visit::Skip(reason),
            None => Visit::Read,
        }
    }
}

/// The groups after a file with the given fingerprint was met at an entry.
pub open spec fn recorded(
    groups: Seq<GroupView>,
    path: Seq<char>,
    kind: EntryKind,
    own_exe: Seq<char>,
    fingerprint: Seq<char>,
) -> Seq<GroupView> {
    if ignored(path, kind, own_exe) {
        groups
    } else {
        with_occurrence(groups, fingerprint, path)
    }
}

/// Where a file with the given fingerprint, met at an entry, is placed.
pub open spec fn placement(
    groups: Seq<GroupView>,
    path: Seq<char>,
    kind: EntryKind,
    own_exe: Seq<char>,
    fingerprint: Seq<char>,
) -> Indexed {
    match exclusion_of(path, kind, own_exe) {
        Some(reason) => Indexed::Skipped(reason),
        None => if holds(groups, path) {
            Indexed::Repeated
        } else if knows(groups, fingerprint) {
            Indexed::Duplicate
        } else {
            Indexed::Canonical
        },
    }
}

/// The paths of a scan, grouped by fingerprint.
pub struct DuplicateIndex {
    own_exe: String,
    entries: Vec<DuplicateGroup>,
}

impl View for DuplicateIndex {
    type V = Seq<GroupView>;

    /// One group per fingerprint met so far, in the order of their first
    /// occurrence. A group with no duplicates stands for a file that is
    /// unique so far.
    closed spec fn view(&self) -> Seq<GroupView> {
        views(self.entries@)
    }
}

/// Whether `path` is among `paths`.
fn listed(paths: &Vec<String>, path: &String) -> (found: bool)
    ensures
        found == paths.deep_view().contains(path@),
{
    let mut at: usize = 0;
    while at < paths.len()
        invariant
            at <= paths.len(),
            forall|k: int| 0 <= k < at ==> paths.deep_view()[k] != path@,
        decreases paths.len() - at,
    {
        if paths[at] == *path {
            assert(paths.deep_view()[at as int] == path@);
            return true;
        }
        at += 1;
    }
    false
}

/// A copy of `paths`.
pub(crate) fn copy_paths(paths: &Vec<String>) -> (copy: Vec<String>)
    ensures
        copy.deep_view() == paths.deep_view(),
{
    let mut copy: Vec<String> = Vec::new();
    let mut at: usize = 0;
    while at < paths.len()
        invariant
            at <= paths.len(),
            copy.len() == at,
            forall|k: int| 0 <= k < at ==> copy[k]@ == paths[k]@,
        decreases paths.len() - at,
    {
        copy.push(paths[at].clone());
        at += 1;
    }
    assert(copy.deep_view() =~= paths.deep_view());
    copy
}

impl DuplicateIndex {
    /// The path of the running program's own executable, which never becomes
    /// a member.
    pub closed spec fn own_exe(&self) -> Seq<char> {
        self.own_exe@
    }

    /// The invariant of the index: no fingerprint and no path occurs twice,
    /// and every member passed the classifier's rules on paths.
    pub open spec fn wf(&self) -> bool {
        well_formed(self@) && admissible(self@, self.own_exe())
    }

    /// An empty index for a program that runs from `own_exe`.
    pub fn new(own_exe: &str) -> (index: Self)
        ensures
            index.wf(),
            index@ == Seq::<GroupView>::empty(),
            index.own_exe() == own_exe@,
    {
        let index = DuplicateIndex { own_exe: String::from_str(own_exe), entries: Vec::new() };
        assert(index@ =~= Seq::<GroupView>::empty());
        index
    }

    /// The number of distinct fingerprints met so far.
    pub fn len(&self) -> (count: usize)
        ensures
            count == self@.len(),
    {
        self.entries.len()
    }

    /// What the scan does with `entry`.
    pub fn visit(&self, entry: &Entry) -> (visit: Visit)
        ensures
            visit == visit_of(entry.path@, entry.kind, entry.symlink, self.own_exe()),
    {
        match entry.kind {
            EntryKind::Directory => if entry.symlink {
                Visit::SkipLinkedDirectory
            } else {
                Visit::Descend
            },
            _ => match classify(entry.path.as_str(), entry.kind, self.own_exe.as_str()) {
                Some(reason) => Visit::Skip(reason),
                None => Visit::Read,
            },
        }
    }

    /// Whether `path` is a member of some group.
    pub fn contains(&self, path: &String) -> (found: bool)
        ensures
            found == holds(self@, path@),
    {
        let mut at: usize = 0;
        while at < self.entries.len()
            invariant
                at <= self.entries.len(),
                forall|i: int, a: int|
                    0 <= i < at && 0 <= a < members(self@[i]).len() ==> #[trigger] members(
                        self@[i],
                    )[a] != path@,
            decreases self.entries.len() - at,
        {
            let group = &self.entries[at];
            assert(group@ == self@[at as int]);
            if group.canonical == *path {
                assert(members(self@[at as int])[0] == path@);
                return true;
            }
            if listed(&group.duplicates, path) {
                let ghost d = choose|d: int|
                    0 <= d < group@.duplicates.len() && group@.duplicates[d] == path@;
                assert(members(self@[at as int])[d + 1] == path@);
                return true;
            }
            assert forall|a: int| 0 <= a < members(self@[at as int]).len() implies members(
                self@[at as int],
            )[a] != path@ by {
                if a > 0 {
                    assert(group@.duplicates[a - 1] == members(self@[at as int])[a]);
                    assert(group@.duplicates.contains(group@.duplicates[a - 1]));
                }
            }
            at += 1;
        }
        false
    }

    /// Where `path` stands after what was scanned so far: canonical,
    /// duplicate, or not seen.
    pub fn status(&self, path: &String) -> (status: Status)
        ensures
            status == status_of(self@, path@),
    {
        let mut at: usize = 0;
        while at < self.entries.len()
            invariant
                at <= self.entries.len(),
                forall|i: int| 0 <= i < at ==> (#[trigger] self@[i]).canonical != path@,
            decreases self.entries.len() - at,
        {
            if self.entries[at].canonical == *path {
                assert(self@[at as int].canonical == path@);
                return Status::Canonical;
            }
            at += 1;
        }
        if self.contains(path) {
            Status::Duplicate
        } else {
            Status::Unseen
        }
    }

    /// The position of the group that carries `fingerprint`, if there is one.
    pub fn find(&self, fingerprint: &String) -> (position: Option<usize>)
        ensures
            position is Some <==> knows(self@, fingerprint@),
            position matches Some(k) ==> k < self@.len() && self@[k as int].fingerprint
                == fingerprint@,
    {
        let mut at: usize = 0;
        while at < self.entries.len()
            invariant
                at <= self.entries.len(),
                forall|k: int| 0 <= k < at ==> (#[trigger] self@[k]).fingerprint != fingerprint@,
            decreases self.entries.len() - at,
        {
            if self.entries[at].fingerprint == *fingerprint {
                assert(self@[at as int].fingerprint == fingerprint@);
                return Some(at);
            }
            at += 1;
        }
        None
    }

    /// Places a file that was met at `entry` and whose content has the given
    /// fingerprint.
    ///
    /// An entry that the classifier leaves out changes nothing, and neither
    /// does a path that is already a member. Otherwise the first file with a
    /// fingerprint becomes the canonical path of a new group, and every later
    /// one joins that group's duplicates, in the order of arrival.
    pub fn record(&mut self, entry: &Entry, fingerprint: String) -> (outcome: Indexed)
        requires
            old(self).wf(),
        ensures
            final(self).wf(),
            final(self).own_exe() == old(self).own_exe(),
            final(self)@ == recorded(
                old(self)@,
                entry.path@,
                entry.kind,
                old(self).own_exe(),
                fingerprint@,
            ),
            outcome == placement(
                old(self)@,
                entry.path@,
                entry.kind,
                old(self).own_exe(),
                fingerprint@,
            ),
    {
        if let Some(reason) = classify(entry.path.as_str(), entry.kind, self.own_exe.as_str()) {
            return Indexed::Skipped(reason);
        }
        if self.contains(&entry.path) {
            return Indexed::Repeated;
        }
        proof {
            lemma_with_occurrence_well_formed(self@, fingerprint@, entry.path@);
            lemma_with_occurrence_admissible(
                self@,
                fingerprint@,
                entry.path@,
                self.own_exe(),
            );
        }
        let path = entry.path.clone();
        match self.find(&fingerprint) {
            Some(k) => {
                assert(position_of(self@, fingerprint@) == k);
                self.entries[k].duplicates.push(path);
                assert(self.entries[k as int].duplicates.deep_view() =~= old(
                    self,
                ).entries[k as int].duplicates.deep_view().push(path@));
                assert(self@ =~= with_occurrence(old(self)@, fingerprint@, entry.path@));
                Indexed::Duplicate
            },
            None => {
                let ghost founded = GroupView {
                    fingerprint: fingerprint@,
                    canonical: path@,
                    duplicates: Seq::empty(),
                };
                self.entries.push(
                    DuplicateGroup { fingerprint, canonical: path, duplicates: Vec::new() },
                );
                assert(self.entries[self.entries.len() - 1].duplicates.deep_view()
                    =~= Seq::<Seq<char>>::empty());
                assert(self@ =~= old(self)@.push(founded));
                Indexed::Canonical
            },
        }
    }

    /// Places a file that was met at `entry` and holds `content`.
    ///
    /// Files are grouped by the fingerprint of their content: see
    /// [`DuplicateIndex::record`].
    pub fn process_file(&mut self, entry: &Entry, content: &[u8]) -> (outcome: Indexed)
        requires
            old(self).wf(),
        ensures
            final(self).wf(),
            final(self).own_exe() == old(self).own_exe(),
            final(self)@ == recorded(
                old(self)@,
                entry.path@,
                entry.kind,
                old(self).own_exe(),
                fingerprint_of(content@),
            ),
            outcome == placement(
                old(self)@,
                entry.path@,
                entry.kind,
                old(self).own_exe(),
                fingerprint_of(content@),
            ),
    {
        if let Some(reason) = classify(entry.path.as_str(), entry.kind, self.own_exe.as_str()) {
            return Indexed::Skipped(reason);
        }
        self.record(entry, hash_file(content))
    }

    /// The groups found: every fingerprint that at least two paths share,
    /// with its paths. Fingerprints met only once are left out.
    pub fn groups(&self) -> (model: GroupModel)
        requires
            self.wf(),
        ensures
            model.wf(),
            model@ == emitted(self@),
            model.own_exe() == self.own_exe(),
    {
        let mut found: Vec<DuplicateGroup> = Vec::new();
        let mut at: usize = 0;
        while at < self.entries.len()
            invariant
                at <= self.entries.len(),
                views(found@) == emitted(self@.take(at as int)),
            decreases self.entries.len() - at,
        {
            let group = &self.entries[at];
            proof {
                assert(self@.take(at + 1).drop_last() =~= self@.take(at as int));
                assert(self@.take(at + 1).last() == group@);
            }
            if group.duplicates.len() > 0 {
                let ghost before = views(found@);
                found.push(
                    DuplicateGroup {
                        fingerprint: group.fingerprint.clone(),
                        canonical: group.canonical.clone(),
                        duplicates: copy_paths(&group.duplicates),
                    },
                );
                assert(views(found@) =~= before.push(group@));
            }
            at += 1;
        }
        proof {
            assert(self@.take(at as int) =~= self@);
            lemma_emitted(self@, self.own_exe());
        }
        GroupModel::assemble(self.own_exe.clone(), found)
    }
}

} // verus!
