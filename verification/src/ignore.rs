//! The path classifier: decides whether a file system entry takes part in
//! duplicate detection.
//!
//! Classification is a pure function of what the caller observed about the
//! path. Nothing is cached: the file system may change between the scan and a
//! later removal, so every decision is taken on fresh observations.

use vstd::prelude::*;
use vstd::string::*;
use crate::text::same_text;

verus! {

/// What the file system reports about a path at the moment it is inspected.
#[derive(Clone, Copy, Debug, PartialEq, Eq, Structural)]
pub enum EntryKind {
    /// Nothing exists at the path.
    Missing,
    /// A regular file, possibly reached through a symbolic link.
    File,
    /// A directory.
    Directory,
    /// Anything else: a socket, a device, a pipe.
    Other,
}

/// A path together with what was observed about it.
#[derive(Clone, Debug)]
pub struct Entry {
    /// The absolute path.
    pub path: String,
    /// What was found at the path.
    pub kind: EntryKind,
    /// Whether the path itself is a symbolic link.
    pub symlink: bool,
}

/// Why the classifier leaves a path out.
#[derive(Clone, Copy, Debug, PartialEq, Eq, Structural)]
pub enum Exclusion {
    /// The path does not exist.
    Missing,
    /// The path exists but is not a regular file.
    NotRegularFile,
    /// The path is the running program's own executable.
    OwnExecutable,
    /// The file name is operating-system, version-control or editor metadata.
    IgnoredName,
}

/// The index just behind the last `/` of `path`, or 0 where it has none.
pub open spec fn name_start(path: Seq<char>) -> int
    decreases path.len(),
{
    if path.len() == 0 {
        0
    } else if path.last() == '/' {
        path.len() as int
    } else {
        name_start(path.drop_last())
    }
}

/// The final component of `path`: what follows its last `/`. A path that
/// ends in `/` has an empty final component.
pub open spec fn file_name_of(path: Seq<char>) -> Seq<char> {
    path.subrange(name_start(path), path.len() as int)
}

/// The names that never take part: markers that operating systems, version
/// control and editors leave behind.
pub open spec fn is_ignored_name(name: Seq<char>) -> bool {
    ||| name == ".DS_Store"@
    ||| name == ".localized"@
    ||| name == "Thumbs.db"@
    ||| name == ".gitignore"@
    ||| name == ".svn"@
    ||| name == ".idea"@
}

/// The first rule that leaves the path out, if any. The rules are tried in
/// the order of the variants of [`Exclusion`].
pub open spec fn exclusion_of(path: Seq<char>, kind: EntryKind, own_exe: Seq<char>) -> Option<
    Exclusion,
> {
    if kind == EntryKind::Missing {
        Some(Exclusion::Missing)
    } else if kind != EntryKind::File {
        Some(Exclusion::NotRegularFile)
    } else if path == own_exe {
        Some(Exclusion::OwnExecutable)
    } else if is_ignored_name(file_name_of(path)) {
        Some(Exclusion::IgnoredName)
    } else {
        None
    }
}

/// Whether a single path is left out.
pub open spec fn ignored(path: Seq<char>, kind: EntryKind, own_exe: Seq<char>) -> bool {
    exclusion_of(path, kind, own_exe) is Some
}

/// Whether a pair of paths is left out: either path alone is, or both are the
/// same path.
pub open spec fn pair_ignored(
    first: Seq<char>,
    first_kind: EntryKind,
    second: Seq<char>,
    second_kind: EntryKind,
    own_exe: Seq<char>,
) -> bool {
    ignored(first, first_kind, own_exe) || ignored(second, second_kind, own_exe) || first == second
}

/// The file name holds no `/`, and it starts either at the beginning of the
/// path or right behind a `/`: it is the path's final component.
pub proof fn lemma_file_name_is_final_component(path: Seq<char>)
    ensures
        0 <= name_start(path) <= path.len(),
        !file_name_of(path).contains('/'),
        name_start(path) > 0 ==> path[name_start(path) - 1] == '/',
        path.subrange(0, name_start(path)) + file_name_of(path) == path,
    decreases path.len(),
{
    if path.len() > 0 && path.last() != '/' {
        let front = path.drop_last();
        lemma_file_name_is_final_component(front);
        assert forall|i: int| 0 <= i < file_name_of(path).len() implies file_name_of(path)[i]
            != '/' by {
            if i < file_name_of(front).len() {
                assert(file_name_of(path)[i] == file_name_of(front)[i]);
                assert(file_name_of(front).contains(file_name_of(front)[i]));
            }
        }
    }
    assert(path.subrange(0, name_start(path)) + file_name_of(path) =~= path);
}

/// The final component of `path`.
pub fn file_name(path: &str) -> (name: &str)
    ensures
        name@ == file_name_of(path@),
{
    let length = path.unicode_len();
    let mut start: usize = 0;
    let mut seen: usize = 0;
    for c in iter: path.chars()
        invariant
            seen == iter.index(),
            iter.seq() == path@,
            length == path@.len(),
            start <= seen <= length,
            start == name_start(path@.take(seen as int)),
    {
        assert(path@.take(seen + 1).drop_last() =~= path@.take(seen as int));
        seen += 1;
        if c == '/' {
            start = seen;
        }
    }
    assert(path@.take(length as int) =~= path@);
    path.substring_char(start, length)
}

/// Whether `name` is one of the ignored file names.
pub fn ignored_name(name: &str) -> (hit: bool)
    ensures
        hit == is_ignored_name(name@),
{
    same_text(name, ".DS_Store") || same_text(name, ".localized") || same_text(name, "Thumbs.db")
        || same_text(name, ".gitignore") || same_text(name, ".svn") || same_text(name, ".idea")
}

/// Classifies a path from what was observed about it: `None` where it takes
/// part, otherwise the first rule that leaves it out.
pub fn classify(path: &str, kind: EntryKind, own_exe: &str) -> (verdict: Option<Exclusion>)
    ensures
        verdict == exclusion_of(path@, kind, own_exe@),
{
    match kind {
        EntryKind::Missing => Some(Exclusion::Missing),
        EntryKind::Directory | EntryKind::Other => Some(Exclusion::NotRegularFile),
        EntryKind::File => {
            if same_text(path, own_exe) {
                Some(Exclusion::OwnExecutable)
            } else if ignored_name(file_name(path)) {
                Some(Exclusion::IgnoredName)
            } else {
                None
            }
        },
    }
}

/// Whether the entry is left out of duplicate detection: it does not exist,
/// is not a regular file, is the program's own executable, or carries an
/// ignored name.
pub fn should_ignore_file(entry: &Entry, own_exe: &str) -> (skip: bool)
    ensures
        skip == ignored(entry.path@, entry.kind, own_exe@),
{
    classify(entry.path.as_str(), entry.kind, own_exe).is_some()
}

/// Whether a pair of paths is left out, from what was observed about each:
/// either one is left out alone, or both are the same path.
pub fn ignores_pair(
    first: &str,
    first_kind: EntryKind,
    second: &str,
    second_kind: EntryKind,
    own_exe: &str,
) -> (skip: bool)
    ensures
        skip == pair_ignored(first@, first_kind, second@, second_kind, own_exe@),
{
    if classify(first, first_kind, own_exe).is_some() {
        return true;
    }
    if classify(second, second_kind, own_exe).is_some() {
        return true;
    }
    same_text(first, second)
}

/// Whether a pair of entries is left out: either one is, or both name the
/// same path.
pub fn should_ignore_files(entry: &Entry, second_entry: &Entry, own_exe: &str) -> (skip: bool)
    ensures
        skip == pair_ignored(
            entry.path@,
            entry.kind,
            second_entry.path@,
            second_entry.kind,
            own_exe@,
        ),
{
    ignores_pair(
        entry.path.as_str(),
        entry.kind,
        second_entry.path.as_str(),
        second_entry.kind,
        own_exe,
    )
}

} // verus!
