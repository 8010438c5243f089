use file_copy_checker::ignore::{
    classify, file_name, should_ignore_file, should_ignore_files, Entry, EntryKind, Exclusion,
};

const EXE: &str = "/usr/local/bin/file_copy_checker";

fn file(path: &str) -> Entry {
    Entry { path: path.to_string(), kind: EntryKind::File, symlink: false }
}

#[test]
fn regular_file_takes_part() {
    assert!(!should_ignore_file(&file("/data/a.txt"), EXE));
    assert_eq!(classify("/data/a.txt", EntryKind::File, EXE), None);
}

#[test]
fn missing_path_is_ignored() {
    let entry = Entry { path: "/data/a.txt".to_string(), kind: EntryKind::Missing, symlink: false };
    assert!(should_ignore_file(&entry, EXE));
    assert_eq!(classify("/data/a.txt", EntryKind::Missing, EXE), Some(Exclusion::Missing));
}

#[test]
fn directory_and_other_are_not_regular_files() {
    assert_eq!(
        classify("/data", EntryKind::Directory, EXE),
        Some(Exclusion::NotRegularFile)
    );
    assert_eq!(classify("/dev/null", EntryKind::Other, EXE), Some(Exclusion::NotRegularFile));
}

#[test]
fn own_executable_is_ignored() {
    assert!(should_ignore_file(&file(EXE), EXE));
    assert_eq!(classify(EXE, EntryKind::File, EXE), Some(Exclusion::OwnExecutable));
}

#[test]
fn every_ignored_name_is_ignored() {
    for name in [".DS_Store", ".localized", "Thumbs.db", ".gitignore", ".svn", ".idea"] {
        let path = format!("/data/sub/{}", name);
        assert_eq!(
            classify(&path, EntryKind::File, EXE),
            Some(Exclusion::IgnoredName),
            "{}",
            name
        );
        assert!(should_ignore_file(&file(&path), EXE));
        assert!(should_ignore_file(&file(name), EXE));
    }
}

#[test]
fn similar_names_take_part() {
    for name in [".DS_Store2", "x.gitignore", "thumbs.db", ".svn.txt", "idea", ".Idea"] {
        let path = format!("/data/{}", name);
        assert_eq!(classify(&path, EntryKind::File, EXE), None, "{}", name);
    }
}

#[test]
fn ignored_name_as_directory_component_does_not_exclude() {
    assert_eq!(classify("/data/.svn/entries", EntryKind::File, EXE), None);
}

#[test]
fn rules_are_tried_in_order() {
    // A missing path named like the executable is reported as missing.
    assert_eq!(classify(EXE, EntryKind::Missing, EXE), Some(Exclusion::Missing));
    // An executable with an ignored name is reported as the executable.
    assert_eq!(
        classify("/x/.DS_Store", EntryKind::File, "/x/.DS_Store"),
        Some(Exclusion::OwnExecutable)
    );
}

#[test]
fn file_name_is_what_follows_the_last_slash() {
    assert_eq!(file_name("/a/b/c.txt"), "c.txt");
    assert_eq!(file_name("c.txt"), "c.txt");
    assert_eq!(file_name("/a/b/"), "");
    assert_eq!(file_name(""), "");
    assert_eq!(file_name("/"), "");
    assert_eq!(file_name("/ä/ö/ü.txt"), "ü.txt");
}

#[test]
fn pair_is_ignored_when_either_is() {
    let good = file("/data/a.txt");
    let other = file("/data/b.txt");
    let gone = Entry { path: "/data/c.txt".to_string(), kind: EntryKind::Missing, symlink: false };
    assert!(!should_ignore_files(&good, &other, EXE));
    assert!(should_ignore_files(&gone, &other, EXE));
    assert!(should_ignore_files(&good, &gone, EXE));
}

#[test]
fn pair_of_equal_paths_is_ignored() {
    let good = file("/data/a.txt");
    let same = file("/data/a.txt");
    assert!(should_ignore_files(&good, &same, EXE));
}

#[test]
fn classification_is_not_cached() {
    let mut entry = file("/data/a.txt");
    assert!(!should_ignore_file(&entry, EXE));
    entry.kind = EntryKind::Missing;
    assert!(should_ignore_file(&entry, EXE));
    entry.kind = EntryKind::File;
    assert!(!should_ignore_file(&entry, EXE));
}
