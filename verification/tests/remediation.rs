use std::collections::BTreeMap;

use file_copy_checker::groups::{GroupModel, Status};
use file_copy_checker::ignore::{Entry, EntryKind};
use file_copy_checker::index::DuplicateIndex;
use file_copy_checker::remediate::{
    Failure, Outcome, Remediation, Reply, Request, SelectionError, Summary, Target, Transform,
};

const EXE: &str = "/opt/tool/file_copy_checker";

#[derive(Clone, Debug, PartialEq)]
enum Node {
    File(Vec<u8>),
    Link(String),
}

/// A file system in memory, with paths on which an operation is made to fail.
struct Disk {
    nodes: BTreeMap<String, Node>,
    refuse_unlink: Vec<String>,
    refuse_link: Vec<String>,
    log: Vec<String>,
}

impl Disk {
    fn new(files: &[(&str, &[u8])]) -> Disk {
        let mut nodes = BTreeMap::new();
        for (path, content) in files {
            nodes.insert(path.to_string(), Node::File(content.to_vec()));
        }
        Disk { nodes, refuse_unlink: vec![], refuse_link: vec![], log: vec![] }
    }

    fn kind(&self, path: &str) -> EntryKind {
        match self.nodes.get(path) {
            None => EntryKind::Missing,
            Some(Node::File(_)) => EntryKind::File,
            Some(Node::Link(target)) => match self.nodes.get(target) {
                Some(Node::File(_)) => EntryKind::File,
                _ => EntryKind::Missing,
            },
        }
    }

    fn content(&self, path: &str) -> Option<Vec<u8>> {
        match self.nodes.get(path)? {
            Node::File(content) => Some(content.clone()),
            Node::Link(target) => match self.nodes.get(target)? {
                Node::File(content) => Some(content.clone()),
                Node::Link(_) => None,
            },
        }
    }

    fn perform(&mut self, request: &Request) -> Option<Reply> {
        match request {
            Request::Inspect { canonical, member } => Some(Reply::Inspected {
                canonical: self.kind(canonical),
                member: self.kind(member),
            }),
            Request::Unlink { path } => {
                self.log.push(format!("unlink {}", path));
                let done = !self.refuse_unlink.contains(path) && self.nodes.remove(path).is_some();
                Some(Reply::Unlinked { done })
            }
            Request::Link { target, path } => {
                self.log.push(format!("link {} -> {}", path, target));
                let done = !self.refuse_link.contains(path) && !self.nodes.contains_key(path);
                if done {
                    self.nodes.insert(path.clone(), Node::Link(target.clone()));
                }
                Some(Reply::Linked { done })
            }
            Request::Finished => None,
        }
    }

    fn scan(&self) -> GroupModel {
        let mut index = DuplicateIndex::new(EXE);
        for (path, _) in self.nodes.iter() {
            let entry = Entry { path: path.clone(), kind: self.kind(path), symlink: false };
            if let Some(content) = self.content(path) {
                index.process_file(&entry, &content);
            }
        }
        index.groups()
    }
}

fn run(batch: &mut Remediation, disk: &mut Disk) -> usize {
    let mut steps = 0;
    loop {
        let request = batch.request();
        match disk.perform(&request) {
            Some(reply) => batch.advance(reply),
            None => break,
        }
        steps += 1;
        assert!(steps < 1000);
    }
    assert!(batch.is_finished());
    steps
}

fn scenario() -> Disk {
    Disk::new(&[("/t/a.txt", b"hello"), ("/t/b/b.txt", b"hello"), ("/t/c.txt", b"world")])
}

fn outcomes(batch: &Remediation) -> Vec<(String, Status, Outcome)> {
    batch.records().iter().map(|r| (r.path.clone(), r.status, r.outcome)).collect()
}

#[test]
fn scenario_delete() {
    let mut disk = scenario();
    let model = disk.scan();
    assert_eq!(model.group_count(), 1);
    assert_eq!(model.group(0).unwrap().canonical, "/t/a.txt");
    let mut batch = Remediation::new(&model, Transform::Delete, &model.all_targets()).unwrap();
    run(&mut batch, &mut disk);
    assert_eq!(disk.kind("/t/b/b.txt"), EntryKind::Missing);
    assert_eq!(disk.nodes.get("/t/a.txt"), Some(&Node::File(b"hello".to_vec())));
    assert_eq!(disk.nodes.get("/t/c.txt"), Some(&Node::File(b"world".to_vec())));
    assert_eq!(
        outcomes(&batch),
        vec![("/t/b/b.txt".to_string(), Status::Removed, Outcome::Success)]
    );
    assert_eq!(batch.summary(), Summary { removed: 1, linked: 0, failed: 0 });
    assert_eq!(disk.log, vec!["unlink /t/b/b.txt".to_string()]);
}

#[test]
fn scenario_delete_and_link() {
    let mut disk = scenario();
    let model = disk.scan();
    let mut batch =
        Remediation::new(&model, Transform::DeleteAndLink, &model.all_targets()).unwrap();
    run(&mut batch, &mut disk);
    assert_eq!(disk.nodes.get("/t/b/b.txt"), Some(&Node::Link("/t/a.txt".to_string())));
    assert_eq!(disk.content("/t/b/b.txt"), Some(b"hello".to_vec()));
    assert_eq!(disk.nodes.get("/t/a.txt"), Some(&Node::File(b"hello".to_vec())));
    assert_eq!(disk.nodes.get("/t/c.txt"), Some(&Node::File(b"world".to_vec())));
    assert_eq!(
        outcomes(&batch),
        vec![("/t/b/b.txt".to_string(), Status::Linked, Outcome::Success)]
    );
    assert_eq!(batch.summary(), Summary { removed: 0, linked: 1, failed: 0 });
    assert_eq!(
        disk.log,
        vec!["unlink /t/b/b.txt".to_string(), "link /t/b/b.txt -> /t/a.txt".to_string()]
    );
}

#[test]
fn nothing_is_touched_before_the_first_reply() {
    let disk = scenario();
    let model = disk.scan();
    let batch = Remediation::new(&model, Transform::Delete, &model.all_targets()).unwrap();
    assert!(!batch.is_finished());
    match batch.request() {
        Request::Inspect { canonical, member } => {
            assert_eq!(canonical, "/t/a.txt");
            assert_eq!(member, "/t/b/b.txt");
        }
        other => panic!("{:?}", other),
    }
    assert!(disk.log.is_empty());
    assert!(batch.records().is_empty());
}

#[test]
fn empty_selection_is_finished_at_once() {
    let disk = scenario();
    let model = disk.scan();
    let mut batch = Remediation::new(&model, Transform::Delete, &vec![]).unwrap();
    assert!(batch.is_finished());
    assert!(matches!(batch.request(), Request::Finished));
    batch.advance(Reply::Unlinked { done: true });
    assert!(batch.records().is_empty());
    assert_eq!(batch.summary(), Summary { removed: 0, linked: 0, failed: 0 });
}

fn three_copies() -> Disk {
    Disk::new(&[
        ("/t/1", b"same"),
        ("/t/2", b"same"),
        ("/t/3", b"same"),
        ("/t/4", b"other"),
        ("/t/5", b"other"),
    ])
}

#[test]
fn partial_failure_leaves_path_absent_and_batch_goes_on() {
    let mut disk = three_copies();
    disk.refuse_link.push("/t/2".to_string());
    let model = disk.scan();
    let mut batch =
        Remediation::new(&model, Transform::DeleteAndLink, &model.all_targets()).unwrap();
    run(&mut batch, &mut disk);
    assert_eq!(
        outcomes(&batch),
        vec![
            ("/t/2".to_string(), Status::Removed, Outcome::Failed(Failure::LinkFailed)),
            ("/t/3".to_string(), Status::Linked, Outcome::Success),
            ("/t/5".to_string(), Status::Linked, Outcome::Success),
        ]
    );
    assert_eq!(disk.kind("/t/2"), EntryKind::Missing);
    assert!(!disk.nodes.contains_key("/t/2"));
    assert_eq!(disk.nodes.get("/t/3"), Some(&Node::Link("/t/1".to_string())));
    assert_eq!(disk.nodes.get("/t/5"), Some(&Node::Link("/t/4".to_string())));
    assert_eq!(disk.nodes.get("/t/1"), Some(&Node::File(b"same".to_vec())));
    assert_eq!(batch.summary(), Summary { removed: 0, linked: 2, failed: 1 });
}

#[test]
fn failed_unlink_touches_nothing_and_batch_goes_on() {
    let mut disk = three_copies();
    disk.refuse_unlink.push("/t/2".to_string());
    let model = disk.scan();
    let mut batch = Remediation::new(&model, Transform::Delete, &model.all_targets()).unwrap();
    run(&mut batch, &mut disk);
    assert_eq!(
        outcomes(&batch),
        vec![
            ("/t/2".to_string(), Status::Duplicate, Outcome::Failed(Failure::UnlinkFailed)),
            ("/t/3".to_string(), Status::Removed, Outcome::Success),
            ("/t/5".to_string(), Status::Removed, Outcome::Success),
        ]
    );
    assert_eq!(disk.nodes.get("/t/2"), Some(&Node::File(b"same".to_vec())));
    assert!(!disk.nodes.contains_key("/t/3"));
    assert!(!disk.nodes.contains_key("/t/5"));
    assert_eq!(batch.summary(), Summary { removed: 2, linked: 0, failed: 1 });
}

#[test]
fn vanished_member_is_skipped() {
    let mut disk = three_copies();
    let model = disk.scan();
    disk.nodes.remove("/t/2");
    let mut batch = Remediation::new(&model, Transform::Delete, &model.all_targets()).unwrap();
    run(&mut batch, &mut disk);
    assert_eq!(
        outcomes(&batch)[0],
        ("/t/2".to_string(), Status::Duplicate, Outcome::Failed(Failure::RaceInvalidated))
    );
    assert_eq!(outcomes(&batch)[1].2, Outcome::Success);
    assert!(!disk.log.contains(&"unlink /t/2".to_string()));
}

#[test]
fn vanished_canonical_keeps_its_duplicates() {
    let mut disk = three_copies();
    let model = disk.scan();
    disk.nodes.remove("/t/1");
    let mut batch = Remediation::new(&model, Transform::Delete, &model.all_targets()).unwrap();
    run(&mut batch, &mut disk);
    assert_eq!(
        outcomes(&batch),
        vec![
            ("/t/2".to_string(), Status::Duplicate, Outcome::Failed(Failure::RaceInvalidated)),
            ("/t/3".to_string(), Status::Duplicate, Outcome::Failed(Failure::RaceInvalidated)),
            ("/t/5".to_string(), Status::Removed, Outcome::Success),
        ]
    );
    assert!(disk.nodes.contains_key("/t/2"));
    assert!(disk.nodes.contains_key("/t/3"));
}

#[test]
fn every_task_takes_at_most_three_replies() {
    let mut disk = three_copies();
    let model = disk.scan();
    let mut batch =
        Remediation::new(&model, Transform::DeleteAndLink, &model.all_targets()).unwrap();
    assert_eq!(run(&mut batch, &mut disk), 9);
    let mut disk = three_copies();
    let mut batch = Remediation::new(&model, Transform::Delete, &model.all_targets()).unwrap();
    assert_eq!(run(&mut batch, &mut disk), 6);
}

#[test]
fn reply_that_does_not_answer_changes_nothing() {
    let disk = three_copies();
    let model = disk.scan();
    let mut batch = Remediation::new(&model, Transform::Delete, &model.all_targets()).unwrap();
    batch.advance(Reply::Unlinked { done: true });
    batch.advance(Reply::Linked { done: true });
    assert!(matches!(batch.request(), Request::Inspect { .. }));
    assert!(batch.records().is_empty());
    batch.advance(Reply::Inspected { canonical: EntryKind::File, member: EntryKind::File });
    assert!(matches!(batch.request(), Request::Unlink { .. }));
    batch.advance(Reply::Inspected { canonical: EntryKind::Missing, member: EntryKind::Missing });
    batch.advance(Reply::Linked { done: false });
    assert!(matches!(batch.request(), Request::Unlink { .. }));
    assert!(batch.records().is_empty());
}

#[test]
fn canonical_and_executable_are_never_targets() {
    let mut disk = three_copies();
    disk.nodes.insert(EXE.to_string(), Node::File(b"same".to_vec()));
    let model = disk.scan();
    let mut batch =
        Remediation::new(&model, Transform::DeleteAndLink, &model.all_targets()).unwrap();
    run(&mut batch, &mut disk);
    for line in disk.log.iter() {
        assert!(!line.starts_with(&format!("unlink {}", EXE)));
        assert!(!line.starts_with(&format!("link {}", EXE)));
        assert!(!line.starts_with("unlink /t/1"));
        assert!(!line.starts_with("unlink /t/4"));
    }
    assert_eq!(disk.nodes.get(EXE), Some(&Node::File(b"same".to_vec())));
    assert_eq!(disk.nodes.get("/t/1"), Some(&Node::File(b"same".to_vec())));
    assert_eq!(disk.nodes.get("/t/4"), Some(&Node::File(b"other".to_vec())));
}

#[test]
fn selection_of_single_members() {
    let mut disk = three_copies();
    let model = disk.scan();
    let targets = vec![Target { group: 1, member: 0 }, Target { group: 0, member: 1 }];
    let mut batch = Remediation::new(&model, Transform::Delete, &targets).unwrap();
    run(&mut batch, &mut disk);
    assert_eq!(
        outcomes(&batch),
        vec![
            ("/t/5".to_string(), Status::Removed, Outcome::Success),
            ("/t/3".to_string(), Status::Removed, Outcome::Success),
        ]
    );
    assert!(disk.nodes.contains_key("/t/2"));
}

#[test]
fn selection_out_of_range_is_refused() {
    let disk = three_copies();
    let model = disk.scan();
    let targets = vec![Target { group: 0, member: 0 }, Target { group: 2, member: 0 }];
    assert_eq!(
        Remediation::new(&model, Transform::Delete, &targets).err(),
        Some(SelectionError::OutOfRange { position: 1 })
    );
    let targets = vec![Target { group: 0, member: 2 }];
    assert_eq!(
        Remediation::new(&model, Transform::Delete, &targets).err(),
        Some(SelectionError::OutOfRange { position: 0 })
    );
}

#[test]
fn selection_with_repeated_target_is_refused() {
    let disk = three_copies();
    let model = disk.scan();
    let targets = vec![
        Target { group: 0, member: 0 },
        Target { group: 0, member: 1 },
        Target { group: 0, member: 0 },
    ];
    assert_eq!(
        Remediation::new(&model, Transform::Delete, &targets).err(),
        Some(SelectionError::Repeated { position: 2 })
    );
}

#[test]
fn all_targets_name_every_duplicate_once() {
    let disk = three_copies();
    let model = disk.scan();
    assert_eq!(
        model.all_targets(),
        vec![
            Target { group: 0, member: 0 },
            Target { group: 0, member: 1 },
            Target { group: 1, member: 0 },
        ]
    );
    assert_eq!(
        model.group_targets(0),
        vec![Target { group: 0, member: 0 }, Target { group: 0, member: 1 }]
    );
    assert_eq!(model.group_targets(1), vec![Target { group: 1, member: 0 }]);
    assert_eq!(model.group_targets(2), vec![]);
}
