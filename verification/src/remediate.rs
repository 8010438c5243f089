//! The remediation engine: removes selected duplicates, or replaces them by
//! symbolic links to the canonical path of their group.
//!
//! The engine decides and the caller acts. [`Remediation::request`] names the
//! next operation, the caller performs it on the file system and reports what
//! happened with [`Remediation::advance`]. The engine never trusts what the
//! scan saw: before it asks for a removal it has both paths inspected again.

use vstd::prelude::*;
use crate::groups::{admissible, members, GroupModel, GroupView, Status};
use crate::ignore::{exclusion_of, ignores_pair, pair_ignored, EntryKind};

verus! {

/// What is done to a selected duplicate.
#[derive(Clone, Copy, Debug, PartialEq, Eq, Structural)]
pub enum Transform {
    /// Remove the duplicate.
    Delete,
    /// Remove the duplicate, then put a symbolic link to the canonical path
    /// in its place.
    DeleteAndLink,
}

/// A selected duplicate: the position of its group in the model and its
/// position among the group's duplicates.
#[derive(Clone, Copy, Debug, PartialEq, Eq, Structural)]
pub struct Target {
    pub group: usize,
    pub member: usize,
}

/// Why a selected duplicate was not processed to the end.
#[derive(Clone, Copy, Debug, PartialEq, Eq, Structural)]
pub enum Failure {
    /// The pair no longer passed the classifier when it was inspected again.
    /// Nothing was touched.
    RaceInvalidated,
    /// The file system refused the removal. Nothing was touched.
    UnlinkFailed,
    /// The duplicate was removed, but the link could not be created. The
    /// path is left absent.
    LinkFailed,
}

/// How the processing of a selected duplicate ended.
#[derive(Clone, Copy, Debug, PartialEq, Eq, Structural)]
pub enum Outcome {
    Success,
    Failed(Failure),
}

/// The result of processing one selected duplicate.
#[derive(Debug)]
pub struct Record {
    /// The duplicate's path.
    pub path: String,
    /// Where the path stands now.
    pub status: Status,
    /// Whether the transform was carried out in full.
    pub outcome: Outcome,
}

/// The mathematical value of a [`Record`].
pub struct RecordView {
    pub path: Seq<char>,
    pub status: Status,
    pub outcome: Outcome,
}

impl View for Record {
    type V = RecordView;

    open spec fn view(&self) -> RecordView {
        RecordView { path: self.path@, status: self.status, outcome: self.outcome }
    }
}

/// The views of a vector of records.
pub open spec fn record_views(records: Seq<Record>) -> Seq<RecordView> {
    records.map_values(|r: Record| r@)
}

/// A duplicate to process, with the canonical path of its group.
pub struct Task {
    canonical: String,
    member: String,
}

/// The mathematical value of a [`Task`].
pub struct TaskView {
    pub canonical: Seq<char>,
    pub member: Seq<char>,
}

impl View for Task {
    type V = TaskView;

    closed spec fn view(&self) -> TaskView {
        TaskView { canonical: self.canonical@, member: self.member@ }
    }
}

/// What the engine waits for, for the duplicate at hand.
#[derive(Clone, Copy, Debug, PartialEq, Eq, Structural)]
pub enum Phase {
    /// For a fresh look at both paths.
    Inspect,
    /// For the removal of the duplicate.
    Unlink,
    /// For the creation of the link.
    Link,
}

/// The operation that the caller is to perform next.
#[derive(Debug)]
pub enum Request {
    /// Look at both paths and report what is there now.
    Inspect { canonical: String, member: String },
    /// Remove the file at `path`.
    Unlink { path: String },
    /// Create a symbolic link at `path` that points to `target`.
    Link { target: String, path: String },
    /// Nothing is left to do.
    Finished,
}

/// The mathematical value of a [`Request`].
pub enum RequestView {
    Inspect { canonical: Seq<char>, member: Seq<char> },
    Unlink { path: Seq<char> },
    Link { target: Seq<char>, path: Seq<char> },
    Finished,
}

impl View for Request {
    type V = RequestView;

    open spec fn view(&self) -> RequestView {
        match self {
            Request::Inspect { canonical, member } => RequestView::Inspect {
                canonical: canonical@,
                member: member@,
            },
            Request::Unlink { path } => RequestView::Unlink { path: path@ },
            Request::Link { target, path } => RequestView::Link { target: target@, path: path@ },
            Request::Finished => RequestView::Finished,
        }
    }
}

/// What the caller reports back after it performed a request.
#[derive(Clone, Copy, Debug, PartialEq, Eq, Structural)]
pub enum Reply {
    /// What is now found at the canonical path and at the duplicate.
    Inspected { canonical: EntryKind, member: EntryKind },
    /// Whether the removal succeeded.
    Unlinked { done: bool },
    /// Whether the link was created.
    Linked { done: bool },
}

/// Why a selection was refused.
#[derive(Clone, Copy, Debug, PartialEq, Eq, Structural)]
pub enum SelectionError {
    /// The target at `position` names no duplicate of the model.
    OutOfRange { position: usize },
    /// The target at `position` was selected before.
    Repeated { position: usize },
}

/// The mathematical value of a [`Remediation`]: the state of a batch.
pub struct BatchView {
    pub transform: Transform,
    pub own_exe: Seq<char>,
    pub tasks: Seq<TaskView>,
    pub phase: Phase,
    pub records: Seq<RecordView>,
}

/// Whether `target` names a duplicate of `groups`.
pub open spec fn in_range(groups: Seq<GroupView>, target: Target) -> bool {
    target.group < groups.len() && target.member < groups[target.group as int].duplicates.len()
}

/// What is wrong with the target at `position`, if anything: it names no
/// duplicate, or it occurs earlier in the selection.
pub open spec fn fault_at(groups: Seq<GroupView>, targets: Seq<Target>, position: int) -> Option<
    SelectionError,
> {
    if !in_range(groups, targets[position]) {
        Some(SelectionError::OutOfRange { position: position as usize })
    } else if exists|earlier: int| 0 <= earlier < position && targets[earlier] == targets[position] {
        Some(SelectionError::Repeated { position: position as usize })
    } else {
        None
    }
}

/// Whether a selection is a set of duplicates of `groups`.
pub open spec fn valid_selection(groups: Seq<GroupView>, targets: Seq<Target>) -> bool {
    forall|position: int|
        0 <= position < targets.len() ==> fault_at(groups, targets, position) is None
}

/// The task that a target stands for.
pub open spec fn task_of(groups: Seq<GroupView>, target: Target) -> TaskView {
    TaskView {
        canonical: groups[target.group as int].canonical,
        member: groups[target.group as int].duplicates[target.member as int],
    }
}

/// A batch before its first request.
pub open spec fn initial(
    groups: Seq<GroupView>,
    own_exe: Seq<char>,
    transform: Transform,
    targets: Seq<Target>,
) -> BatchView {
    BatchView {
        transform,
        own_exe,
        tasks: Seq::new(targets.len(), |i: int| task_of(groups, targets[i])),
        phase: Phase::Inspect,
        records: Seq::empty(),
    }
}

/// Whether every task of the batch has its record.
pub open spec fn finished(batch: BatchView) -> bool {
    batch.records.len() >= batch.tasks.len()
}

/// The task at hand. Meaningful while the batch is not finished.
pub open spec fn current(batch: BatchView) -> TaskView {
    batch.tasks[batch.records.len() as int]
}

/// The operation that the batch asks for.
pub open spec fn pending(batch: BatchView) -> RequestView {
    if finished(batch) {
        RequestView::Finished
    } else {
        match batch.phase {
            Phase::Inspect => RequestView::Inspect {
                canonical: current(batch).canonical,
                member: current(batch).member,
            },
            Phase::Unlink => RequestView::Unlink { path: current(batch).member },
            Phase::Link => RequestView::Link {
                target: current(batch).canonical,
                path: current(batch).member,
            },
        }
    }
}

/// The batch after the task at hand ended with the given status and
/// outcome: its record is written, and the next task is up for inspection.
pub open spec fn settled(batch: BatchView, status: Status, outcome: Outcome) -> BatchView {
    BatchView {
        phase: Phase::Inspect,
        records: batch.records.push(
            RecordView { path: current(batch).member, status, outcome },
        ),
        ..batch
    }
}

/// The batch after a reply.
///
/// A pair that fails the fresh inspection is skipped. A removal that fails
/// ends the task with nothing touched. A removal that succeeds ends the task
/// where only removal was asked for, and otherwise leads to the link. A link
/// that fails leaves the path absent: there is no way back. In every case
/// the batch moves on to the next task. A reply that does not answer the
/// pending request changes nothing.
pub open spec fn advanced(batch: BatchView, reply: Reply) -> BatchView {
    if finished(batch) {
        batch
    } else {
        match (batch.phase, reply) {
            (Phase::Inspect, Reply::Inspected { canonical, member }) => if pair_ignored(
                current(batch).canonical,
                canonical,
                current(batch).member,
                member,
                batch.own_exe,
            ) {
                settled(batch, Status::Duplicate, Outcome::Failed(Failure::RaceInvalidated))
            } else {
                BatchView { phase: Phase::Unlink, ..batch }
            },
            (Phase::Unlink, Reply::Unlinked { done }) => if !done {
                settled(batch, Status::Duplicate, Outcome::Failed(Failure::UnlinkFailed))
            } else if batch.transform == Transform::Delete {
                settled(batch, Status::Removed, Outcome::Success)
            } else {
                BatchView { phase: Phase::Link, ..batch }
            },
            (Phase::Link, Reply::Linked { done }) => if done {
                settled(batch, Status::Linked, Outcome::Success)
            } else {
                settled(batch, Status::Removed, Outcome::Failed(Failure::LinkFailed))
            },
            _ => batch,
        }
    }
}

/// Whether a record can stand in a batch with the given transform.
pub open spec fn consistent_record(transform: Transform, record: RecordView) -> bool {
    match (record.status, record.outcome) {
        (Status::Duplicate, Outcome::Failed(Failure::RaceInvalidated)) => true,
        (Status::Duplicate, Outcome::Failed(Failure::UnlinkFailed)) => true,
        (Status::Removed, Outcome::Success) => transform == Transform::Delete,
        (Status::Removed, Outcome::Failed(Failure::LinkFailed)) => transform
            == Transform::DeleteAndLink,
        (Status::Linked, Outcome::Success) => transform == Transform::DeleteAndLink,
        _ => false,
    }
}

/// The invariant of a batch.
///
/// No path is a duplicate in two tasks, and no duplicate is the canonical
/// path of any task: so no two operations ever concern the same path, and no
/// canonical path is ever removed. No duplicate is the program's own
/// executable. Every finished task has its record, in the order of the tasks.
pub open spec fn batch_wf(batch: BatchView) -> bool {
    &&& batch.records.len() <= batch.tasks.len()
    &&& forall|i: int, j: int|
        0 <= i < j < batch.tasks.len() ==> (#[trigger] batch.tasks[i]).member != (
        #[trigger] batch.tasks[j]).member
    &&& forall|i: int, j: int|
        0 <= i < batch.tasks.len() && 0 <= j < batch.tasks.len() ==> (
        #[trigger] batch.tasks[i]).member != (#[trigger] batch.tasks[j]).canonical
    &&& forall|i: int|
        0 <= i < batch.tasks.len() ==> exclusion_of(
            (#[trigger] batch.tasks[i]).member,
            EntryKind::File,
            batch.own_exe,
        ) is None
    &&& forall|i: int|
        0 <= i < batch.records.len() ==> (#[trigger] batch.records[i]).path
            == batch.tasks[i].member && consistent_record(batch.transform, batch.records[i])
    &&& batch.phase != Phase::Inspect ==> !finished(batch)
    &&& batch.phase == Phase::Link ==> batch.transform == Transform::DeleteAndLink
}

/// A reply keeps a batch well-formed. It never changes the tasks, never
/// drops a record, and ends at most the task at hand.
pub proof fn lemma_advanced_well_formed(batch: BatchView, reply: Reply)
    requires
        batch_wf(batch),
    ensures
        batch_wf(advanced(batch, reply)),
        advanced(batch, reply).tasks == batch.tasks,
        advanced(batch, reply).transform == batch.transform,
        advanced(batch, reply).own_exe == batch.own_exe,
        advanced(batch, reply).records == batch.records || (advanced(batch, reply).records.len()
            == batch.records.len() + 1 && advanced(batch, reply).records.drop_last()
            == batch.records),
{
    let next = advanced(batch, reply);
    if next.records != batch.records {
        assert(next.records.drop_last() =~= batch.records);
        assert forall|i: int| 0 <= i < next.records.len() implies (#[trigger] next.records[i]).path
            == next.tasks[i].member && consistent_record(next.transform, next.records[i]) by {
            if i < batch.records.len() {
                assert(next.records[i] == batch.records[i]);
            }
        }
    }
}

/// A request for a removal or for a link never names the program's own
/// executable as the path to change, nor the canonical path of any task.
pub proof fn lemma_requests_spare_executable_and_canonicals(batch: BatchView)
    requires
        batch_wf(batch),
    ensures
        pending(batch) matches RequestView::Unlink { path } ==> {
            &&& path != batch.own_exe
            &&& forall|i: int| 0 <= i < batch.tasks.len() ==> (#[trigger] batch.tasks[i]).canonical != path
        },
        pending(batch) matches RequestView::Link { target, path } ==> {
            &&& path != batch.own_exe
            &&& target == current(batch).canonical
            &&& forall|i: int| 0 <= i < batch.tasks.len() ==> (#[trigger] batch.tasks[i]).canonical != path
        },
{
    if !finished(batch) {
        let at = batch.records.len() as int;
        assert(exclusion_of(batch.tasks[at].member, EntryKind::File, batch.own_exe) is None);
        assert forall|i: int| 0 <= i < batch.tasks.len() implies (#[trigger] batch.tasks[i]).canonical
            != batch.tasks[at].member by {}
    }
}

/// The views of a vector of tasks.
pub open spec fn task_views(tasks: Seq<Task>) -> Seq<TaskView> {
    tasks.map_values(|t: Task| t@)
}

/// How many duplicates a batch removed, how many it replaced by links, and
/// how many it could not process to the end.
#[derive(Clone, Copy, Debug, PartialEq, Eq, Structural)]
pub struct Summary {
    pub removed: usize,
    pub linked: usize,
    pub failed: usize,
}

/// The mathematical value of a [`Summary`].
pub struct Tally {
    pub removed: nat,
    pub linked: nat,
    pub failed: nat,
}

/// Counts the records: a success counts as removed or as linked, by the
/// status it reached, and everything else counts as failed.
pub open spec fn tally(records: Seq<RecordView>) -> Tally
    decreases records.len(),
{
    if records.len() == 0 {
        Tally { removed: 0, linked: 0, failed: 0 }
    } else {
        let rest = tally(records.drop_last());
        match (records.last().outcome, records.last().status) {
            (Outcome::Failed(_), _) => Tally { failed: rest.failed + 1, ..rest },
            (Outcome::Success, Status::Removed) => Tally { removed: rest.removed + 1, ..rest },
            (Outcome::Success, Status::Linked) => Tally { linked: rest.linked + 1, ..rest },
            _ => rest,
        }
    }
}

/// All duplicates of the group at position `group`, which has `count` of
/// them.
pub open spec fn group_targets(group: int, count: nat) -> Seq<Target> {
    Seq::new(count, |m: int| Target { group: group as usize, member: m as usize })
}

/// All duplicates of all groups, group by group.
pub open spec fn all_targets(groups: Seq<GroupView>) -> Seq<Target>
    decreases groups.len(),
{
    if groups.len() == 0 {
        Seq::empty()
    } else {
        all_targets(groups.drop_last()) + group_targets(
            groups.len() - 1,
            groups.last().duplicates.len(),
        )
    }
}

/// The selection of everything names every duplicate once, and nothing else.
pub proof fn lemma_all_targets(groups: Seq<GroupView>)
    requires
        groups.len() <= usize::MAX,
        forall|g: int| 0 <= g < groups.len() ==> (#[trigger] groups[g]).duplicates.len() <= usize::MAX,
    ensures
        valid_selection(groups, all_targets(groups)),
        forall|target: Target|
            in_range(groups, target) <==> #[trigger] all_targets(groups).contains(target),
    decreases groups.len(),
{
    let all = all_targets(groups);
    if groups.len() > 0 {
        let front = groups.drop_last();
        let n = groups.len() - 1;
        let before = all_targets(front);
        let added = group_targets(n, groups.last().duplicates.len());
        assert forall|g: int| 0 <= g < front.len() implies (#[trigger] front[g]).duplicates.len()
            <= usize::MAX by {
            assert(front[g] == groups[g]);
        }
        lemma_all_targets(front);
        assert forall|target: Target| in_range(groups, target) <==> #[trigger] all.contains(
            target,
        ) by {
            if in_range(groups, target) {
                if target.group < n {
                    assert(front[target.group as int] == groups[target.group as int]);
                    assert(in_range(front, target));
                    assert(before.contains(target));
                    let i = choose|i: int| 0 <= i < before.len() && before[i] == target;
                    assert(all[i] == target);
                } else {
                    assert(added[target.member as int] == target);
                    assert(all[before.len() + target.member] == target);
                }
            }
            if all.contains(target) {
                let i = choose|i: int| 0 <= i < all.len() && all[i] == target;
                if i < before.len() {
                    assert(before[i] == target);
                    assert(before.contains(target));
                    assert(in_range(front, target));
                    assert(front[target.group as int] == groups[target.group as int]);
                } else {
                    assert(added[i - before.len()] == target);
                }
            }
        }
        assert forall|position: int| 0 <= position < all.len() implies fault_at(
            groups,
            all,
            position,
        ) is None by {
            assert(all.contains(all[position]));
            if exists|earlier: int| 0 <= earlier < position && all[earlier] == all[position] {
                let earlier = choose|earlier: int|
                    0 <= earlier < position && all[earlier] == all[position];
                if position < before.len() {
                    assert(before[earlier] == before[position]);
                    assert(fault_at(front, before, position) is None);
                } else if earlier < before.len() {
                    assert(before.contains(before[earlier]));
                    assert(in_range(front, before[earlier]));
                    assert(added[position - before.len()] == all[position]);
                } else {
                    assert(added[position - before.len()] == all[position]);
                    assert(added[earlier - before.len()] == all[earlier]);
                }
            }
        }
    }
}

/// A batch of selected duplicates under remediation.
pub struct Remediation {
    transform: Transform,
    own_exe: String,
    tasks: Vec<Task>,
    phase: Phase,
    records: Vec<Record>,
}

impl View for Remediation {
    type V = BatchView;

    closed spec fn view(&self) -> BatchView {
        BatchView {
            transform: self.transform,
            own_exe: self.own_exe@,
            tasks: task_views(self.tasks@),
            phase: self.phase,
            records: record_views(self.records@),
        }
    }
}

impl GroupModel {
    /// The selection of every duplicate of every group.
    pub fn all_targets(&self) -> (targets: Vec<Target>)
        ensures
            targets@ == all_targets(self@),
            valid_selection(self@, targets@),
    {
        let mut targets: Vec<Target> = Vec::new();
        let mut at: usize = 0;
        while at < self.group_count()
            invariant
                at <= self@.len(),
                targets@ == all_targets(self@.take(at as int)),
            decreases self@.len() - at,
        {
            let count = self.duplicates_in(at);
            let ghost before = targets@;
            let mut member: usize = 0;
            while member < count
                invariant
                    member <= count,
                    targets@ == before + group_targets(at as int, member as nat),
                decreases count - member,
            {
                targets.push(Target { group: at, member });
                assert(targets@ =~= before + group_targets(at as int, (member + 1) as nat));
                member += 1;
            }
            proof {
                assert(self@.take(at + 1).drop_last() =~= self@.take(at as int));
                assert(self@.take(at + 1).last() == self@[at as int]);
            }
            at += 1;
        }
        proof {
            assert(self@.take(at as int) =~= self@);
            self.lemma_sizes();
            lemma_all_targets(self@);
        }
        targets
    }

    /// The selection of every duplicate of the group at `position`: empty
    /// where there is no such group.
    pub fn group_targets(&self, position: usize) -> (targets: Vec<Target>)
        ensures
            targets@ == if position < self@.len() {
                group_targets(position as int, self@[position as int].duplicates.len())
            } else {
                Seq::<Target>::empty()
            },
    {
        let mut targets: Vec<Target> = Vec::new();
        if position < self.group_count() {
            let count = self.duplicates_in(position);
            let mut member: usize = 0;
            while member < count
                invariant
                    member <= count,
                    targets@ == group_targets(position as int, member as nat),
                decreases count - member,
            {
                targets.push(Target { group: position, member });
                assert(targets@ =~= group_targets(position as int, (member + 1) as nat));
                member += 1;
            }
        }
        targets
    }
}

impl Remediation {
    /// The invariant of the batch: see [`batch_wf`].
    pub open spec fn wf(&self) -> bool {
        batch_wf(self@)
    }

    /// Starts a batch over the selected duplicates of `model`. Nothing is
    /// asked of the file system yet.
    ///
    /// The selection is refused where a target names no duplicate of the
    /// model or occurs twice; the error tells the first such position.
    pub fn new(model: &GroupModel, transform: Transform, targets: &Vec<Target>) -> (result: Result<
        Remediation,
        SelectionError,
    >)
        requires
            model.wf(),
        ensures
            match result {
                Ok(batch) => {
                    &&& valid_selection(model@, targets@)
                    &&& batch.wf()
                    &&& batch@ == initial(model@, model.own_exe(), transform, targets@)
                },
                Err(error) => exists|position: int|
                    {
                        &&& 0 <= position < targets@.len()
                        &&& #[trigger] fault_at(model@, targets@, position) == Some(error)
                        &&& forall|earlier: int|
                            0 <= earlier < position ==> fault_at(model@, targets@, earlier)
                                is None
                    },
            },
    {
        let mut tasks: Vec<Task> = Vec::new();
        let mut at: usize = 0;
        while at < targets.len()
            invariant
                at <= targets.len(),
                model.wf(),
                tasks.len() == at,
                forall|q: int| 0 <= q < at ==> fault_at(model@, targets@, q) is None,
                forall|q: int|
                    0 <= q < at ==> (#[trigger] tasks[q])@ == task_of(model@, targets@[q]),
            decreases targets.len() - at,
        {
            let target = targets[at];
            let group = match model.group(target.group) {
                Some(group) => group,
                None => {
                    assert(fault_at(model@, targets@, at as int) == Some(
                        SelectionError::OutOfRange { position: at },
                    ));
                    return Err(SelectionError::OutOfRange { position: at });
                },
            };
            if target.member >= group.duplicates.len() {
                assert(fault_at(model@, targets@, at as int) == Some(
                    SelectionError::OutOfRange { position: at },
                ));
                return Err(SelectionError::OutOfRange { position: at });
            }
            let mut earlier: usize = 0;
            while earlier < at
                invariant
                    earlier <= at,
                    at < targets.len(),
                    target == targets@[at as int],
                    in_range(model@, target),
                    forall|q: int| 0 <= q < at ==> fault_at(model@, targets@, q) is None,
                    forall|e: int| 0 <= e < earlier ==> targets@[e] != target,
                decreases at - earlier,
            {
                if targets[earlier] == target {
                    assert(targets@[earlier as int] == targets@[at as int]);
                    assert(fault_at(model@, targets@, at as int) == Some(
                        SelectionError::Repeated { position: at },
                    ));
                    return Err(SelectionError::Repeated { position: at });
                }
                earlier += 1;
            }
            tasks.push(
                Task {
                    canonical: group.canonical.clone(),
                    member: group.duplicates[target.member].clone(),
                },
            );
            at += 1;
        }
        let batch = Remediation {
            transform,
            own_exe: model.exe().clone(),
            tasks,
            phase: Phase::Inspect,
            records: Vec::new(),
        };
        proof {
            let start = initial(model@, model.own_exe(), transform, targets@);
            assert(batch@.tasks =~= start.tasks);
            assert(batch@.records =~= start.records);
            lemma_initial_well_formed(model@, model.own_exe(), transform, targets@);
        }
        Ok(batch)
    }

    /// The operation that the caller is to perform next.
    pub fn request(&self) -> (request: Request)
        ensures
            request@ == pending(self@),
    {
        if self.records.len() >= self.tasks.len() {
            return Request::Finished;
        }
        let task = &self.tasks[self.records.len()];
        match self.phase {
            Phase::Inspect => Request::Inspect {
                canonical: task.canonical.clone(),
                member: task.member.clone(),
            },
            Phase::Unlink => Request::Unlink { path: task.member.clone() },
            Phase::Link => Request::Link {
                target: task.canonical.clone(),
                path: task.member.clone(),
            },
        }
    }

    /// Whether every selected duplicate has its record.
    pub fn is_finished(&self) -> (done: bool)
        ensures
            done == finished(self@),
    {
        self.records.len() >= self.tasks.len()
    }

    /// Ends the task at hand with a record and turns to the next task.
    fn settle(&mut self, status: Status, outcome: Outcome)
        requires
            !finished(old(self)@),
        ensures
            final(self)@ == settled(old(self)@, status, outcome),
    {
        let path = self.tasks[self.records.len()].member.clone();
        self.records.push(Record { path, status, outcome });
        self.phase = Phase::Inspect;
        assert(self@.records =~= settled(old(self)@, status, outcome).records);
    }

    /// Takes in what the caller reports of the operation it was asked for:
    /// see [`advanced`].
    pub fn advance(&mut self, reply: Reply)
        requires
            old(self).wf(),
        ensures
            final(self).wf(),
            final(self)@ == advanced(old(self)@, reply),
    {
        proof {
            lemma_advanced_well_formed(self@, reply);
        }
        if self.records.len() >= self.tasks.len() {
            return ;
        }
        match (self.phase, reply) {
            (Phase::Inspect, Reply::Inspected { canonical, member }) => {
                let task = &self.tasks[self.records.len()];
                if ignores_pair(
                    task.canonical.as_str(),
                    canonical,
                    task.member.as_str(),
                    member,
                    self.own_exe.as_str(),
                ) {
                    self.settle(Status::Duplicate, Outcome::Failed(Failure::RaceInvalidated));
                } else {
                    self.phase = Phase::Unlink;
                }
            },
            (Phase::Unlink, Reply::Unlinked { done }) => {
                if !done {
                    self.settle(Status::Duplicate, Outcome::Failed(Failure::UnlinkFailed));
                } else {
                    match self.transform {
                        Transform::Delete => self.settle(Status::Removed, Outcome::Success),
                        Transform::DeleteAndLink => {
                            self.phase = Phase::Link;
                        },
                    }
                }
            },
            (Phase::Link, Reply::Linked { done }) => {
                if done {
                    self.settle(Status::Linked, Outcome::Success);
                } else {
                    self.settle(Status::Removed, Outcome::Failed(Failure::LinkFailed));
                }
            },
            _ => {},
        }
    }

    /// The records of the tasks that ended, in the order of the selection.
    pub fn records(&self) -> (records: &Vec<Record>)
        ensures
            record_views(records@) == self@.records,
    {
        &self.records
    }

    /// Counts the records: duplicates removed, duplicates replaced by links,
    /// and duplicates that could not be processed to the end.
    pub fn summary(&self) -> (summary: Summary)
        ensures
            summary.removed == tally(self@.records).removed,
            summary.linked == tally(self@.records).linked,
            summary.failed == tally(self@.records).failed,
    {
        let mut summary = Summary { removed: 0, linked: 0, failed: 0 };
        let mut at: usize = 0;
        while at < self.records.len()
            invariant
                at <= self.records.len(),
                summary.removed <= at,
                summary.linked <= at,
                summary.failed <= at,
                summary.removed == tally(self@.records.take(at as int)).removed,
                summary.linked == tally(self@.records.take(at as int)).linked,
                summary.failed == tally(self@.records.take(at as int)).failed,
            decreases self.records.len() - at,
        {
            let record = &self.records[at];
            proof {
                assert(self@.records.take(at + 1).drop_last() =~= self@.records.take(at as int));
                assert(self@.records.take(at + 1).last() == record@);
            }
            match record.outcome {
                Outcome::Success => match record.status {
                    Status::Removed => {
                        summary.removed += 1;
                    },
                    Status::Linked => {
                        summary.linked += 1;
                    },
                    _ => {},
                },
                Outcome::Failed(_) => {
                    summary.failed += 1;
                },
            }
            at += 1;
        }
        assert(self@.records.take(at as int) =~= self@.records);
        summary
    }
}

/// A batch over a valid selection of a well-formed model starts out
/// well-formed.
pub proof fn lemma_initial_well_formed(
    groups: Seq<GroupView>,
    own_exe: Seq<char>,
    transform: Transform,
    targets: Seq<Target>,
)
    requires
        crate::groups::well_formed(groups),
        admissible(groups, own_exe),
        valid_selection(groups, targets),
    ensures
        batch_wf(initial(groups, own_exe, transform, targets)),
{
    let batch = initial(groups, own_exe, transform, targets);
    assert forall|i: int| 0 <= i < batch.tasks.len() implies {
        &&& in_range(groups, targets[i])
        &&& (#[trigger] batch.tasks[i]).member == members(groups[targets[i].group as int])[
            targets[i].member + 1
        ]
        &&& batch.tasks[i].canonical == members(groups[targets[i].group as int])[0]
    } by {
        assert(fault_at(groups, targets, i) is None);
    }
    assert forall|i: int, j: int| 0 <= i < j < batch.tasks.len() implies (#[trigger] batch.tasks[i]).member
        != (#[trigger] batch.tasks[j]).member by {
        assert(fault_at(groups, targets, j) is None);
        assert(targets[i] != targets[j]);
        if batch.tasks[i].member == batch.tasks[j].member {
            assert(members(groups[targets[i].group as int])[targets[i].member + 1] == members(
                groups[targets[j].group as int],
            )[targets[j].member + 1]);
        }
    }
    assert forall|i: int, j: int|
        0 <= i < batch.tasks.len() && 0 <= j < batch.tasks.len() implies (
    #[trigger] batch.tasks[i]).member != (#[trigger] batch.tasks[j]).canonical by {
        if batch.tasks[i].member == batch.tasks[j].canonical {
            assert(members(groups[targets[i].group as int])[targets[i].member + 1] == members(
                groups[targets[j].group as int],
            )[0]);
        }
    }
    assert forall|i: int| 0 <= i < batch.tasks.len() implies exclusion_of(
        (#[trigger] batch.tasks[i]).member,
        EntryKind::File,
        own_exe,
    ) is None by {
        assert(exclusion_of(
            members(groups[targets[i].group as int])[targets[i].member + 1],
            EntryKind::File,
            own_exe,
        ) is None);
    }
}

} // verus!
