//! What a batch does to the file system, on a model of it.
//!
//! The engine only names operations; the caller performs them. This module
//! states what follows for the files, under three assumptions about the
//! world: a removal that reports success leaves nothing at the path, a link
//! that reports success stands at the path and points to its target, and an
//! operation that reports failure changes nothing. Nobody else changes the
//! files while the batch runs.

use vstd::prelude::*;
use crate::groups::Status;
use crate::ignore::{exclusion_of, EntryKind};
use crate::remediate::{
    advanced, batch_wf, finished, lemma_advanced_well_formed, pending, BatchView, Failure,
    Outcome, Phase, Reply, RequestView, Transform,
};

verus! {

/// What stands at a path.
pub enum Node {
    /// A regular file with its content.
    File(Seq<u8>),
    /// A symbolic link with the path it points to.
    Link(Seq<char>),
    /// Anything else.
    Other,
}

/// The files after the caller performed `request` and reported `reply`.
pub open spec fn effect(
    files: Map<Seq<char>, Node>,
    request: RequestView,
    reply: Reply,
) -> Map<Seq<char>, Node> {
    match (request, reply) {
        (RequestView::Unlink { path }, Reply::Unlinked { done }) => if done {
            files.remove(path)
        } else {
            files
        },
        (RequestView::Link { target, path }, Reply::Linked { done }) => if done {
            files.insert(path, Node::Link(target))
        } else {
            files
        },
        _ => files,
    }
}

/// The batch and the files after a sequence of replies, each given to the
/// request that was pending when it came.
pub open spec fn run(
    batch: BatchView,
    files: Map<Seq<char>, Node>,
    replies: Seq<Reply>,
) -> (BatchView, Map<Seq<char>, Node>)
    decreases replies.len(),
{
    if replies.len() == 0 {
        (batch, files)
    } else {
        let (before, then) = run(batch, files, replies.drop_last());
        (advanced(before, replies.last()), effect(then, pending(before), replies.last()))
    }
}

/// Whether `path` is in `now` what it was in `start`: absent in both, or
/// present in both with the same node.
pub open spec fn untouched(
    now: Map<Seq<char>, Node>,
    start: Map<Seq<char>, Node>,
    path: Seq<char>,
) -> bool {
    now.dom().contains(path) == start.dom().contains(path) && (start.dom().contains(path)
        ==> now[path] == start[path])
}

/// Whether the files are what the batch says they are.
///
/// A duplicate recorded as removed is absent, one recorded as linked is a
/// link to the canonical path of its group, and one recorded as still a
/// duplicate is as it was. The duplicate at hand is absent while its link is
/// awaited, and as it was before that. Everything else is as it was at the
/// start: the duplicates that are still to come, and every path that is no
/// selected duplicate at all.
pub open spec fn faithful(
    batch: BatchView,
    now: Map<Seq<char>, Node>,
    start: Map<Seq<char>, Node>,
) -> bool {
    &&& forall|i: int|
        0 <= i < batch.records.len() ==> match (#[trigger] batch.records[i]).status {
            Status::Removed => !now.dom().contains(batch.records[i].path),
            Status::Linked => now.dom().contains(batch.records[i].path) && now[batch.records[i].path]
                == Node::Link(batch.tasks[i].canonical),
            _ => untouched(now, start, batch.records[i].path),
        }
    &&& forall|i: int|
        batch.records.len() <= i < batch.tasks.len() ==> if i == batch.records.len()
            && batch.phase == Phase::Link {
            !now.dom().contains((#[trigger] batch.tasks[i]).member)
        } else {
            untouched(now, start, batch.tasks[i].member)
        }
    &&& forall|path: Seq<char>|
        (forall|i: int| 0 <= i < batch.tasks.len() ==> (#[trigger] batch.tasks[i]).member != path)
            ==> #[trigger] untouched(now, start, path)
}

/// One reply keeps the files faithful to the batch.
proof fn lemma_step_faithful(
    batch: BatchView,
    now: Map<Seq<char>, Node>,
    start: Map<Seq<char>, Node>,
    reply: Reply,
)
    requires
        batch_wf(batch),
        faithful(batch, now, start),
    ensures
        faithful(advanced(batch, reply), effect(now, pending(batch), reply), start),
{
    let next = advanced(batch, reply);
    let then = effect(now, pending(batch), reply);
    lemma_advanced_well_formed(batch, reply);
    let at = batch.records.len() as int;
    if !finished(batch) {
        let member = batch.tasks[at].member;
        assert forall|path: Seq<char>| path != member implies (then.dom().contains(path)
            == now.dom().contains(path) && (now.dom().contains(path) ==> then[path]
            == now[path])) by {}
        assert forall|i: int| 0 <= i < next.records.len() implies match (
        #[trigger] next.records[i]).status {
            Status::Removed => !then.dom().contains(next.records[i].path),
            Status::Linked => then.dom().contains(next.records[i].path) && then[next.records[i].path]
                == Node::Link(next.tasks[i].canonical),
            _ => untouched(then, start, next.records[i].path),
        } by {
            if i < at {
                assert(next.records[i] == batch.records[i]);
                assert(batch.records[i].path == batch.tasks[i].member);
                assert(batch.tasks[i].member != batch.tasks[at].member);
            } else {
                assert(untouched(now, start, batch.tasks[at].member) || batch.phase
                    == Phase::Link);
            }
        }
        assert forall|i: int| next.records.len() <= i < next.tasks.len() implies if i
            == next.records.len() && next.phase == Phase::Link {
            !then.dom().contains((#[trigger] next.tasks[i]).member)
        } else {
            untouched(then, start, next.tasks[i].member)
        } by {
            if i > at {
                assert(batch.tasks[at].member != batch.tasks[i].member);
                assert(untouched(now, start, batch.tasks[i].member));
            }
        }
        assert forall|path: Seq<char>|
            (forall|i: int| 0 <= i < next.tasks.len() ==> (#[trigger] next.tasks[i]).member
                != path) implies #[trigger] untouched(then, start, path) by {
            assert(batch.tasks[at].member != path);
            assert(untouched(now, start, path));
        }
    }
}

/// Whatever the replies, the files stay faithful to the batch, and the
/// batch stays well-formed.
pub proof fn lemma_run_faithful(
    batch: BatchView,
    files: Map<Seq<char>, Node>,
    replies: Seq<Reply>,
)
    requires
        batch_wf(batch),
        batch.records.len() == 0,
        batch.phase == Phase::Inspect,
    ensures
        batch_wf(run(batch, files, replies).0),
        run(batch, files, replies).0.tasks == batch.tasks,
        run(batch, files, replies).0.transform == batch.transform,
        run(batch, files, replies).0.own_exe == batch.own_exe,
        faithful(run(batch, files, replies).0, run(batch, files, replies).1, files),
    decreases replies.len(),
{
    if replies.len() > 0 {
        let (before, then) = run(batch, files, replies.drop_last());
        lemma_run_faithful(batch, files, replies.drop_last());
        lemma_advanced_well_formed(before, replies.last());
        lemma_step_faithful(before, then, files, replies.last());
    }
}

/// Removal: every duplicate that was processed with success is gone
/// afterwards, and every canonical path is as it was.
pub proof fn lemma_delete_removes_duplicates_and_spares_canonicals(
    batch: BatchView,
    files: Map<Seq<char>, Node>,
    replies: Seq<Reply>,
)
    requires
        batch_wf(batch),
        batch.records.len() == 0,
        batch.phase == Phase::Inspect,
        batch.transform == Transform::Delete,
    ensures
        forall|i: int|
            0 <= i < run(batch, files, replies).0.records.len() && (#[trigger] run(
                batch,
                files,
                replies,
            ).0.records[i]).outcome == Outcome::Success ==> !run(
                batch,
                files,
                replies,
            ).1.dom().contains(batch.tasks[i].member),
        forall|j: int|
            0 <= j < batch.tasks.len() ==> untouched(
                run(batch, files, replies).1,
                files,
                (#[trigger] batch.tasks[j]).canonical,
            ),
{
    let (after, then) = run(batch, files, replies);
    lemma_run_faithful(batch, files, replies);
    assert forall|i: int|
        0 <= i < after.records.len() && (#[trigger] after.records[i]).outcome
            == Outcome::Success implies !then.dom().contains(batch.tasks[i].member) by {
        assert(after.records[i].status == Status::Removed);
    }
    lemma_canonicals_untouched(after, then, files);
}

/// Removal and link: every duplicate that was processed with success is
/// afterwards a link to the canonical path of its group, and every canonical
/// path is as it was, neither replaced nor removed.
pub proof fn lemma_links_lead_to_canonicals(
    batch: BatchView,
    files: Map<Seq<char>, Node>,
    replies: Seq<Reply>,
)
    requires
        batch_wf(batch),
        batch.records.len() == 0,
        batch.phase == Phase::Inspect,
        batch.transform == Transform::DeleteAndLink,
    ensures
        forall|i: int|
            0 <= i < run(batch, files, replies).0.records.len() && (#[trigger] run(
                batch,
                files,
                replies,
            ).0.records[i]).outcome == Outcome::Success ==> {
                &&& run(batch, files, replies).1.dom().contains(batch.tasks[i].member)
                &&& run(batch, files, replies).1[batch.tasks[i].member] == Node::Link(
                    batch.tasks[i].canonical,
                )
                &&& untouched(run(batch, files, replies).1, files, batch.tasks[i].canonical)
            },
        forall|j: int|
            0 <= j < batch.tasks.len() ==> untouched(
                run(batch, files, replies).1,
                files,
                (#[trigger] batch.tasks[j]).canonical,
            ),
{
    let (after, then) = run(batch, files, replies);
    lemma_run_faithful(batch, files, replies);
    lemma_canonicals_untouched(after, then, files);
    assert forall|i: int|
        0 <= i < after.records.len() && (#[trigger] after.records[i]).outcome
            == Outcome::Success implies {
        &&& then.dom().contains(batch.tasks[i].member)
        &&& then[batch.tasks[i].member] == Node::Link(batch.tasks[i].canonical)
        &&& untouched(then, files, batch.tasks[i].canonical)
    } by {
        assert(after.records[i].status == Status::Linked);
        assert(untouched(then, files, batch.tasks[i].canonical));
    }
}

/// A partial failure: where the removal succeeded and the link failed, the
/// duplicate is recorded as failed and is absent afterwards.
pub proof fn lemma_failed_link_leaves_path_absent(
    batch: BatchView,
    files: Map<Seq<char>, Node>,
    replies: Seq<Reply>,
    i: int,
)
    requires
        batch_wf(batch),
        batch.records.len() == 0,
        batch.phase == Phase::Inspect,
        0 <= i < run(batch, files, replies).0.records.len(),
        run(batch, files, replies).0.records[i].outcome == Outcome::Failed(Failure::LinkFailed),
    ensures
        run(batch, files, replies).0.records[i].path == batch.tasks[i].member,
        !run(batch, files, replies).1.dom().contains(batch.tasks[i].member),
{
    lemma_run_faithful(batch, files, replies);
    let (after, then) = run(batch, files, replies);
    assert(after.records[i].status == Status::Removed);
}

/// The program's own executable is as it was, whatever the batch did.
pub proof fn lemma_own_executable_untouched(
    batch: BatchView,
    files: Map<Seq<char>, Node>,
    replies: Seq<Reply>,
)
    requires
        batch_wf(batch),
        batch.records.len() == 0,
        batch.phase == Phase::Inspect,
    ensures
        untouched(run(batch, files, replies).1, files, batch.own_exe),
{
    lemma_run_faithful(batch, files, replies);
    let (after, then) = run(batch, files, replies);
    assert forall|i: int| 0 <= i < after.tasks.len() implies (#[trigger] after.tasks[i]).member
        != batch.own_exe by {
        assert(exclusion_of(after.tasks[i].member, EntryKind::File, after.own_exe) is None);
    }
}

/// In files that are faithful to a well-formed batch, every canonical path
/// is as it was at the start.
proof fn lemma_canonicals_untouched(
    batch: BatchView,
    now: Map<Seq<char>, Node>,
    start: Map<Seq<char>, Node>,
)
    requires
        batch_wf(batch),
        faithful(batch, now, start),
    ensures
        forall|j: int|
            0 <= j < batch.tasks.len() ==> untouched(
                now,
                start,
                (#[trigger] batch.tasks[j]).canonical,
            ),
{
    assert forall|j: int| 0 <= j < batch.tasks.len() implies untouched(
        now,
        start,
        (#[trigger] batch.tasks[j]).canonical,
    ) by {
        let path = batch.tasks[j].canonical;
        assert forall|i: int| 0 <= i < batch.tasks.len() implies (#[trigger] batch.tasks[i]).member
            != path by {}
    }
}

/// Whether a reply answers a request.
pub open spec fn answers(request: RequestView, reply: Reply) -> bool {
    match (request, reply) {
        (RequestView::Inspect { .. }, Reply::Inspected { .. }) => true,
        (RequestView::Unlink { .. }, Reply::Unlinked { .. }) => true,
        (RequestView::Link { .. }, Reply::Linked { .. }) => true,
        _ => false,
    }
}

/// An upper bound on the number of replies that a batch still takes.
pub open spec fn steps_left(batch: BatchView) -> int {
    3 * (batch.tasks.len() - batch.records.len()) - match batch.phase {
        Phase::Inspect => 0int,
        Phase::Unlink => 1int,
        Phase::Link => 2int,
    }
}

/// No failure halts a batch: every reply that answers the pending request
/// brings the batch nearer to its end, whether it reports success or not.
pub proof fn lemma_every_answer_makes_progress(batch: BatchView, reply: Reply)
    requires
        batch_wf(batch),
        !finished(batch),
        answers(pending(batch), reply),
    ensures
        0 <= steps_left(advanced(batch, reply)) < steps_left(batch),
{
}

} // verus!
