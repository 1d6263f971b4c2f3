use vstd::prelude::*;
use crate::info::{ParticipantRecord, reset_record, own_tasks, lock_state_ok, lock_next, absorb, release_disposing};
use crate::participant::ParticipantId;
use crate::state::{
    CoordinatorView, listed, position, distinct_ids, tasks_partitioned, drop_outcome,
    update_outcome, queued_contributors, queued_verifiers, next_contributors, next_verifiers,
    next_round, ids_of, chunk_locked, contributors_after_drop, try_lock_outcome, without,
    try_contribute_outcome, add_to_queue_outcome, leading_at_least, round_view_of, records_on,
    contribution_records, verifier_of, contribution_entry,
    rest_after_drop, index_before_removal, reset_if_before, lemma_drop_keeps_partition,
};
use crate::task::{Task, task_in_round, bucket_tasks};
use crate::error::CoordinatorError;
use crate::info::fresh_record;

verus! {

/// In every well-formed state, each task of the current round is held by exactly one
/// current contributor, as done, under way or to do.
pub proof fn lemma_task_has_one_holder(s: CoordinatorView, t: Task)
    requires
        s.wf(),
        task_in_round(t, s.number_of_chunks as int, s.number_of_buckets as int),
    ensures
        exists|i: int|
            0 <= i < s.contributors.len() && #[trigger] own_tasks(s.contributors[i].1).contains(t),
        forall|i: int, j: int|
            0 <= i < s.contributors.len() && 0 <= j < s.contributors.len() && #[trigger] own_tasks(
                s.contributors[i].1,
            ).contains(t) && #[trigger] own_tasks(s.contributors[j].1).contains(t) ==> i == j,
{
}

/// The queue and the round keep apart as far as the environment asks. Where current
/// participants may not queue, adding a participant succeeds only for one that is in neither
/// role of the current round. Joining the queue changes nothing but the queue, where the
/// newcomer is then listed. A round that starts empties the queue, takes only participants
/// that were queued or in the finished round, and records the finished round's participants
/// as finished.
pub proof fn lemma_queue_and_round_apart(s: CoordinatorView, p: ParticipantId, reliability: u8)
    requires
        s.wf(),
    ensures
        !s.allow_current_contributors_in_queue && !s.allow_current_verifiers_in_queue
            && add_to_queue_outcome(s, p, reliability) is Ok ==> !listed(s.contributors, p)
            && !listed(s.verifiers, p),
        add_to_queue_outcome(s, p, reliability) matches Ok(s2) ==> listed(s2.queue, p) && s2
            == (CoordinatorView { queue: s2.queue, ..s }),
        update_outcome(s) is Ok && update_outcome(s)->Ok_0.height != s.height ==> ({
            let s2 = update_outcome(s)->Ok_0;
            &&& s2.queue.len() == 0
            &&& s2.finished_contributors == ids_of(s.contributors)
            &&& s2.finished_verifiers == ids_of(s.verifiers)
            &&& forall|i: int|
                0 <= i < s2.contributors.len() ==> listed(s.queue, #[trigger] s2.contributors[i].0)
                    || listed(s.contributors, s2.contributors[i].0)
            &&& forall|i: int|
                0 <= i < s2.verifiers.len() ==> listed(s.queue, #[trigger] s2.verifiers[i].0)
                    || listed(s.verifiers, s2.verifiers[i].0)
        }),
{
    if add_to_queue_outcome(s, p, reliability) is Ok {
        if listed(s.contributors, p) {
            let i = choose|i: int| 0 <= i < s.contributors.len() && s.contributors[i].0 == p;
            assert(s.contributors[i].0 is Contributor);
        }
        if listed(s.verifiers, p) {
            let i = choose|i: int| 0 <= i < s.verifiers.len() && s.verifiers[i].0 == p;
            assert(s.verifiers[i].0 is Verifier);
        }
        let k = leading_at_least(s.queue, reliability);
        crate::state::lemma_leading_in_range(s.queue, reliability);
        assert(s.queue.insert(k, (p, reliability))[k].0 == p);
    }
    crate::state::lemma_queued_roles(s.queue);
    if update_outcome(s) is Ok && update_outcome(s)->Ok_0.height != s.height {
        let s2 = update_outcome(s)->Ok_0;
        assert(s2 == next_round(s));
        assert forall|i: int| 0 <= i < s2.contributors.len() implies listed(s.queue, #[trigger] s2.contributors[i].0)
            || listed(s.contributors, s2.contributors[i].0) by {
            assert(s2.contributors[i].0 == next_contributors(s)[i]);
            if queued_contributors(s.queue).len() == 0 {
                assert(ids_of(s.contributors)[i] == s.contributors[i].0);
            }
        }
        assert forall|i: int| 0 <= i < s2.verifiers.len() implies listed(s.queue, #[trigger] s2.verifiers[i].0)
            || listed(s.verifiers, s2.verifiers[i].0) by {
            assert(s2.verifiers[i].0 == next_verifiers(s)[i]);
            if queued_verifiers(s.queue).len() == 0 {
                assert(ids_of(s.verifiers)[i] == s.verifiers[i].0);
            }
        }
    }
}

/// The statuses of one participant around queueing and the start of a round. A participant
/// that is neither queued, nor in either role of the current round, nor finished is, once
/// `add_to_queue` takes it, queued and nothing else. A participant that is queued and not in
/// the current round is, once `update` starts the next round, current in its own role and
/// nothing else: no longer queued, not in the other role, not finished.
pub proof fn lemma_statuses_around_queueing(s: CoordinatorView, p: ParticipantId, reliability: u8)
    requires
        s.wf(),
    ensures
        !listed(s.queue, p) && !listed(s.contributors, p) && !listed(s.verifiers, p)
            && !s.finished_contributors.contains(p) && !s.finished_verifiers.contains(p)
            && add_to_queue_outcome(s, p, reliability) is Ok ==> ({
            let s2 = add_to_queue_outcome(s, p, reliability)->Ok_0;
            &&& listed(s2.queue, p)
            &&& !listed(s2.contributors, p)
            &&& !listed(s2.verifiers, p)
            &&& !s2.finished_contributors.contains(p)
            &&& !s2.finished_verifiers.contains(p)
        }),
        listed(s.queue, p) && !listed(s.contributors, p) && !listed(s.verifiers, p)
            && update_outcome(s) is Ok && update_outcome(s)->Ok_0.height != s.height ==> ({
            let s2 = update_outcome(s)->Ok_0;
            &&& !listed(s2.queue, p)
            &&& p is Contributor ==> listed(s2.contributors, p) && !listed(s2.verifiers, p)
            &&& p is Verifier ==> listed(s2.verifiers, p) && !listed(s2.contributors, p)
            &&& !s2.finished_contributors.contains(p)
            &&& !s2.finished_verifiers.contains(p)
        }),
{
    lemma_queue_and_round_apart(s, p, reliability);
    if listed(s.queue, p) && !listed(s.contributors, p) && !listed(s.verifiers, p)
        && update_outcome(s) is Ok && update_outcome(s)->Ok_0.height != s.height {
        let s2 = update_outcome(s)->Ok_0;
        assert(s2 == next_round(s));
        crate::state::lemma_listed_in_role(s.queue, p);
        crate::state::lemma_next_roster(s);
        if p is Contributor {
            let qc = queued_contributors(s.queue);
            let i = choose|i: int| 0 <= i < qc.len() && qc[i] == p;
            assert(next_contributors(s) == qc);
            assert(s2.contributors[i].0 == p);
            if listed(s2.verifiers, p) {
                let k = choose|k: int| 0 <= k < s2.verifiers.len() && s2.verifiers[k].0 == p;
                assert(next_verifiers(s)[k] == p);
            }
        } else {
            let qv = queued_verifiers(s.queue);
            let i = choose|i: int| 0 <= i < qv.len() && qv[i] == p;
            assert(next_verifiers(s) == qv);
            assert(s2.verifiers[i].0 == p);
            if listed(s2.contributors, p) {
                let k = choose|k: int| 0 <= k < s2.contributors.len() && s2.contributors[k].0 == p;
                assert(next_contributors(s)[k] == p);
            }
        }
        if s2.finished_contributors.contains(p) {
            let k = choose|k: int| 0 <= k < s2.finished_contributors.len() && s2.finished_contributors[k] == p;
            assert(s.contributors[k].0 == p);
        }
        if s2.finished_verifiers.contains(p) {
            let k = choose|k: int| 0 <= k < s2.finished_verifiers.len() && s2.finished_verifiers[k] == p;
            assert(s.verifiers[k].0 == p);
        }
    }
}

/// In every well-formed state no chunk is locked by two contributors, and no contributor
/// holds more than one lock, which belongs to the task it is working on.
pub proof fn lemma_locks_are_exclusive(s: CoordinatorView)
    requires
        s.wf(),
    ensures
        forall|i: int, j: int, x: u64|
            0 <= i < s.contributors.len() && 0 <= j < s.contributors.len()
                && #[trigger] s.contributors[i].1.locked_chunks.contains(x)
                && #[trigger] s.contributors[j].1.locked_chunks.contains(x) ==> i == j,
        forall|i: int|
            #![trigger s.contributors[i]]
            0 <= i < s.contributors.len() ==> {
                let r = s.contributors[i].1;
                &&& r.locked_chunks.len() <= 1
                &&& r.locked_chunks.len() == 1 ==> (r.pending.len() == 1 && r.pending[0].chunk_id
                    == r.locked_chunks[0]) || (r.disposing.len() == 1 && r.disposing[0].chunk_id
                    == r.locked_chunks[0])
            },
{
    assert forall|i: int|
        #![trigger s.contributors[i]]
        0 <= i < s.contributors.len() implies {
        let r = s.contributors[i].1;
        &&& r.locked_chunks.len() <= 1
        &&& r.locked_chunks.len() == 1 ==> (r.pending.len() == 1 && r.pending[0].chunk_id
            == r.locked_chunks[0]) || (r.disposing.len() == 1 && r.disposing[0].chunk_id
            == r.locked_chunks[0])
    } by {
        assert(lock_state_ok(s.contributors[i].1));
    }
}

/// Whether a contributor takes the lock on the chunk of its next task just before it is
/// dropped makes no difference: the withdrawn contributions, the remaining contributors with
/// their records and locks, the waiting and the verified contributions all come out the same;
/// only the dropped lock's chunk is struck from the chunks marked computed.
pub proof fn lemma_lock_before_drop_leaves_no_trace(s: CoordinatorView, p: ParticipantId)
    requires
        s.wf(),
        p != s.coordinator_contributor,
        try_lock_outcome(s, p) is Ok,
    ensures
        drop_outcome(s, p) is Ok,
        drop_outcome(try_lock_outcome(s, p)->Ok_0.0, p) is Ok,
        ({
            let (s1, t) = try_lock_outcome(s, p)->Ok_0;
            let (without_lock, removed0) = drop_outcome(s, p)->Ok_0;
            let (with_lock, removed1) = drop_outcome(s1, p)->Ok_0;
            &&& removed1 == removed0
            &&& with_lock == (CoordinatorView {
                computed: without(s.computed, t.chunk_id),
                ..without_lock
            })
        }),
{
    let (s1, t) = try_lock_outcome(s, p)->Ok_0;
    let i = position(s.contributors, p);
    let r = s.contributors[i].1;
    assert(s1.contributors == s.contributors.update(i, (p, lock_next(r))));
    assert(s1.contributors[i].0 == p);
    assert(listed(s1.contributors, p));
    assert(distinct_ids(s1.contributors)) by {
        assert forall|a: int, b: int| 0 <= a < s1.contributors.len() && 0 <= b < s1.contributors.len() && a != b implies s1.contributors[a].0
            != s1.contributors[b].0 by {
            assert(s1.contributors[a].0 == s.contributors[a].0);
            assert(s1.contributors[b].0 == s.contributors[b].0);
        }
    }
    lemma_after_position(s1.contributors, i);
    assert(position(s1.contributors, p) == i);
    let g1 = lock_next(r);
    assert(own_tasks(g1) =~= own_tasks(r));
    assert(s1.contributors.remove(i) =~= s.contributors.remove(i));
    assert(rest_after_drop(s1.contributors, i) == rest_after_drop(s.contributors, i));
    assert(contributors_after_drop(s1.contributors, i, s.coordinator_contributor)
        == contributors_after_drop(s.contributors, i, s.coordinator_contributor));
    assert(g1.locked_chunks =~= seq![t.chunk_id]);
}

/// Where a remaining contributor stands after a drop: the coordinator's own contributor, if it
/// was in the round, keeps its (possibly restarted) record and gains the dropped tasks; any
/// other keeps its (possibly restarted) record.
proof fn lemma_record_after_drop(s: CoordinatorView, p: ParticipantId, q: ParticipantId)
    requires
        s.wf(),
        s.height is Some,
        p != s.coordinator_contributor,
        listed(s.contributors, p),
        listed(s.contributors, q),
        q != p,
    ensures
        ({
            let s2 = drop_outcome(s, p)->Ok_0.0;
            let gone = s.contributors[position(s.contributors, p)].1;
            let r = reset_if_before(s.contributors[position(s.contributors, q)], gone.bucket_id).1;
            &&& drop_outcome(s, p) is Ok
            &&& listed(s2.contributors, q)
            &&& s2.contributors[position(s2.contributors, q)].1 == (if q
                == s.coordinator_contributor {
                absorb(r, own_tasks(gone))
            } else {
                r
            })
        }),
{
    lemma_drop_contributor(s, p);
    if q == s.coordinator_contributor {
        let people = s.contributors;
        let d = position(people, p);
        let c = position(people, q);
        let gone = people[d].1;
        let rest = rest_after_drop(people, d);
        let after = contributors_after_drop(people, d, q);
        crate::state::lemma_drop_keeps_contributors_wf(s, d);
        let k = if c < d {
            c
        } else {
            c - 1
        };
        assert(c != d);
        assert(index_before_removal(k, d) == c);
        assert(people.remove(d)[k] == people[c]);
        assert(rest[k] == reset_if_before(people[c], gone.bucket_id));
        lemma_after_position(rest, k);
        assert(after == rest.update(k, (q, absorb(rest[k].1, own_tasks(gone)))));
        assert(after[k].0 == q);
        lemma_after_position(after, k);
    }
}

/// In every well-formed state, a contributor whose work on a task is being disposed holds the
/// lock on that task's chunk and still has the task among its tasks to do. Handing in that
/// chunk succeeds, releases the lock, so nobody holds the chunk, sets the disposing task aside
/// with nothing waiting for verification, and leaves the tasks to do as they are.
pub proof fn lemma_disposing_chunk_released(s: CoordinatorView, q: ParticipantId)
    requires
        s.wf(),
        s.height is Some,
        listed(s.contributors, q),
        s.contributors[position(s.contributors, q)].1.disposing.len() == 1,
    ensures
        ({
            let r = s.contributors[position(s.contributors, q)].1;
            let t = r.disposing[0];
            &&& r.assigned.contains(t)
            &&& r.locked_chunks == seq![t.chunk_id]
            &&& try_contribute_outcome(s, q, t.chunk_id) is Ok
            &&& ({
                let s3 = try_contribute_outcome(s, q, t.chunk_id)->Ok_0;
                let r3 = s3.contributors[position(s3.contributors, q)].1;
                &&& listed(s3.contributors, q)
                &&& r3.locked_chunks.len() == 0
                &&& r3.disposing.len() == 0
                &&& r3.assigned == r.assigned
                &&& r3.assigned.contains(t)
                &&& !chunk_locked(s3.contributors, t.chunk_id)
                &&& s3.pending_verifications == s.pending_verifications
            })
        }),
{
    let j = position(s.contributors, q);
    let r = s.contributors[j].1;
    let t = r.disposing[0];
    assert(lock_state_ok(r));
    assert(r.locked_chunks =~= seq![t.chunk_id]);
    assert(s.contributors[j].0 == q);
    assert(q is Contributor);
    let s3 = try_contribute_outcome(s, q, t.chunk_id)->Ok_0;
    assert(s3.contributors == s.contributors.update(j, (q, release_disposing(r))));
    assert(distinct_ids(s3.contributors)) by {
        assert forall|a: int, b: int| 0 <= a < s3.contributors.len() && 0 <= b < s3.contributors.len() && a != b implies s3.contributors[a].0
            != s3.contributors[b].0 by {
            assert(s3.contributors[a].0 == s.contributors[a].0);
            assert(s3.contributors[b].0 == s.contributors[b].0);
        }
    }
    lemma_after_position(s3.contributors, j);
    assert(!chunk_locked(s3.contributors, t.chunk_id)) by {
        if chunk_locked(s3.contributors, t.chunk_id) {
            let k = choose|k: int| 0 <= k < s3.contributors.len() && s3.contributors[k].1.locked_chunks.contains(t.chunk_id);
            assert(k != j);
            assert(s.contributors[k].1.locked_chunks.contains(t.chunk_id));
            assert(s.contributors[j].1.locked_chunks.contains(t.chunk_id));
        }
    }
}

/// When a contributor is dropped, each contributor whose bucket comes before its bucket and
/// that was working on a task (holding its chunk locked) sees that task disposed: the task is
/// disposing, its chunk stays locked, and it is again among the tasks to do. Handing in that
/// chunk then releases the lock, so nobody holds the chunk, sets the disposing task aside
/// without anything waiting for verification, and leaves the tasks to do as they are.
pub proof fn lemma_disposed_task_releases_lock(s: CoordinatorView, p: ParticipantId, q: ParticipantId)
    requires
        s.wf(),
        s.height is Some,
        p != s.coordinator_contributor,
        listed(s.contributors, p),
        listed(s.contributors, q),
        q != p,
        s.contributors[position(s.contributors, q)].1.pending.len() == 1,
        s.contributors[position(s.contributors, q)].1.bucket_id < s.contributors[position(
            s.contributors,
            p,
        )].1.bucket_id,
    ensures
        drop_outcome(s, p) is Ok,
        ({
            let t = s.contributors[position(s.contributors, q)].1.pending[0];
            let s2 = drop_outcome(s, p)->Ok_0.0;
            let r2 = s2.contributors[position(s2.contributors, q)].1;
            &&& listed(s2.contributors, q)
            &&& r2.disposing == seq![t]
            &&& r2.locked_chunks == seq![t.chunk_id]
            &&& r2.pending.len() == 0
            &&& r2.assigned.contains(t)
            &&& try_contribute_outcome(s2, q, t.chunk_id) is Ok
            &&& ({
                let s3 = try_contribute_outcome(s2, q, t.chunk_id)->Ok_0;
                let r3 = s3.contributors[position(s3.contributors, q)].1;
                &&& listed(s3.contributors, q)
                &&& r3.locked_chunks.len() == 0
                &&& r3.disposing.len() == 0
                &&& r3.assigned == r2.assigned
                &&& !chunk_locked(s3.contributors, t.chunk_id)
                &&& s3.pending_verifications == s2.pending_verifications
            })
        }),
{
    let i = position(s.contributors, q);
    let r = s.contributors[i].1;
    let t = r.pending[0];
    assert(lock_state_ok(r));
    lemma_record_after_drop(s, p, q);
    lemma_drop_contributor(s, p);
    let s2 = drop_outcome(s, p)->Ok_0.0;
    let j = position(s2.contributors, q);
    let r2 = s2.contributors[j].1;
    assert(reset_record(r).disposing =~= seq![t]);
    assert(own_tasks(r).contains(t)) by {
        assert(own_tasks(r)[r.completed.len() as int] == t);
    }
    if q == s.coordinator_contributor {
        let gone = s.contributors[position(s.contributors, p)].1;
        assert(r2.assigned == own_tasks(r) + own_tasks(gone));
        assert(r2.assigned[r.completed.len() as int] == t);
    }
    assert(r2.locked_chunks =~= seq![t.chunk_id]);
    assert(s2.contributors[j].0 == q);
    assert(q is Contributor);
    let s3 = try_contribute_outcome(s2, q, t.chunk_id)->Ok_0;
    assert(s3.contributors == s2.contributors.update(j, (q, release_disposing(r2))));
    assert(distinct_ids(s3.contributors)) by {
        assert forall|a: int, b: int| 0 <= a < s3.contributors.len() && 0 <= b < s3.contributors.len() && a != b implies s3.contributors[a].0
            != s3.contributors[b].0 by {
            assert(s3.contributors[a].0 == s2.contributors[a].0);
            assert(s3.contributors[b].0 == s2.contributors[b].0);
        }
    }
    lemma_after_position(s3.contributors, j);
    assert(!chunk_locked(s3.contributors, t.chunk_id)) by {
        if chunk_locked(s3.contributors, t.chunk_id) {
            let k = choose|k: int| 0 <= k < s3.contributors.len() && s3.contributors[k].1.locked_chunks.contains(t.chunk_id);
            assert(k != j);
            assert(s2.contributors[k].1.locked_chunks.contains(t.chunk_id));
            assert(s2.contributors[j].1.locked_chunks.contains(t.chunk_id));
        }
    }
}

/// Dropping a contributor takes it out of the round and releases its lock; the coordinator's
/// own contributor is then in the round; every other contributor stays; those whose bucket
/// comes before the dropped one's start over with all their tasks, the others keep their
/// records unchanged (the coordinator's own contributor gains the dropped one's tasks); and
/// the withdrawn contributions are the dropped contributor's completed tasks.
pub proof fn lemma_drop_contributor(s: CoordinatorView, p: ParticipantId)
    requires
        s.wf(),
        s.height is Some,
        p != s.coordinator_contributor,
        listed(s.contributors, p),
    ensures
        drop_outcome(s, p) is Ok,
        ({
            let (s2, removed) = drop_outcome(s, p)->Ok_0;
            let gone = s.contributors[position(s.contributors, p)].1;
            &&& !listed(s2.contributors, p)
            &&& listed(s2.contributors, s.coordinator_contributor)
            &&& removed == gone.completed
            &&& forall|x: u64| #[trigger] gone.locked_chunks.contains(x) ==> !chunk_locked(
                s2.contributors,
                x,
            )
            &&& forall|i: int|
                #![trigger s.contributors[i]]
                0 <= i < s.contributors.len() && s.contributors[i].0 != p
                    && s.contributors[i].0 != s.coordinator_contributor ==> {
                    let q = s.contributors[i].0;
                    let r = s.contributors[i].1;
                    &&& listed(s2.contributors, q)
                    &&& s2.contributors[position(s2.contributors, q)].1 == (if r.bucket_id
                        < gone.bucket_id {
                        reset_record(r)
                    } else {
                        r
                    })
                }
            &&& s2.wf()
        }),
{
    let d = position(s.contributors, p);
    let people = s.contributors;
    let gone = people[d].1;
    let rest = rest_after_drop(people, d);
    let (s2, removed) = drop_outcome(s, p)->Ok_0;
    let after = s2.contributors;
    assert(after == contributors_after_drop(people, d, s.coordinator_contributor));
    crate::state::lemma_drop_keeps_contributors_wf(s, d);
    crate::state::lemma_records_after_drop(
        people,
        s.pending_verifications,
        s.verified,
        d,
        s.coordinator_contributor,
    );
    assert forall|k: int| 0 <= k < rest.len() implies #[trigger] rest[k] == reset_if_before(
        people[index_before_removal(k, d)],
        gone.bucket_id,
    ) by {
        assert(people.remove(d)[k] == people[index_before_removal(k, d)]);
    }
    assert(distinct_ids(rest)) by {
        assert forall|a: int, b: int| 0 <= a < rest.len() && 0 <= b < rest.len() && a != b implies rest[a].0
            != rest[b].0 by {
            assert(rest[a].0 == people[index_before_removal(a, d)].0);
            assert(rest[b].0 == people[index_before_removal(b, d)].0);
        }
    }
    // Where each remaining contributor stands after the drop.
    assert forall|i: int|
        #![trigger s.contributors[i]]
        0 <= i < s.contributors.len() && s.contributors[i].0 != p && s.contributors[i].0
            != s.coordinator_contributor implies {
        let q = s.contributors[i].0;
        let r = s.contributors[i].1;
        &&& listed(s2.contributors, q)
        &&& s2.contributors[position(s2.contributors, q)].1 == (if r.bucket_id < gone.bucket_id {
            reset_record(r)
        } else {
            r
        })
    } by {
        let k = if i < d {
            i
        } else {
            i - 1
        };
        assert(i != d);
        assert(index_before_removal(k, d) == i);
        assert(rest[k] == reset_if_before(people[i], gone.bucket_id));
        assert(after[k] == rest[k]);
        lemma_after_position(after, k);
    }
    assert(!listed(after, p)) by {
        if listed(after, p) {
            let k = choose|k: int| 0 <= k < after.len() && after[k].0 == p;
            if k < rest.len() && after[k] == rest[k] {
                assert(rest[k].0 == people[index_before_removal(k, d)].0);
                assert(index_before_removal(k, d) != d);
            } else if k < rest.len() {
                assert(after[k].0 == s.coordinator_contributor);
            } else {
                assert(after[k].0 == s.coordinator_contributor);
            }
        }
    }
    if listed(rest, s.coordinator_contributor) {
        let r = position(rest, s.coordinator_contributor);
        assert(after[r].0 == s.coordinator_contributor);
    } else {
        assert(after[rest.len() as int].0 == s.coordinator_contributor);
    }
    assert forall|x: u64| #[trigger] gone.locked_chunks.contains(x) implies !chunk_locked(
        s2.contributors,
        x,
    ) by {
        if chunk_locked(after, x) {
            let k = choose|k: int| 0 <= k < after.len() && after[k].1.locked_chunks.contains(x);
            if k < rest.len() {
                let i = index_before_removal(k, d);
                assert(rest[k].1.locked_chunks == people[i].1.locked_chunks);
                assert(after[k].1.locked_chunks == rest[k].1.locked_chunks);
                assert(people[i].1.locked_chunks.contains(x));
                assert(people[d].1.locked_chunks.contains(x));
            } else {
                assert(after[k].1 == fresh_record(gone.bucket_id, own_tasks(gone)));
            }
        }
    }
}

proof fn lemma_after_position(people: Seq<(ParticipantId, ParticipantRecord)>, k: int)
    requires
        distinct_ids(people),
        0 <= k < people.len(),
    ensures
        listed(people, people[k].0),
        position(people, people[k].0) == k,
{
}

/// When the current round is finished and the next round has contributors and verifiers,
/// the next round starts: the queue empties; its contributors are the queued ones in queue
/// order, or, when no contributor is queued, those of the finished round in bucket order; each
/// joins at the bucket of its place with that bucket's task list; its verifiers are the queued
/// ones, or, when no verifier is queued, those of the finished round.
pub proof fn lemma_update_starts_next_round(s: CoordinatorView)
    requires
        s.wf(),
        s.height is Some,
        s.height->0 < u64::MAX,
        s.round_finished(),
        next_contributors(s).len() > 0,
        next_verifiers(s).len() > 0,
    ensures
        next_contributors(s) == (if queued_contributors(s.queue).len() > 0 {
            queued_contributors(s.queue)
        } else {
            ids_of(s.contributors)
        }),
        next_verifiers(s) == (if queued_verifiers(s.queue).len() > 0 {
            queued_verifiers(s.queue)
        } else {
            ids_of(s.verifiers)
        }),
        update_outcome(s) is Ok,
        ({
            let s2 = update_outcome(s)->Ok_0;
            let n = next_contributors(s).len() as int;
            &&& s2.height == Some((s.height->0 + 1) as u64)
            &&& s2.queue.len() == 0
            &&& s2.contributors.len() == n
            &&& forall|i: int|
                0 <= i < n ==> #[trigger] s2.contributors[i].0 == next_contributors(s)[i]
                    && s2.contributors[i].1.assigned == bucket_tasks(
                    i,
                    s.number_of_chunks as int,
                    n,
                ) && s2.contributors[i].1.bucket_id == i
            &&& forall|i: int|
                0 <= i < next_verifiers(s).len() ==> listed(
                    s2.verifiers,
                    #[trigger] next_verifiers(s)[i],
                )
            &&& s2.finished_contributors == ids_of(s.contributors)
            &&& s2.finished_verifiers == ids_of(s.verifiers)
            &&& s2.wf()
        }),
{
    let s2 = update_outcome(s)->Ok_0;
    crate::state::lemma_next_round_wf(s);
    assert forall|i: int| 0 <= i < next_verifiers(s).len() implies listed(
        s2.verifiers,
        #[trigger] next_verifiers(s)[i],
    ) by {
        assert(s2.verifiers[i].0 == next_verifiers(s)[i]);
    }
}

/// Queueing again exactly the participants of the current round, and nobody else, changes
/// nothing of what `update` does once that round is finished: with an empty queue the next
/// round takes them anyway. (Before then, `update` leaves either state as it is, queue and
/// all.) Both states are refused alike.
pub proof fn lemma_requeue_changes_nothing(s: CoordinatorView, t: CoordinatorView)
    requires
        s.queue.len() == 0,
        t == (CoordinatorView { queue: t.queue, ..s }),
        queued_contributors(t.queue) == ids_of(s.contributors),
        queued_verifiers(t.queue) == ids_of(s.verifiers),
    ensures
        update_outcome(s) is Err <==> update_outcome(t) is Err,
        update_outcome(s) is Err ==> update_outcome(s) == update_outcome(t),
        s.height is Some && s.round_finished() && s.contributors.len() > 0 && s.verifiers.len()
            > 0 ==> update_outcome(s) == update_outcome(t),
{
    assert(queued_contributors(s.queue) =~= Seq::<ParticipantId>::empty());
    assert(queued_verifiers(s.queue) =~= Seq::<ParticipantId>::empty());
    assert(next_contributors(s) == next_contributors(t));
    assert(next_verifiers(s) == next_verifiers(t));
    assert(s.round_finished() == t.round_finished());
    assert(next_round(s) == next_round(t));
}


/// A round gives way to the next only when it is finished: when `update` moves the ceremony
/// to a new round, no contribution of the old round waits for verification, every current
/// contributor has done all its tasks, and no chunk is locked.
pub proof fn lemma_round_advances_only_when_all_verified(s: CoordinatorView)
    ensures
        update_outcome(s) is Ok && update_outcome(s)->Ok_0.height != s.height ==> {
            &&& s.pending_verifications.len() == 0
            &&& forall|i: int|
                0 <= i < s.contributors.len() ==> (#[trigger] s.contributors[i]).1.assigned.len()
                    == 0 && s.contributors[i].1.locked_chunks.len() == 0
        },
{
}

/// A contributor may lock a chunk only for its next task, only while nobody holds that
/// chunk, and, beyond the first contribution to the chunk, only once the contribution just
/// before its own on that chunk has been verified. The lock it gets is on that chunk alone.
pub proof fn lemma_lock_needs_previous_verified(s: CoordinatorView, p: ParticipantId)
    ensures
        try_lock_outcome(s, p) is Ok ==> ({
            let (s1, t) = try_lock_outcome(s, p)->Ok_0;
            let r = s.contributors[position(s.contributors, p)].1;
            &&& listed(s.contributors, p)
            &&& r.assigned.len() > 0 && t == r.assigned[0]
            &&& r.locked_chunks.len() == 0
            &&& !chunk_locked(s.contributors, t.chunk_id)
            &&& t.contribution_id > 1 ==> exists|i: int|
                0 <= i < s.verified.len() && s.verified[i].0.chunk_id == t.chunk_id
                    && s.verified[i].0.contribution_id + 1 == t.contribution_id
            &&& s1.contributors[position(s.contributors, p)].1.locked_chunks == seq![t.chunk_id]
        }),
{
    if try_lock_outcome(s, p) is Ok {
        let (s1, t) = try_lock_outcome(s, p)->Ok_0;
        let r = s.contributors[position(s.contributors, p)].1;
        assert(r.locked_chunks.push(t.chunk_id) =~= seq![t.chunk_id]);
        if t.contribution_id > 1 {
            let prev = Task { chunk_id: t.chunk_id, contribution_id: (t.contribution_id - 1) as u64 };
            let i = choose|i: int| 0 <= i < s.verified.len() && s.verified[i].0 == prev;
            assert(s.verified[i].0.chunk_id == t.chunk_id);
        }
    }
}

/// The entries of `records_on(records, chunk)` are entries of `records` on that chunk.
proof fn lemma_records_on_chunk(records: Seq<(Task, ParticipantId)>, chunk: u64)
    ensures
        forall|j: int|
            0 <= j < records_on(records, chunk).len() ==> (#[trigger] records_on(records, chunk)[j]).0.chunk_id
                == chunk,
    decreases records.len(),
{
    if records.len() > 0 {
        let rest = records_on(records.drop_last(), chunk);
        lemma_records_on_chunk(records.drop_last(), chunk);
        if records.last().0.chunk_id == chunk {
            assert forall|j: int| 0 <= j < rest.push(records.last()).len() implies (#[trigger] rest.push(
                records.last(),
            )[j]).0.chunk_id == chunk by {
                if j < rest.len() {
                    assert(rest.push(records.last())[j] == rest[j]);
                }
            }
        }
    }
}

/// Who verified a task: someone exactly when the task is among the verified contributions,
/// and then one who is recorded as its verifier.
proof fn lemma_verifier_of(verified: Seq<(Task, ParticipantId, ParticipantId)>, t: Task)
    ensures
        verifier_of(verified, t) is Some <==> exists|i: int| 0 <= i < verified.len() && verified[i].0 == t,
        verifier_of(verified, t) is Some ==> exists|i: int|
            0 <= i < verified.len() && verified[i].0 == t && verified[i].2 == verifier_of(verified, t)->0,
    decreases verified.len(),
{
    if verified.len() > 0 {
        let rest = verified.drop_last();
        lemma_verifier_of(rest, t);
        if verified.last().0 != t {
            if exists|i: int| 0 <= i < verified.len() && verified[i].0 == t {
                let i = choose|i: int| 0 <= i < verified.len() && verified[i].0 == t;
                assert(i < verified.len() - 1);
                assert(rest[i] == verified[i]);
            }
            if verifier_of(rest, t) is Some {
                let i = choose|i: int|
                    0 <= i < rest.len() && rest[i].0 == t && rest[i].2 == verifier_of(rest, t)->0;
                assert(verified[i] == rest[i]);
            }
        } else {
            assert(verified[verified.len() - 1] == verified.last());
        }
    }
}

/// The snapshot of a round shows, for every chunk, contributions to that chunk only, each
/// marked verified, with a verifier, exactly when that very contribution (the chunk and the
/// contribution id) is among the verified contributions, and then with a verifier recorded
/// for it.
pub proof fn lemma_snapshot_marks_each_contribution(s: CoordinatorView, c: int, j: int)
    requires
        0 <= c < s.number_of_chunks,
        0 <= j < round_view_of(s).chunks[c].contributions.len(),
    ensures
        ({
            let e = round_view_of(s).chunks[c].contributions[j];
            let t = Task { chunk_id: c as u64, contribution_id: e.0 };
            &&& round_view_of(s).chunks[c].chunk_id == c
            &&& e.1.contributor is Some
            &&& e.1.verified <==> exists|i: int| 0 <= i < s.verified.len() && s.verified[i].0 == t
            &&& e.1.verified <==> e.1.verifier is Some
            &&& e.1.verifier is Some ==> exists|i: int|
                0 <= i < s.verified.len() && s.verified[i].0 == t && s.verified[i].2
                    == e.1.verifier->0
        }),
{
    let recs = records_on(contribution_records(s.contributors), c as u64);
    lemma_records_on_chunk(contribution_records(s.contributors), c as u64);
    let r = recs[j];
    assert(r.0.chunk_id == c);
    let e = round_view_of(s).chunks[c].contributions[j];
    assert(e == contribution_entry(s.verified, r));
    assert(r.0 == Task { chunk_id: c as u64, contribution_id: e.0 });
    lemma_verifier_of(s.verified, r.0);
}

/// A current verifier may not queue for the next round where the environment does not allow
/// it, whatever it allows contributors; and likewise a current contributor.
pub proof fn lemma_current_participants_queue_only_if_allowed(
    s: CoordinatorView,
    p: ParticipantId,
    reliability: u8,
)
    requires
        s.height is Some,
        !listed(s.queue, p),
    ensures
        p is Verifier && listed(s.verifiers, p) && !s.allow_current_verifiers_in_queue
            ==> add_to_queue_outcome(s, p, reliability) == Err::<CoordinatorView, CoordinatorError>(
            CoordinatorError::ParticipantInCurrentRoundCannotJoinQueue,
        ),
        p is Contributor && listed(s.contributors, p) && !s.allow_current_contributors_in_queue
            ==> add_to_queue_outcome(s, p, reliability) == Err::<CoordinatorView, CoordinatorError>(
            CoordinatorError::ParticipantInCurrentRoundCannotJoinQueue,
        ),
{
}

/// When a contributor is dropped and the coordinator's own contributor is not in the round,
/// the coordinator's contributor joins it in the dropped one's place: at its bucket, with all
/// its tasks to do, and nothing done, under way or locked.
pub proof fn lemma_replacement_takes_bucket(s: CoordinatorView, p: ParticipantId)
    requires
        s.wf(),
        s.height is Some,
        p != s.coordinator_contributor,
        listed(s.contributors, p),
        !listed(s.contributors, s.coordinator_contributor),
    ensures
        ({
            let gone = s.contributors[position(s.contributors, p)].1;
            let s2 = drop_outcome(s, p)->Ok_0.0;
            let r = s2.contributors[position(s2.contributors, s.coordinator_contributor)].1;
            &&& drop_outcome(s, p) is Ok
            &&& listed(s2.contributors, s.coordinator_contributor)
            &&& r.bucket_id == gone.bucket_id
            &&& r.assigned == own_tasks(gone)
            &&& r.completed.len() == 0 && r.pending.len() == 0 && r.locked_chunks.len() == 0
        }),
{
    let people = s.contributors;
    let d = position(people, p);
    let gone = people[d].1;
    let q = s.coordinator_contributor;
    let rest = rest_after_drop(people, d);
    let after = contributors_after_drop(people, d, q);
    lemma_drop_contributor(s, p);
    crate::state::lemma_drop_keeps_contributors_wf(s, d);
    if listed(rest, q) {
        let k = choose|k: int| 0 <= k < rest.len() && rest[k].0 == q;
        assert(people.remove(d)[k] == people[index_before_removal(k, d)]);
        assert(rest[k].0 == people[index_before_removal(k, d)].0);
    }
    assert(after == rest.push((q, fresh_record(gone.bucket_id, own_tasks(gone)))));
    assert(after[rest.len() as int].0 == q);
    lemma_after_position(after, rest.len() as int);
}

} // verus!
