use vstd::prelude::*;
use crate::environment::{Environment, coordinator_contributor_id};
use crate::error::CoordinatorError;
use crate::info::{
    ParticipantInfo, ParticipantRecord, own_tasks, lock_state_ok, lock_next, finish_pending,
    release_disposing, reset_record, absorb, record_completed, fresh_record,
};
use crate::participant::{Participant, ParticipantId};
use crate::locator::{contribution_locator, locator_text};
use crate::round::{Chunk, ChunkView, Contribution, ContributionView, Round, RoundView, chunks_view, contributions_view, optional_id};
use crate::task::{Task, task_in_round, bucket_tasks, initialize_tasks, lemma_round_tasks_partition};

verus! {

/// The coordinator's state as a mathematical value.
pub struct CoordinatorView {
    pub number_of_chunks: u64,
    pub allow_current_contributors_in_queue: bool,
    pub allow_current_verifiers_in_queue: bool,
    /// The coordinator's own contributor, which takes over the tasks of dropped contributors.
    pub coordinator_contributor: ParticipantId,
    /// The current round, none before the ceremony is initialized.
    pub height: Option<u64>,
    /// How many contributors the current round started with: its number of buckets.
    pub number_of_buckets: u64,
    /// Participants waiting for the next round, by non-increasing reliability.
    pub queue: Seq<(ParticipantId, u8)>,
    pub contributors: Seq<(ParticipantId, ParticipantRecord)>,
    pub verifiers: Seq<(ParticipantId, ParticipantRecord)>,
    pub finished_contributors: Seq<ParticipantId>,
    pub finished_verifiers: Seq<ParticipantId>,
    pub dropped: Seq<ParticipantId>,
    /// Chunks whose lock holder has computed its contribution.
    pub computed: Seq<u64>,
    /// Contributions waiting for verification, oldest first, with their contributor.
    pub pending_verifications: Seq<(Task, ParticipantId)>,
    /// Verified contributions with their contributor and verifier.
    pub verified: Seq<(Task, ParticipantId, ParticipantId)>,
}

/// The state of a ceremony coordinator.
pub struct CoordinatorState {
    number_of_chunks: u64,
    allow_current_contributors_in_queue: bool,
    allow_current_verifiers_in_queue: bool,
    coordinator_contributor: Participant,
    current_round_height: Option<u64>,
    number_of_buckets: u64,
    queue: Vec<(Participant, u8)>,
    current_contributors: Vec<(Participant, ParticipantInfo)>,
    current_verifiers: Vec<(Participant, ParticipantInfo)>,
    finished_contributors: Vec<Participant>,
    finished_verifiers: Vec<Participant>,
    dropped_participants: Vec<Participant>,
    computed_chunks: Vec<u64>,
    pending_verifications: Vec<(Task, Participant)>,
    verified_contributions: Vec<(Task, Participant, Participant)>,
}

pub open spec fn people_view(v: Seq<(Participant, ParticipantInfo)>) -> Seq<
    (ParticipantId, ParticipantRecord),
> {
    v.map_values(|e: (Participant, ParticipantInfo)| (e.0@, e.1@))
}

pub open spec fn ids_view(v: Seq<Participant>) -> Seq<ParticipantId> {
    v.map_values(|p: Participant| p@)
}

impl View for CoordinatorState {
    type V = CoordinatorView;

    closed spec fn view(&self) -> CoordinatorView {
        CoordinatorView {
            number_of_chunks: self.number_of_chunks,
            allow_current_contributors_in_queue: self.allow_current_contributors_in_queue,
            allow_current_verifiers_in_queue: self.allow_current_verifiers_in_queue,
            coordinator_contributor: self.coordinator_contributor@,
            height: self.current_round_height,
            number_of_buckets: self.number_of_buckets,
            queue: self.queue@.map_values(|e: (Participant, u8)| (e.0@, e.1)),
            contributors: people_view(self.current_contributors@),
            verifiers: people_view(self.current_verifiers@),
            finished_contributors: ids_view(self.finished_contributors@),
            finished_verifiers: ids_view(self.finished_verifiers@),
            dropped: ids_view(self.dropped_participants@),
            computed: self.computed_chunks@,
            pending_verifications: self.pending_verifications@.map_values(
                |e: (Task, Participant)| (e.0, e.1@),
            ),
            verified: self.verified_contributions@.map_values(
                |e: (Task, Participant, Participant)| (e.0, e.1@, e.2@),
            ),
        }
    }
}

/// Whether `p` is listed in `s`.
pub open spec fn listed<T>(s: Seq<(ParticipantId, T)>, p: ParticipantId) -> bool {
    exists|i: int| 0 <= i < s.len() && s[i].0 == p
}

/// Where `p` is listed in `s`, or -1.
pub open spec fn position<T>(s: Seq<(ParticipantId, T)>, p: ParticipantId) -> int {
    if listed(s, p) {
        choose|i: int| 0 <= i < s.len() && s[i].0 == p
    } else {
        -1
    }
}

pub open spec fn distinct_ids<T>(s: Seq<(ParticipantId, T)>) -> bool {
    forall|i: int, j: int| 0 <= i < s.len() && 0 <= j < s.len() && i != j ==> s[i].0 != s[j].0
}

/// The contributors waiting in `queue`, in queue order.
pub open spec fn queued_contributors(queue: Seq<(ParticipantId, u8)>) -> Seq<ParticipantId>
    decreases queue.len(),
{
    if queue.len() == 0 {
        Seq::empty()
    } else {
        let rest = queued_contributors(queue.drop_last());
        if queue.last().0 is Contributor {
            rest.push(queue.last().0)
        } else {
            rest
        }
    }
}

/// The verifiers waiting in `queue`, in queue order.
pub open spec fn queued_verifiers(queue: Seq<(ParticipantId, u8)>) -> Seq<ParticipantId>
    decreases queue.len(),
{
    if queue.len() == 0 {
        Seq::empty()
    } else {
        let rest = queued_verifiers(queue.drop_last());
        if queue.last().0 is Verifier {
            rest.push(queue.last().0)
        } else {
            rest
        }
    }
}

/// Whether some contributor holds the lock on `chunk`.
pub open spec fn chunk_locked(people: Seq<(ParticipantId, ParticipantRecord)>, chunk: u64) -> bool {
    exists|i: int| 0 <= i < people.len() && people[i].1.locked_chunks.contains(chunk)
}

/// Whether the contribution of task `t` has been verified.
pub open spec fn contribution_verified(verified: Seq<(Task, ParticipantId, ParticipantId)>, t: Task) -> bool {
    exists|i: int| 0 <= i < verified.len() && verified[i].0 == t
}

/// The tasks of the round are spread over the contributors' own task lists: every listed
/// task belongs to the round, every task of the round is listed once, by one contributor.
pub open spec fn tasks_partitioned(
    people: Seq<(ParticipantId, ParticipantRecord)>,
    chunks: int,
    buckets: int,
) -> bool {
    &&& forall|i: int, t: Task|
        0 <= i < people.len() && #[trigger] own_tasks(people[i].1).contains(t) ==> task_in_round(
            t,
            chunks,
            buckets,
        )
    &&& forall|t: Task|
        #![trigger task_in_round(t, chunks, buckets)]
        task_in_round(t, chunks, buckets) ==> exists|i: int|
            0 <= i < people.len() && #[trigger] own_tasks(people[i].1).contains(t)
    &&& forall|i: int, j: int, t: Task|
        0 <= i < people.len() && 0 <= j < people.len() && #[trigger] own_tasks(
            people[i].1,
        ).contains(t) && #[trigger] own_tasks(people[j].1).contains(t) ==> i == j
    &&& forall|i: int| 0 <= i < people.len() ==> #[trigger] own_tasks(people[i].1).no_duplicates()
}

/// No chunk is locked by two contributors.
pub open spec fn locks_exclusive(people: Seq<(ParticipantId, ParticipantRecord)>) -> bool {
    forall|i: int, j: int, x: u64|
        0 <= i < people.len() && 0 <= j < people.len() && #[trigger] people[i].1.locked_chunks.contains(x)
            && #[trigger] people[j].1.locked_chunks.contains(x) ==> i == j
}

/// The queue is ordered by non-increasing reliability.
pub open spec fn queue_sorted(queue: Seq<(ParticipantId, u8)>) -> bool {
    forall|i: int, j: int| 0 <= i < j < queue.len() ==> queue[i].1 >= queue[j].1
}

impl CoordinatorView {
    pub open spec fn wf(self) -> bool {
        &&& self.number_of_chunks >= 1
        &&& self.coordinator_contributor is Contributor
        &&& self.height is None ==> self.queue.len() == 0 && self.contributors.len() == 0
            && self.verifiers.len() == 0
        &&& distinct_ids(self.queue)
        &&& queue_sorted(self.queue)
        &&& queued_contributors(self.queue).len() <= self.number_of_chunks
        &&& self.contributors.len() <= self.number_of_chunks
        &&& distinct_ids(self.contributors)
        &&& distinct_ids(self.verifiers)
        &&& forall|i: int| 0 <= i < self.contributors.len() ==> #[trigger] self.contributors[i].0 is Contributor
        &&& forall|i: int| 0 <= i < self.verifiers.len() ==> #[trigger] self.verifiers[i].0 is Verifier
        &&& self.number_of_buckets <= self.number_of_chunks
        &&& self.contributors.len() > 0 ==> self.number_of_buckets >= 1
        &&& tasks_partitioned(
            self.contributors,
            self.number_of_chunks as int,
            self.number_of_buckets as int,
        )
        &&& forall|i: int| 0 <= i < self.contributors.len() ==> lock_state_ok(#[trigger] self.contributors[i].1)
        &&& locks_exclusive(self.contributors)
        &&& records_consistent(self.contributors, self.pending_verifications, self.verified)
    }

    /// All tasks of the round are done and verified, and no chunk is locked.
    pub open spec fn round_finished(self) -> bool {
        &&& forall|i: int|
            0 <= i < self.contributors.len() ==> (#[trigger] self.contributors[i].1).assigned.len() == 0
                && self.contributors[i].1.locked_chunks.len() == 0
        &&& self.pending_verifications.len() == 0
    }
}


/// The outcome of a contributor's request to lock the chunk of its next task: the new state
/// and the task, or why it is refused.
pub open spec fn try_lock_outcome(s: CoordinatorView, p: ParticipantId) -> Result<
    (CoordinatorView, Task),
    CoordinatorError,
> {
    if s.height is None {
        Err(CoordinatorError::CoordinatorNotInitialized)
    } else if !(p is Contributor) {
        Err(CoordinatorError::ParticipantUnauthorized)
    } else if !listed(s.contributors, p) {
        Err(CoordinatorError::ParticipantNotFound)
    } else {
        let i = position(s.contributors, p);
        let r = s.contributors[i].1;
        if r.locked_chunks.len() > 0 {
            Err(CoordinatorError::ChunkLockLimitReached)
        } else if r.assigned.len() == 0 {
            Err(CoordinatorError::ContributorHasNoTasks)
        } else {
            let t = r.assigned[0];
            if chunk_locked(s.contributors, t.chunk_id) {
                Err(CoordinatorError::ChunkLockAlreadyAcquired)
            } else if t.contribution_id > 1 && !contribution_verified(
                s.verified,
                Task { chunk_id: t.chunk_id, contribution_id: (t.contribution_id - 1) as u64 },
            ) {
                Err(CoordinatorError::ChunkMissingVerification)
            } else {
                Ok(
                    (
                        CoordinatorView {
                            contributors: s.contributors.update(i, (p, lock_next(r))),
                            ..s
                        },
                        t,
                    ),
                )
            }
        }
    }
}

/// `s` without the occurrences of `x`.
pub open spec fn without(s: Seq<u64>, x: u64) -> Seq<u64>
    decreases s.len(),
{
    if s.len() == 0 {
        s
    } else if s.last() == x {
        without(s.drop_last(), x)
    } else {
        without(s.drop_last(), x).push(s.last())
    }
}

/// The outcome of a contributor's report that it has computed the contribution of its locked
/// task: which chunks have a computed contribution, or why the report is refused.
pub open spec fn run_computation_outcome(
    s: CoordinatorView,
    height: u64,
    chunk: u64,
    contribution_id: u64,
    p: ParticipantId,
) -> Result<CoordinatorView, CoordinatorError> {
    if s.height is None {
        Err(CoordinatorError::CoordinatorNotInitialized)
    } else if !(p is Contributor) {
        Err(CoordinatorError::ParticipantUnauthorized)
    } else if !listed(s.contributors, p) {
        Err(CoordinatorError::ParticipantNotFound)
    } else {
        let r = s.contributors[position(s.contributors, p)].1;
        if r.pending.len() != 1 || r.pending[0].chunk_id != chunk {
            Err(CoordinatorError::ChunkNotLockedOrByWrongParticipant)
        } else if s.height != Some(height) || r.pending[0].contribution_id != contribution_id {
            Err(CoordinatorError::ContributionIdMismatch)
        } else {
            Ok(
                CoordinatorView {
                    computed: if s.computed.contains(chunk) {
                        s.computed
                    } else {
                        s.computed.push(chunk)
                    },
                    ..s
                },
            )
        }
    }
}

/// The outcome of a contributor handing in the chunk it holds locked: its under-way task is
/// done and waits for verification, or its discarded task is given up; the lock is released.
pub open spec fn try_contribute_outcome(s: CoordinatorView, p: ParticipantId, chunk: u64) -> Result<
    CoordinatorView,
    CoordinatorError,
> {
    if s.height is None {
        Err(CoordinatorError::CoordinatorNotInitialized)
    } else if !(p is Contributor) {
        Err(CoordinatorError::ParticipantUnauthorized)
    } else if !listed(s.contributors, p) {
        Err(CoordinatorError::ParticipantNotFound)
    } else {
        let i = position(s.contributors, p);
        let r = s.contributors[i].1;
        if r.locked_chunks.len() != 1 || r.locked_chunks[0] != chunk {
            Err(CoordinatorError::ChunkNotLockedOrByWrongParticipant)
        } else if r.pending.len() == 1 {
            if !s.computed.contains(chunk) {
                Err(CoordinatorError::ContributionMissing)
            } else {
                Ok(
                    CoordinatorView {
                        contributors: s.contributors.update(i, (p, finish_pending(r))),
                        computed: without(s.computed, chunk),
                        pending_verifications: s.pending_verifications.push((r.pending[0], p)),
                        ..s
                    },
                )
            }
        } else {
            Ok(
                CoordinatorView {
                    contributors: s.contributors.update(i, (p, release_disposing(r))),
                    computed: without(s.computed, chunk),
                    ..s
                },
            )
        }
    }
}

/// The outcome of a verifier's request to verify the oldest contribution waiting for it: the
/// new state and the verified task, or why it is refused.
pub open spec fn verify_outcome(s: CoordinatorView, v: ParticipantId) -> Result<
    (CoordinatorView, Task),
    CoordinatorError,
> {
    if s.height is None {
        Err(CoordinatorError::CoordinatorNotInitialized)
    } else if !(v is Verifier) {
        Err(CoordinatorError::ParticipantUnauthorized)
    } else if !listed(s.verifiers, v) {
        Err(CoordinatorError::ParticipantNotFound)
    } else if s.pending_verifications.len() == 0 {
        Err(CoordinatorError::NoPendingVerifications)
    } else {
        let j = position(s.verifiers, v);
        let e = s.pending_verifications[0];
        Ok(
            (
                CoordinatorView {
                    pending_verifications: s.pending_verifications.drop_first(),
                    verified: s.verified.push((e.0, e.1, v)),
                    verifiers: s.verifiers.update(j, (v, record_completed(s.verifiers[j].1, e.0))),
                    ..s
                },
                e.0,
            ),
        )
    }
}

fn copy_without(v: &Vec<u64>, x: u64) -> (r: Vec<u64>)
    ensures
        r@ == without(v@, x),
{
    let mut r: Vec<u64> = Vec::new();
    let mut i: usize = 0;
    while i < v.len()
        invariant
            i <= v@.len(),
            r@ == without(v@.subrange(0, i as int), x),
        decreases v.len() - i,
    {
        assert(v@.subrange(0, i + 1).drop_last() =~= v@.subrange(0, i as int));
        if v[i] != x {
            r.push(v[i]);
        }
        i = i + 1;
    }
    assert(v@.subrange(0, v@.len() as int) =~= v@);
    r
}

proof fn lemma_finish_pending_own(r: ParticipantRecord)
    requires
        r.pending.len() == 1,
    ensures
        own_tasks(finish_pending(r)) == own_tasks(r),
{
    assert(own_tasks(finish_pending(r)) =~= own_tasks(r));
}

/// Replacing one contributor's lock set by a smaller one keeps locks exclusive.
proof fn lemma_locks_shrink(
    a: Seq<(ParticipantId, ParticipantRecord)>,
    b: Seq<(ParticipantId, ParticipantRecord)>,
)
    requires
        locks_exclusive(a),
        a.len() == b.len(),
        forall|i: int, x: u64|
            0 <= i < a.len() && #[trigger] b[i].1.locked_chunks.contains(x)
                ==> a[i].1.locked_chunks.contains(x),
    ensures
        locks_exclusive(b),
{
    assert forall|i: int, j: int, x: u64|
        0 <= i < b.len() && 0 <= j < b.len() && #[trigger] b[i].1.locked_chunks.contains(x)
            && #[trigger] b[j].1.locked_chunks.contains(x) implies i == j by {
        assert(a[i].1.locked_chunks.contains(x));
        assert(a[j].1.locked_chunks.contains(x));
    }
}

/// A contributor before the dropped one in bucket order has its work discarded.
pub open spec fn reset_if_before(e: (ParticipantId, ParticipantRecord), bucket: u64) -> (
    ParticipantId,
    ParticipantRecord,
) {
    if e.1.bucket_id < bucket {
        (e.0, reset_record(e.1))
    } else {
        e
    }
}

/// The contributors other than the one at `d`, those whose bucket comes before its bucket
/// with their work discarded.
pub open spec fn rest_after_drop(people: Seq<(ParticipantId, ParticipantRecord)>, d: int) -> Seq<
    (ParticipantId, ParticipantRecord),
> {
    people.remove(d).map_values(
        |e: (ParticipantId, ParticipantRecord)| reset_if_before(e, people[d].1.bucket_id),
    )
}

/// The contributors after the one at `d` is dropped: it leaves the round; every contributor
/// whose bucket comes before its bucket has its work discarded and starts over; and the
/// coordinator's own contributor takes over all of the dropped contributor's tasks, joining
/// the round at the dropped contributor's bucket if it is not in it yet.
pub open spec fn contributors_after_drop(
    people: Seq<(ParticipantId, ParticipantRecord)>,
    d: int,
    replacement: ParticipantId,
) -> Seq<(ParticipantId, ParticipantRecord)> {
    let gone = people[d].1;
    let rest = rest_after_drop(people, d);
    if listed(rest, replacement) {
        let k = position(rest, replacement);
        rest.update(k, (replacement, absorb(rest[k].1, own_tasks(gone))))
    } else {
        rest.push((replacement, fresh_record(gone.bucket_id, own_tasks(gone))))
    }
}

/// Where the contributor at `k` after the one at `d` is removed stood before.
pub open spec fn index_before_removal(k: int, d: int) -> int {
    if k < d {
        k
    } else {
        k + 1
    }
}

proof fn lemma_reset_if_before_own(e: (ParticipantId, ParticipantRecord), bucket: u64)
    ensures
        own_tasks(reset_if_before(e, bucket).1) == own_tasks(e.1),
        reset_if_before(e, bucket).0 == e.0,
        reset_if_before(e, bucket).1.locked_chunks == e.1.locked_chunks,
        reset_if_before(e, bucket).1.bucket_id == e.1.bucket_id,
        lock_state_ok(e.1) ==> lock_state_ok(reset_if_before(e, bucket).1),
{
    assert(own_tasks(reset_record(e.1)) =~= own_tasks(e.1));
    if lock_state_ok(e.1) && e.1.bucket_id < bucket {
        let r = reset_record(e.1);
        assert(r.disposing.len() == 1 ==> r.disposing[0] == (if e.1.disposing.len() == 1 {
            e.1.disposing[0]
        } else {
            e.1.pending[0]
        }));
        let o = own_tasks(e.1);
        if e.1.disposing.len() == 1 {
            let j = choose|j: int| 0 <= j < e.1.assigned.len() && e.1.assigned[j] == e.1.disposing[0];
            assert(o[e.1.completed.len() + e.1.pending.len() + j] == e.1.disposing[0]);
        } else if e.1.pending.len() == 1 {
            assert(o[e.1.completed.len() as int] == e.1.pending[0]);
        }
    }
}

/// After a drop, each remaining contributor holds what it held before, and the coordinator's
/// own contributor additionally holds the dropped contributor's tasks.
proof fn lemma_after_drop_own(
    people: Seq<(ParticipantId, ParticipantRecord)>,
    d: int,
    replacement: ParticipantId,
) -> (rk: int)
    requires
        0 <= d < people.len(),
    ensures
        ({
            let after = contributors_after_drop(people, d, replacement);
            let gone = own_tasks(people[d].1);
            &&& after.len() == (if rk == people.len() - 1 {
                people.len() as int
            } else {
                people.len() - 1
            })
            &&& 0 <= rk <= people.len() - 1
            &&& after[rk].0 == replacement
            &&& forall|k: int|
                0 <= k < after.len() && k != rk ==> #[trigger] own_tasks(after[k].1) == own_tasks(
                    people[index_before_removal(k, d)].1,
                ) && after[k].0 == people[index_before_removal(k, d)].0
            &&& rk < people.len() - 1 ==> own_tasks(after[rk].1) == own_tasks(
                people[index_before_removal(rk, d)].1,
            ) + gone && people[index_before_removal(rk, d)].0 == replacement
            &&& rk == people.len() - 1 ==> own_tasks(after[rk].1) == gone
        }),
{
    let gone = people[d].1;
    let rest0 = people.remove(d);
    let rest = rest0.map_values(
        |e: (ParticipantId, ParticipantRecord)| reset_if_before(e, gone.bucket_id),
    );
    assert forall|k: int| 0 <= k < rest.len() implies own_tasks(#[trigger] rest[k].1) == own_tasks(
        people[index_before_removal(k, d)].1,
    ) && rest[k].0 == people[index_before_removal(k, d)].0 by {
        assert(rest0[k] == people[index_before_removal(k, d)]);
        lemma_reset_if_before_own(rest0[k], gone.bucket_id);
    }
    if listed(rest, replacement) {
        let k = position(rest, replacement);
        let x = rest[k].1;
        assert(own_tasks(absorb(x, own_tasks(gone))) =~= own_tasks(x) + own_tasks(gone));
        k
    } else {
        assert(own_tasks(fresh_record(gone.bucket_id, own_tasks(gone))) =~= own_tasks(gone));
        rest.len() as int
    }
}

/// When a contributor is dropped, every task of the round is still held by exactly one
/// current contributor: the dropped contributor's tasks pass to the coordinator's own
/// contributor, and every other contributor keeps its tasks, whether or not its work is
/// discarded.
pub proof fn lemma_drop_keeps_partition(
    people: Seq<(ParticipantId, ParticipantRecord)>,
    d: int,
    replacement: ParticipantId,
    chunks: int,
    buckets: int,
)
    requires
        tasks_partitioned(people, chunks, buckets),
        0 <= d < people.len(),
    ensures
        tasks_partitioned(contributors_after_drop(people, d, replacement), chunks, buckets),
{
    broadcast use vstd::seq_lib::group_seq_properties;

    let after = contributors_after_drop(people, d, replacement);
    let gone = own_tasks(people[d].1);
    let rk = lemma_after_drop_own(people, d, replacement);
    let n = people.len();
    // Who holds a task after the drop.
    assert forall|k: int, t: Task|
        0 <= k < after.len() && #[trigger] own_tasks(after[k].1).contains(t) implies (k < n - 1
        && own_tasks(people[index_before_removal(k, d)].1).contains(t)) || (k == rk
        && gone.contains(t)) by {
        if k == rk && rk < n - 1 {
            assert(own_tasks(after[k].1) == own_tasks(people[index_before_removal(k, d)].1) + gone);
        }
    }
    assert forall|i: int, t: Task|
        0 <= i < after.len() && #[trigger] own_tasks(after[i].1).contains(t) implies task_in_round(
        t,
        chunks,
        buckets,
    ) by {
        if i < n - 1 && own_tasks(people[index_before_removal(i, d)].1).contains(t) {
        } else {
            assert(own_tasks(people[d].1).contains(t));
        }
    }
    assert forall|t: Task| #[trigger] task_in_round(t, chunks, buckets) implies exists|i: int|
        0 <= i < after.len() && #[trigger] own_tasks(after[i].1).contains(t) by {
        let i = choose|i: int| 0 <= i < n && #[trigger] own_tasks(people[i].1).contains(t);
        if i == d {
            if rk < n - 1 {
                assert(own_tasks(after[rk].1) == own_tasks(people[index_before_removal(rk, d)].1)
                    + gone);
            }
            assert(own_tasks(after[rk].1).contains(t));
        } else {
            let k = if i < d {
                i
            } else {
                i - 1
            };
            assert(index_before_removal(k, d) == i);
            if k == rk {
                assert(own_tasks(after[k].1) == own_tasks(people[i].1) + gone);
            }
            assert(own_tasks(after[k].1).contains(t));
        }
    }
    assert forall|i: int, j: int, t: Task|
        0 <= i < after.len() && 0 <= j < after.len() && #[trigger] own_tasks(after[i].1).contains(t)
            && #[trigger] own_tasks(after[j].1).contains(t) implies i == j by {
        if i != j {
            let held_i = i < n - 1 && own_tasks(people[index_before_removal(i, d)].1).contains(t);
            let held_j = j < n - 1 && own_tasks(people[index_before_removal(j, d)].1).contains(t);
            if held_i && held_j {
            } else if held_i {
                assert(own_tasks(people[d].1).contains(t));
            } else if held_j {
                assert(own_tasks(people[d].1).contains(t));
            }
        }
    }
    assert forall|i: int| 0 <= i < after.len() implies #[trigger] own_tasks(
        after[i].1,
    ).no_duplicates() by {
        if i != rk {
        } else if rk < n - 1 {
            let mine = own_tasks(people[index_before_removal(rk, d)].1);
            assert(mine.no_duplicates());
            assert(gone.no_duplicates());
            assert forall|a: int, b: int| 0 <= a < mine.len() && 0 <= b < gone.len() implies mine[a]
                != gone[b] by {
                if mine[a] == gone[b] {
                    assert(own_tasks(people[index_before_removal(rk, d)].1).contains(mine[a]));
                    assert(own_tasks(people[d].1).contains(mine[a]));
                }
            }
            vstd::seq_lib::lemma_no_dup_in_concat(mine, gone);
        } else {
            assert(gone.no_duplicates());
        }
    }
}

/// A contribution still stands: its contributor is in the round and lists it as done.
pub open spec fn contribution_stands(
    people: Seq<(ParticipantId, ParticipantRecord)>,
    t: Task,
    c: ParticipantId,
) -> bool {
    exists|i: int| 0 <= i < people.len() && people[i].0 == c && people[i].1.completed.contains(t)
}

/// The waiting verifications whose contribution still stands, in order.
pub open spec fn standing_pending(
    es: Seq<(Task, ParticipantId)>,
    people: Seq<(ParticipantId, ParticipantRecord)>,
) -> Seq<(Task, ParticipantId)>
    decreases es.len(),
{
    if es.len() == 0 {
        es
    } else {
        let rest = standing_pending(es.drop_last(), people);
        if contribution_stands(people, es.last().0, es.last().1) {
            rest.push(es.last())
        } else {
            rest
        }
    }
}

/// The verified contributions that still stand, in order.
pub open spec fn standing_verified(
    es: Seq<(Task, ParticipantId, ParticipantId)>,
    people: Seq<(ParticipantId, ParticipantRecord)>,
) -> Seq<(Task, ParticipantId, ParticipantId)>
    decreases es.len(),
{
    if es.len() == 0 {
        es
    } else {
        let rest = standing_verified(es.drop_last(), people);
        if contribution_stands(people, es.last().0, es.last().1) {
            rest.push(es.last())
        } else {
            rest
        }
    }
}

/// The outcome of dropping a participant from the current round: the new state and the
/// tasks whose contributions are withdrawn with it, or why it is refused. A dropped
/// contributor's chunk lock is released and its contributions are withdrawn, as are those
/// of the contributors whose work is discarded; a dropped verifier simply leaves.
pub open spec fn drop_outcome(s: CoordinatorView, p: ParticipantId) -> Result<
    (CoordinatorView, Seq<Task>),
    CoordinatorError,
> {
    if s.height is None {
        Err(CoordinatorError::CoordinatorNotInitialized)
    } else if p == s.coordinator_contributor {
        Err(CoordinatorError::ParticipantUnauthorized)
    } else if listed(s.contributors, p) {
        let d = position(s.contributors, p);
        let gone = s.contributors[d].1;
        let people = contributors_after_drop(s.contributors, d, s.coordinator_contributor);
        Ok(
            (
                CoordinatorView {
                    contributors: people,
                    pending_verifications: standing_pending(s.pending_verifications, people),
                    verified: standing_verified(s.verified, people),
                    computed: if gone.locked_chunks.len() == 1 {
                        without(s.computed, gone.locked_chunks[0])
                    } else {
                        s.computed
                    },
                    dropped: s.dropped.push(p),
                    ..s
                },
                gone.completed,
            ),
        )
    } else if listed(s.verifiers, p) {
        Ok(
            (
                CoordinatorView {
                    verifiers: s.verifiers.remove(position(s.verifiers, p)),
                    dropped: s.dropped.push(p),
                    ..s
                },
                Seq::empty(),
            ),
        )
    } else {
        Err(CoordinatorError::ParticipantNotFound)
    }
}

/// The parts of well-formedness that concern the contributors survive a drop.
pub(crate) proof fn lemma_drop_keeps_contributors_wf(s: CoordinatorView, d: int)
    requires
        s.wf(),
        0 <= d < s.contributors.len(),
    ensures
        ({
            let after = contributors_after_drop(s.contributors, d, s.coordinator_contributor);
            &&& after.len() > 0
            &&& distinct_ids(rest_after_drop(s.contributors, d))
            &&& distinct_ids(after)
            &&& forall|i: int| 0 <= i < after.len() ==> #[trigger] after[i].0 is Contributor
            &&& tasks_partitioned(after, s.number_of_chunks as int, s.number_of_buckets as int)
            &&& forall|i: int| 0 <= i < after.len() ==> lock_state_ok(#[trigger] after[i].1)
            &&& locks_exclusive(after)
        }),
{
    let people = s.contributors;
    let r = s.coordinator_contributor;
    let gone = people[d].1;
    let rest0 = people.remove(d);
    let rest = rest0.map_values(
        |e: (ParticipantId, ParticipantRecord)| reset_if_before(e, gone.bucket_id),
    );
    let after = contributors_after_drop(people, d, r);
    lemma_drop_keeps_partition(people, d, r, s.number_of_chunks as int, s.number_of_buckets as int);
    assert forall|k: int| 0 <= k < rest.len() implies #[trigger] rest[k].0 == people[index_before_removal(k, d)].0
        && rest[k].1.locked_chunks == people[index_before_removal(k, d)].1.locked_chunks
        && lock_state_ok(rest[k].1) by {
        assert(rest0[k] == people[index_before_removal(k, d)]);
        lemma_reset_if_before_own(rest0[k], gone.bucket_id);
    }
    assert(distinct_ids(rest)) by {
        assert forall|i: int, j: int| 0 <= i < rest.len() && 0 <= j < rest.len() && i != j implies rest[i].0
            != rest[j].0 by {
            assert(rest[i].0 == people[index_before_removal(i, d)].0);
            assert(rest[j].0 == people[index_before_removal(j, d)].0);
        }
    }
    let fresh = fresh_record(gone.bucket_id, own_tasks(gone));
    if listed(rest, r) {
        let k = position(rest, r);
        let x = rest[k].1;
        if x.disposing.len() == 1 {
            let j = choose|j: int| 0 <= j < x.assigned.len() && x.assigned[j] == x.disposing[0];
            assert((x.assigned + own_tasks(gone))[j] == x.disposing[0]);
        }
        assert(lock_state_ok(absorb(rest[k].1, own_tasks(gone))));
        assert forall|i: int| 0 <= i < after.len() implies #[trigger] after[i].1.locked_chunks
            == people[index_before_removal(i, d)].1.locked_chunks by {
        }
    } else {
        assert(lock_state_ok(fresh));
    }
    assert forall|i: int, j: int, x: u64|
        0 <= i < after.len() && 0 <= j < after.len() && #[trigger] after[i].1.locked_chunks.contains(x)
            && #[trigger] after[j].1.locked_chunks.contains(x) implies i == j by {
        if i < rest.len() && j < rest.len() {
            assert(after[i].1.locked_chunks == people[index_before_removal(i, d)].1.locked_chunks);
            assert(after[j].1.locked_chunks == people[index_before_removal(j, d)].1.locked_chunks);
        }
    }
}

/// The state of a coordinator for the environment before the ceremony starts.
pub open spec fn initial_view(environment: &Environment) -> CoordinatorView {
    CoordinatorView {
        number_of_chunks: environment.number_of_chunks,
        allow_current_contributors_in_queue: environment.allow_current_contributors_in_queue,
        allow_current_verifiers_in_queue: environment.allow_current_verifiers_in_queue,
        coordinator_contributor: environment.coordinator_contributor@,
        height: None,
        number_of_buckets: 0,
        queue: Seq::empty(),
        contributors: Seq::empty(),
        verifiers: Seq::empty(),
        finished_contributors: Seq::empty(),
        finished_verifiers: Seq::empty(),
        dropped: Seq::empty(),
        computed: Seq::empty(),
        pending_verifications: Seq::empty(),
        verified: Seq::empty(),
    }
}

/// The outcome of initializing the ceremony: round 0, with nobody in it.
pub open spec fn initialize_outcome(s: CoordinatorView) -> Result<CoordinatorView, CoordinatorError> {
    if s.height is Some {
        Err(CoordinatorError::CoordinatorAlreadyInitialized)
    } else {
        Ok(CoordinatorView { height: Some(0), ..s })
    }
}

/// The identifiers of a list of participants, in order.
pub open spec fn ids_of(people: Seq<(ParticipantId, ParticipantRecord)>) -> Seq<ParticipantId> {
    people.map_values(|e: (ParticipantId, ParticipantRecord)| e.0)
}

/// The contributors of the next round: those queued, in queue order, or, when no contributor
/// is queued, those of the current round again, in bucket order.
pub open spec fn next_contributors(s: CoordinatorView) -> Seq<ParticipantId> {
    if queued_contributors(s.queue).len() > 0 {
        queued_contributors(s.queue)
    } else {
        ids_of(s.contributors)
    }
}

/// The verifiers of the next round: those queued, in queue order, or, when no verifier is
/// queued, those of the current round again.
pub open spec fn next_verifiers(s: CoordinatorView) -> Seq<ParticipantId> {
    if queued_verifiers(s.queue).len() > 0 {
        queued_verifiers(s.queue)
    } else {
        ids_of(s.verifiers)
    }
}

/// The next round: its contributors (see `next_contributors`), each starting at the bucket of
/// its place with that bucket's task list, and its verifiers (see `next_verifiers`). The
/// participants of the finished round are recorded as finished, and the queue empties.
pub open spec fn next_round(s: CoordinatorView) -> CoordinatorView {
    let qc = next_contributors(s);
    let qv = next_verifiers(s);
    let n = qc.len() as int;
    CoordinatorView {
        height: Some((s.height->0 + 1) as u64),
        number_of_buckets: n as u64,
        queue: Seq::empty(),
        contributors: Seq::new(
            qc.len(),
            |i: int|
                (qc[i], fresh_record(i as u64, bucket_tasks(i, s.number_of_chunks as int, n))),
        ),
        verifiers: Seq::new(qv.len(), |i: int| (qv[i], fresh_record(0, Seq::empty()))),
        finished_contributors: ids_of(s.contributors),
        finished_verifiers: ids_of(s.verifiers),
        dropped: Seq::empty(),
        computed: Seq::empty(),
        pending_verifications: Seq::empty(),
        verified: Seq::empty(),
        ..s
    }
}

/// The outcome of asking the ceremony to move on: when the current round is finished and the
/// next round has contributors and verifiers (queued ones, or else those of the current
/// round), the next round starts; otherwise nothing changes.
pub open spec fn update_outcome(s: CoordinatorView) -> Result<CoordinatorView, CoordinatorError> {
    if s.height is None {
        Err(CoordinatorError::CoordinatorNotInitialized)
    } else if !s.round_finished() || next_contributors(s).len() == 0 || next_verifiers(s).len()
        == 0 {
        Ok(s)
    } else if s.height->0 == u64::MAX {
        Err(CoordinatorError::CounterOverflow)
    } else {
        Ok(next_round(s))
    }
}

/// A participant in the queue is among the queued participants of its role.
pub(crate) proof fn lemma_listed_in_role(q: Seq<(ParticipantId, u8)>, x: ParticipantId)
    requires
        listed(q, x),
    ensures
        x is Contributor ==> queued_contributors(q).contains(x),
        x is Verifier ==> queued_verifiers(q).contains(x),
    decreases q.len(),
{
    if q.last().0 != x {
        let i = choose|i: int| 0 <= i < q.len() && q[i].0 == x;
        assert(i != q.len() - 1);
        assert(q.drop_last()[i].0 == x);
        lemma_listed_in_role(q.drop_last(), x);
        let c = queued_contributors(q.drop_last());
        let v = queued_verifiers(q.drop_last());
        if x is Contributor {
            let k = choose|k: int| 0 <= k < c.len() && c[k] == x;
            assert(queued_contributors(q)[k] == x);
        }
        if x is Verifier {
            let k = choose|k: int| 0 <= k < v.len() && v[k] == x;
            assert(queued_verifiers(q)[k] == x);
        }
    } else {
        let c = queued_contributors(q.drop_last());
        let v = queued_verifiers(q.drop_last());
        if x is Contributor {
            assert(queued_contributors(q)[c.len() as int] == x);
        }
        if x is Verifier {
            assert(queued_verifiers(q)[v.len() as int] == x);
        }
    }
}

pub(crate) proof fn lemma_queued_roles(q: Seq<(ParticipantId, u8)>)
    requires
        distinct_ids(q),
    ensures
        queued_contributors(q).no_duplicates(),
        queued_verifiers(q).no_duplicates(),
        queued_contributors(q).len() + queued_verifiers(q).len() == q.len(),
        forall|i: int|
            0 <= i < queued_contributors(q).len() ==> #[trigger] queued_contributors(q)[i] is Contributor
                && listed(q, queued_contributors(q)[i]),
        forall|i: int|
            0 <= i < queued_verifiers(q).len() ==> #[trigger] queued_verifiers(q)[i] is Verifier
                && listed(q, queued_verifiers(q)[i]),
    decreases q.len(),
{
    if q.len() > 0 {
        let r = q.drop_last();
        assert(distinct_ids(r));
        lemma_queued_roles(r);
        assert forall|i: int| 0 <= i < queued_contributors(r).len() implies listed(q, #[trigger] queued_contributors(r)[i]) by {
            let j = choose|j: int| 0 <= j < r.len() && r[j].0 == queued_contributors(r)[i];
            assert(q[j].0 == r[j].0);
        }
        assert forall|i: int| 0 <= i < queued_verifiers(r).len() implies listed(q, #[trigger] queued_verifiers(r)[i]) by {
            let j = choose|j: int| 0 <= j < r.len() && r[j].0 == queued_verifiers(r)[i];
            assert(q[j].0 == r[j].0);
        }
        // the last entry is listed nowhere before it
        assert forall|i: int| 0 <= i < queued_contributors(r).len() implies #[trigger] queued_contributors(r)[i] != q.last().0 by {
            let j = choose|j: int| 0 <= j < r.len() && r[j].0 == queued_contributors(r)[i];
            assert(q[j].0 == r[j].0);
        }
        assert forall|i: int| 0 <= i < queued_verifiers(r).len() implies #[trigger] queued_verifiers(r)[i] != q.last().0 by {
            let j = choose|j: int| 0 <= j < r.len() && r[j].0 == queued_verifiers(r)[i];
            assert(q[j].0 == r[j].0);
        }
        assert(q.last() == q[q.len() - 1]);
    }
}

/// The participants of the next round are distinct, have the role they are taken for, and
/// the contributors are no more than the chunks.
pub(crate) proof fn lemma_next_roster(s: CoordinatorView)
    requires
        s.wf(),
    ensures
        next_contributors(s).no_duplicates(),
        next_verifiers(s).no_duplicates(),
        next_contributors(s).len() <= s.number_of_chunks,
        forall|i: int| 0 <= i < next_contributors(s).len() ==> #[trigger] next_contributors(s)[i] is Contributor,
        forall|i: int| 0 <= i < next_verifiers(s).len() ==> #[trigger] next_verifiers(s)[i] is Verifier,
{
    lemma_queued_roles(s.queue);
    let c = ids_of(s.contributors);
    let v = ids_of(s.verifiers);
    assert forall|i: int, j: int| 0 <= i < c.len() && 0 <= j < c.len() && i != j implies c[i] != c[j] by {
        assert(c[i] == s.contributors[i].0 && c[j] == s.contributors[j].0);
    }
    assert forall|i: int, j: int| 0 <= i < v.len() && 0 <= j < v.len() && i != j implies v[i] != v[j] by {
        assert(v[i] == s.verifiers[i].0 && v[j] == s.verifiers[j].0);
    }
    assert forall|i: int| 0 <= i < c.len() implies #[trigger] c[i] is Contributor by {
        assert(c[i] == s.contributors[i].0);
    }
    assert forall|i: int| 0 <= i < v.len() implies #[trigger] v[i] is Verifier by {
        assert(v[i] == s.verifiers[i].0);
    }
}

/// The participants of a new round are well formed.
pub(crate) proof fn lemma_next_round_wf(s: CoordinatorView)
    requires
        s.wf(),
        s.height is Some,
        s.height->0 < u64::MAX,
        next_contributors(s).len() > 0,
    ensures
        next_round(s).wf(),
{
    let t = next_round(s);
    let qc = next_contributors(s);
    let qv = next_verifiers(s);
    let n = qc.len() as int;
    lemma_next_roster(s);
    lemma_round_tasks_partition(s.number_of_chunks as int, n);
    assert forall|i: int| 0 <= i < t.contributors.len() implies own_tasks(
        #[trigger] t.contributors[i].1,
    ) == bucket_tasks(i, s.number_of_chunks as int, n) by {
        assert(own_tasks(t.contributors[i].1) =~= bucket_tasks(i, s.number_of_chunks as int, n));
    }
    assert(tasks_partitioned(t.contributors, t.number_of_chunks as int, t.number_of_buckets as int)) by {
        assert forall|t0: Task| #[trigger] task_in_round(t0, s.number_of_chunks as int, n) implies exists|i: int|
            0 <= i < t.contributors.len() && #[trigger] own_tasks(t.contributors[i].1).contains(t0) by {
            let b = choose|b: int| 0 <= b < n && #[trigger] bucket_tasks(b, s.number_of_chunks as int, n).contains(t0);
            assert(own_tasks(t.contributors[b].1) == bucket_tasks(b, s.number_of_chunks as int, n));
        }
    }
    assert(distinct_ids(t.contributors)) by {
        assert forall|i: int, j: int| 0 <= i < t.contributors.len() && 0 <= j < t.contributors.len() && i != j implies t.contributors[i].0
            != t.contributors[j].0 by {
            assert(qc[i] != qc[j]);
        }
    }
    assert(distinct_ids(t.verifiers)) by {
        assert forall|i: int, j: int| 0 <= i < t.verifiers.len() && 0 <= j < t.verifiers.len() && i != j implies t.verifiers[i].0
            != t.verifiers[j].0 by {
            assert(qv[i] != qv[j]);
        }
    }
    assert forall|i: int| 0 <= i < t.contributors.len() implies lock_state_ok(#[trigger] t.contributors[i].1) by {
    }
    assert(queued_contributors(t.queue) =~= Seq::<ParticipantId>::empty());
}

/// How many entries at the head of the queue are at least as reliable as `reliability`: where
/// a newcomer of that reliability joins the queue.
pub open spec fn leading_at_least(q: Seq<(ParticipantId, u8)>, reliability: u8) -> int
    decreases q.len(),
{
    if q.len() == 0 {
        0
    } else if q[0].1 >= reliability {
        1 + leading_at_least(q.drop_first(), reliability)
    } else {
        0
    }
}

/// The outcome of adding a participant to the queue: it joins behind every queued participant
/// at least as reliable as itself, or is refused.
pub open spec fn add_to_queue_outcome(s: CoordinatorView, p: ParticipantId, reliability: u8) -> Result<
    CoordinatorView,
    CoordinatorError,
> {
    if s.height is None {
        Err(CoordinatorError::CoordinatorNotInitialized)
    } else if listed(s.queue, p) {
        Err(CoordinatorError::ParticipantAlreadyAdded)
    } else if (p is Contributor && listed(s.contributors, p) && !s.allow_current_contributors_in_queue)
        || (p is Verifier && listed(s.verifiers, p) && !s.allow_current_verifiers_in_queue) {
        Err(CoordinatorError::ParticipantInCurrentRoundCannotJoinQueue)
    } else if p is Contributor && queued_contributors(s.queue).len() >= s.number_of_chunks {
        Err(CoordinatorError::QueueIsFull)
    } else {
        Ok(
            CoordinatorView {
                queue: s.queue.insert(leading_at_least(s.queue, reliability), (p, reliability)),
                ..s
            },
        )
    }
}

/// A newcomer joins the queue at a place within it.
pub(crate) proof fn lemma_leading_in_range(q: Seq<(ParticipantId, u8)>, reliability: u8)
    ensures
        0 <= leading_at_least(q, reliability) <= q.len(),
    decreases q.len(),
{
    if q.len() > 0 {
        lemma_leading_in_range(q.drop_first(), reliability);
    }
}

proof fn lemma_leading_at_least(q: Seq<(ParticipantId, u8)>, reliability: u8, k: int)
    requires
        0 <= k <= q.len(),
        forall|i: int| 0 <= i < k ==> q[i].1 >= reliability,
        k == q.len() || q[k].1 < reliability,
    ensures
        leading_at_least(q, reliability) == k,
    decreases q.len(),
{
    if q.len() > 0 && k > 0 {
        lemma_leading_at_least(q.drop_first(), reliability, k - 1);
    }
}

proof fn lemma_queued_after_insert(q: Seq<(ParticipantId, u8)>, k: int, x: (ParticipantId, u8))
    requires
        0 <= k <= q.len(),
    ensures
        queued_contributors(q.insert(k, x)).len() == queued_contributors(q).len() + (if x.0 is Contributor {
            1int
        } else {
            0int
        }),
    decreases q.len(),
{
    let big = q.insert(k, x);
    if k == q.len() {
        assert(big.drop_last() =~= q);
    } else {
        assert(big.drop_last() =~= q.drop_last().insert(k, x));
        assert(big.last() == q.last());
        lemma_queued_after_insert(q.drop_last(), k, x);
    }
}

/// The outcome of a contribution in one go: lock the chunk of the next task, compute the
/// contribution, hand it in.
pub open spec fn contribute_outcome(s: CoordinatorView, p: ParticipantId) -> Result<
    CoordinatorView,
    CoordinatorError,
> {
    match try_lock_outcome(s, p) {
        Err(e) => Err(e),
        Ok((s1, t)) => match run_computation_outcome(
            s1,
            s.height->0,
            t.chunk_id,
            t.contribution_id,
            p,
        ) {
            Err(e) => Err(e),
            Ok(s2) => try_contribute_outcome(s2, p, t.chunk_id),
        },
    }
}

/// Once a contributor has locked the chunk of its next task, computing and handing in its
/// contribution are never refused.
pub proof fn lemma_locked_task_contributes(s: CoordinatorView, p: ParticipantId)
    requires
        s.wf(),
        try_lock_outcome(s, p) is Ok,
    ensures
        contribute_outcome(s, p) is Ok,
{
    let i = position(s.contributors, p);
    let r = s.contributors[i].1;
    let (s1, t) = try_lock_outcome(s, p)->Ok_0;
    assert(lock_state_ok(r));
    assert(distinct_ids(s1.contributors));
    lemma_position(s1.contributors, i);
    assert(s1.contributors[i].1 == lock_next(r));
    assert(lock_next(r).pending =~= seq![t]);
    assert(lock_next(r).locked_chunks =~= seq![t.chunk_id]);
    let s2 = run_computation_outcome(s1, s.height->0, t.chunk_id, t.contribution_id, p)->Ok_0;
    assert(s2.computed.contains(t.chunk_id)) by {
        if !s1.computed.contains(t.chunk_id) {
            assert(s2.computed[s1.computed.len() as int] == t.chunk_id);
        }
    }
}

/// An assigned task of a well-formed state belongs to the round, so its contribution id is
/// at least 1.
pub proof fn lemma_assigned_in_round(s: CoordinatorView, t: Task)
    requires
        s.wf(),
        exists|i: int| 0 <= i < s.contributors.len() && #[trigger] s.contributors[i].1.assigned.contains(t),
    ensures
        task_in_round(t, s.number_of_chunks as int, s.number_of_buckets as int),
{
    broadcast use vstd::seq_lib::group_seq_properties;

    let i = choose|i: int| 0 <= i < s.contributors.len() && #[trigger] s.contributors[i].1.assigned.contains(t);
    assert(own_tasks(s.contributors[i].1).contains(t));
}

/// The tasks `done` tagged with their contributor.
pub open spec fn tagged(done: Seq<Task>, c: ParticipantId) -> Seq<(Task, ParticipantId)> {
    done.map_values(|t: Task| (t, c))
}

/// Every standing contribution with its contributor, contributor by contributor, each in the
/// order they were made.
pub open spec fn contribution_records(people: Seq<(ParticipantId, ParticipantRecord)>) -> Seq<
    (Task, ParticipantId),
>
    decreases people.len(),
{
    if people.len() == 0 {
        Seq::empty()
    } else {
        contribution_records(people.drop_last()) + tagged(
            people.last().1.completed,
            people.last().0,
        )
    }
}

/// The records of contributions to `chunk`.
pub open spec fn records_on(records: Seq<(Task, ParticipantId)>, chunk: u64) -> Seq<
    (Task, ParticipantId),
>
    decreases records.len(),
{
    if records.len() == 0 {
        records
    } else if records.last().0.chunk_id == chunk {
        records_on(records.drop_last(), chunk).push(records.last())
    } else {
        records_on(records.drop_last(), chunk)
    }
}

/// Who verified the contribution of task `t`, if anyone.
pub open spec fn verifier_of(verified: Seq<(Task, ParticipantId, ParticipantId)>, t: Task) -> Option<
    ParticipantId,
>
    decreases verified.len(),
{
    if verified.len() == 0 {
        None
    } else if verified.last().0 == t {
        Some(verified.last().2)
    } else {
        verifier_of(verified.drop_last(), t)
    }
}

/// Who holds the lock on `chunk`, if anyone.
pub open spec fn lock_holder_of(people: Seq<(ParticipantId, ParticipantRecord)>, chunk: u64) -> Option<
    ParticipantId,
>
    decreases people.len(),
{
    if people.len() == 0 {
        None
    } else if people.last().1.locked_chunks.contains(chunk) {
        Some(people.last().0)
    } else {
        lock_holder_of(people.drop_last(), chunk)
    }
}

pub open spec fn contribution_entry(
    verified: Seq<(Task, ParticipantId, ParticipantId)>,
    e: (Task, ParticipantId),
) -> (u64, ContributionView) {
    (
        e.0.contribution_id,
        ContributionView {
            contributor: Some(e.1),
            verifier: verifier_of(verified, e.0),
            verified: verifier_of(verified, e.0) is Some,
        },
    )
}

/// What the current round shows of `chunk`: its lock holder and the standing contributions
/// to it.
pub open spec fn chunk_view_of(s: CoordinatorView, chunk: u64) -> ChunkView {
    ChunkView {
        chunk_id: chunk,
        lock_holder: lock_holder_of(s.contributors, chunk),
        contributions: records_on(contribution_records(s.contributors), chunk).map_values(
            |e: (Task, ParticipantId)| contribution_entry(s.verified, e),
        ),
    }
}

/// What the current round shows: its height and every chunk.
pub open spec fn round_view_of(s: CoordinatorView) -> RoundView {
    RoundView {
        height: match s.height {
            Some(h) => h,
            None => 0,
        },
        chunks: Seq::new(s.number_of_chunks as nat, |x: int| chunk_view_of(s, x as u64)),
    }
}

/// Whether the contribution of `t` by `c` waits for verification or is verified.
pub open spec fn has_entry(
    pending: Seq<(Task, ParticipantId)>,
    verified: Seq<(Task, ParticipantId, ParticipantId)>,
    t: Task,
    c: ParticipantId,
) -> bool {
    pending.contains((t, c)) || exists|k: int|
        0 <= k < verified.len() && verified[k].0 == t && verified[k].1 == c
}

/// A contribution waits for verification or is verified only while it stands, and every
/// standing contribution does one or the other.
pub open spec fn records_consistent(
    people: Seq<(ParticipantId, ParticipantRecord)>,
    pending: Seq<(Task, ParticipantId)>,
    verified: Seq<(Task, ParticipantId, ParticipantId)>,
) -> bool {
    &&& forall|k: int|
        #![trigger pending[k]]
        0 <= k < pending.len() ==> contribution_stands(people, pending[k].0, pending[k].1)
    &&& forall|k: int|
        #![trigger verified[k]]
        0 <= k < verified.len() ==> contribution_stands(people, verified[k].0, verified[k].1)
    &&& forall|i: int, t: Task|
        0 <= i < people.len() && #[trigger] people[i].1.completed.contains(t) ==> has_entry(
            pending,
            verified,
            t,
            people[i].0,
        )
}

/// Records consistency only depends on each contributor's identifier and done tasks.
proof fn lemma_records_same_completed(
    a: Seq<(ParticipantId, ParticipantRecord)>,
    b: Seq<(ParticipantId, ParticipantRecord)>,
    pending: Seq<(Task, ParticipantId)>,
    verified: Seq<(Task, ParticipantId, ParticipantId)>,
)
    requires
        records_consistent(a, pending, verified),
        a.len() == b.len(),
        forall|i: int| 0 <= i < a.len() ==> #[trigger] b[i].0 == a[i].0 && b[i].1.completed == a[i].1.completed,
    ensures
        records_consistent(b, pending, verified),
{
    assert forall|t: Task, c: ParticipantId| contribution_stands(a, t, c) implies #[trigger] contribution_stands(b, t, c) by {
        let i = choose|i: int| 0 <= i < a.len() && a[i].0 == c && a[i].1.completed.contains(t);
        assert(b[i].0 == a[i].0);
    }
    assert forall|i: int, t: Task| 0 <= i < b.len() && #[trigger] b[i].1.completed.contains(t) implies has_entry(
        pending,
        verified,
        t,
        b[i].0,
    ) by {
        assert(b[i].0 == a[i].0);
        assert(a[i].1.completed.contains(t));
    }
}

proof fn lemma_standing_pending(es: Seq<(Task, ParticipantId)>, people: Seq<(ParticipantId, ParticipantRecord)>)
    ensures
        forall|k: int| #![trigger standing_pending(es, people)[k]]
            0 <= k < standing_pending(es, people).len() ==> contribution_stands(
                people,
                standing_pending(es, people)[k].0,
                standing_pending(es, people)[k].1,
            ),
        forall|e: (Task, ParticipantId)|
            es.contains(e) && contribution_stands(people, e.0, e.1) ==> #[trigger] standing_pending(
                es,
                people,
            ).contains(e),
    decreases es.len(),
{
    broadcast use vstd::seq_lib::group_seq_properties;

    if es.len() > 0 {
        let rest = standing_pending(es.drop_last(), people);
        lemma_standing_pending(es.drop_last(), people);
        let whole = standing_pending(es, people);
        assert forall|k: int| 0 <= k < whole.len() implies contribution_stands(
            people,
            #[trigger] whole[k].0,
            whole[k].1,
        ) by {
            if k < rest.len() {
                assert(whole[k] == rest[k]);
            }
        }
        assert forall|e: (Task, ParticipantId)|
            es.contains(e) && contribution_stands(people, e.0, e.1) implies #[trigger] standing_pending(
                es,
                people,
            ).contains(e) by {
            let k = choose|k: int| 0 <= k < es.len() && es[k] == e;
            if k < es.len() - 1 {
                assert(es.drop_last()[k] == e);
                assert(es.drop_last().contains(e));
                assert(rest.contains(e));
                let j = choose|j: int| 0 <= j < rest.len() && rest[j] == e;
                assert(whole[j] == e);
            } else {
                assert(es.last() == e);
                assert(whole[rest.len() as int] == e);
            }
        }
    }
}

proof fn lemma_standing_verified(
    es: Seq<(Task, ParticipantId, ParticipantId)>,
    people: Seq<(ParticipantId, ParticipantRecord)>,
)
    ensures
        forall|k: int| #![trigger standing_verified(es, people)[k]]
            0 <= k < standing_verified(es, people).len() ==> contribution_stands(
                people,
                standing_verified(es, people)[k].0,
                standing_verified(es, people)[k].1,
            ),
        forall|e: (Task, ParticipantId, ParticipantId)|
            es.contains(e) && contribution_stands(people, e.0, e.1) ==> #[trigger] standing_verified(
                es,
                people,
            ).contains(e),
    decreases es.len(),
{
    broadcast use vstd::seq_lib::group_seq_properties;

    if es.len() > 0 {
        let rest = standing_verified(es.drop_last(), people);
        lemma_standing_verified(es.drop_last(), people);
        let whole = standing_verified(es, people);
        assert forall|k: int| 0 <= k < whole.len() implies contribution_stands(
            people,
            #[trigger] whole[k].0,
            whole[k].1,
        ) by {
            if k < rest.len() {
                assert(whole[k] == rest[k]);
            }
        }
        assert forall|e: (Task, ParticipantId, ParticipantId)|
            es.contains(e) && contribution_stands(people, e.0, e.1) implies #[trigger] standing_verified(
                es,
                people,
            ).contains(e) by {
            let k = choose|k: int| 0 <= k < es.len() && es[k] == e;
            if k < es.len() - 1 {
                assert(es.drop_last()[k] == e);
                assert(es.drop_last().contains(e));
                assert(rest.contains(e));
                let j = choose|j: int| 0 <= j < rest.len() && rest[j] == e;
                assert(whole[j] == e);
            } else {
                assert(es.last() == e);
                assert(whole[rest.len() as int] == e);
            }
        }
    }
}

proof fn lemma_records_after_finish(
    a: Seq<(ParticipantId, ParticipantRecord)>,
    pending: Seq<(Task, ParticipantId)>,
    verified: Seq<(Task, ParticipantId, ParticipantId)>,
    i: int,
)
    requires
        records_consistent(a, pending, verified),
        0 <= i < a.len(),
        a[i].1.pending.len() == 1,
    ensures
        records_consistent(
            a.update(i, (a[i].0, finish_pending(a[i].1))),
            pending.push((a[i].1.pending[0], a[i].0)),
            verified,
        ),
{
    broadcast use vstd::seq_lib::group_seq_properties;

    let b = a.update(i, (a[i].0, finish_pending(a[i].1)));
    let t0 = a[i].1.pending[0];
    let pending2 = pending.push((t0, a[i].0));
    assert forall|t: Task, c: ParticipantId| contribution_stands(a, t, c) implies #[trigger] contribution_stands(b, t, c) by {
        let j = choose|j: int| 0 <= j < a.len() && a[j].0 == c && a[j].1.completed.contains(t);
        assert(b[j].0 == a[j].0);
        assert(b[j].1.completed.contains(t));
    }
    assert(contribution_stands(b, t0, a[i].0)) by {
        assert(b[i].1.completed[b[i].1.completed.len() - 1] == t0);
    }
    assert forall|k: int| #![trigger pending2[k]] 0 <= k < pending2.len() implies contribution_stands(b, pending2[k].0, pending2[k].1) by {
        if k < pending.len() {
            assert(pending2[k] == pending[k]);
        }
    }
    assert forall|j: int, t: Task| 0 <= j < b.len() && #[trigger] b[j].1.completed.contains(t) implies has_entry(
        pending2,
        verified,
        t,
        b[j].0,
    ) by {
        if j != i {
            assert(a[j].1.completed.contains(t));
            assert(has_entry(pending, verified, t, a[j].0));
        } else if t == t0 {
            assert(pending2[pending.len() as int] == (t, b[j].0));
        } else {
            assert(a[i].1.completed.contains(t));
            assert(has_entry(pending, verified, t, a[i].0));
        }
    }
}

proof fn lemma_records_after_verify(
    a: Seq<(ParticipantId, ParticipantRecord)>,
    pending: Seq<(Task, ParticipantId)>,
    verified: Seq<(Task, ParticipantId, ParticipantId)>,
    v: ParticipantId,
)
    requires
        records_consistent(a, pending, verified),
        pending.len() > 0,
    ensures
        records_consistent(
            a,
            pending.drop_first(),
            verified.push((pending[0].0, pending[0].1, v)),
        ),
{
    broadcast use vstd::seq_lib::group_seq_properties;

    let p2 = pending.drop_first();
    let v2 = verified.push((pending[0].0, pending[0].1, v));
    assert forall|k: int| #![trigger p2[k]] 0 <= k < p2.len() implies contribution_stands(a, p2[k].0, p2[k].1) by {
        assert(p2[k] == pending[k + 1]);
    }
    assert forall|k: int| #![trigger v2[k]] 0 <= k < v2.len() implies contribution_stands(a, v2[k].0, v2[k].1) by {
        if k < verified.len() {
            assert(v2[k] == verified[k]);
        } else {
            assert(pending[0] == pending[0]);
        }
    }
    assert forall|j: int, t: Task| 0 <= j < a.len() && #[trigger] a[j].1.completed.contains(t) implies has_entry(
        p2,
        v2,
        t,
        a[j].0,
    ) by {
        assert(has_entry(pending, verified, t, a[j].0));
        if pending.contains((t, a[j].0)) {
            let k = choose|k: int| 0 <= k < pending.len() && pending[k] == (t, a[j].0);
            if k == 0 {
                assert(v2[verified.len() as int].0 == t && v2[verified.len() as int].1 == a[j].0);
            } else {
                assert(p2[k - 1] == (t, a[j].0));
            }
        } else {
            let k = choose|k: int| 0 <= k < verified.len() && verified[k].0 == t && verified[k].1 == a[j].0;
            assert(v2[k] == verified[k]);
        }
    }
}

pub(crate) proof fn lemma_records_after_drop(
    people: Seq<(ParticipantId, ParticipantRecord)>,
    pending: Seq<(Task, ParticipantId)>,
    verified: Seq<(Task, ParticipantId, ParticipantId)>,
    d: int,
    replacement: ParticipantId,
)
    requires
        records_consistent(people, pending, verified),
        0 <= d < people.len(),
    ensures
        ({
            let after = contributors_after_drop(people, d, replacement);
            records_consistent(
                after,
                standing_pending(pending, after),
                standing_verified(verified, after),
            )
        }),
{
    let after = contributors_after_drop(people, d, replacement);
    let gone = people[d].1;
    let rest = rest_after_drop(people, d);
    let n = people.len();
    lemma_standing_pending(pending, after);
    lemma_standing_verified(verified, after);
    assert forall|k: int| 0 <= k < rest.len() implies #[trigger] rest[k] == reset_if_before(
        people[index_before_removal(k, d)],
        gone.bucket_id,
    ) by {
        assert(people.remove(d)[k] == people[index_before_removal(k, d)]);
    }
    assert forall|k: int, t: Task| 0 <= k < after.len() && #[trigger] after[k].1.completed.contains(t) implies has_entry(
        standing_pending(pending, after),
        standing_verified(verified, after),
        t,
        after[k].0,
    ) by {
        assert(k < rest.len());
        let i = index_before_removal(k, d);
        assert(after[k].0 == rest[k].0 && after[k].1.completed == rest[k].1.completed);
        assert(rest[k].1.completed.len() > 0);
        assert(rest[k] == people[i]);
        assert(people[i].1.completed.contains(t));
        assert(has_entry(pending, verified, t, people[i].0));
        assert(contribution_stands(after, t, after[k].0));
        if pending.contains((t, people[i].0)) {
        } else {
            let m = choose|m: int| 0 <= m < verified.len() && verified[m].0 == t && verified[m].1 == people[i].0;
            assert(verified.contains(verified[m]));
            assert(standing_verified(verified, after).contains(verified[m]));
            let q = choose|q: int| 0 <= q < standing_verified(verified, after).len() && standing_verified(verified, after)[q] == verified[m];
        }
    }
}

/// Inserting a participant that is not queued yet, behind every participant at least as
/// reliable, keeps the queue free of repeats and ordered by reliability.
proof fn lemma_queue_insert_keeps_order(
    q: Seq<(ParticipantId, u8)>,
    k: int,
    p: ParticipantId,
    reliability: u8,
)
    requires
        distinct_ids(q),
        queue_sorted(q),
        !listed(q, p),
        0 <= k <= q.len(),
        forall|i: int| 0 <= i < k ==> q[i].1 >= reliability,
        k == q.len() || q[k].1 < reliability,
    ensures
        distinct_ids(q.insert(k, (p, reliability))),
        queue_sorted(q.insert(k, (p, reliability))),
{
    let q2 = q.insert(k, (p, reliability));
    assert forall|i: int, j: int| 0 <= i < q2.len() && 0 <= j < q2.len() && i != j implies q2[i].0
        != q2[j].0 by {
        if i != k && j != k {
            let oi = if i < k { i } else { i - 1 };
            let oj = if j < k { j } else { j - 1 };
            assert(q2[i] == q[oi] && q2[j] == q[oj]);
        } else if i == k {
            let oj = if j < k { j } else { j - 1 };
            assert(q2[j] == q[oj]);
        } else {
            let oi = if i < k { i } else { i - 1 };
            assert(q2[i] == q[oi]);
        }
    }
    assert forall|i: int, j: int| 0 <= i < j < q2.len() implies q2[i].1 >= q2[j].1 by {
        if j < k {
        } else if i > k {
            assert(q2[i] == q[i - 1] && q2[j] == q[j - 1]);
        } else if j == k {
        } else if i == k {
            assert(q2[j] == q[j - 1]);
            assert(q[k].1 >= q[j - 1].1);
        } else {
            assert(q2[j] == q[j - 1]);
            assert(q[i].1 >= q[j - 1].1);
        }
    }
}

proof fn lemma_position<T>(s: Seq<(ParticipantId, T)>, i: int)
    requires
        distinct_ids(s),
        0 <= i < s.len(),
    ensures
        listed(s, s[i].0),
        position(s, s[i].0) == i,
{
}

/// The partition of the round's tasks only depends on each contributor's own task list.
proof fn lemma_partition_same_own(
    a: Seq<(ParticipantId, ParticipantRecord)>,
    b: Seq<(ParticipantId, ParticipantRecord)>,
    chunks: int,
    buckets: int,
)
    requires
        tasks_partitioned(a, chunks, buckets),
        a.len() == b.len(),
        forall|i: int| 0 <= i < a.len() ==> own_tasks(#[trigger] b[i].1) == own_tasks(a[i].1),
    ensures
        tasks_partitioned(b, chunks, buckets),
{
    assert forall|i: int, t: Task|
        0 <= i < b.len() && #[trigger] own_tasks(b[i].1).contains(t) implies task_in_round(
            t,
            chunks,
            buckets,
        ) by {
        assert(own_tasks(a[i].1).contains(t));
    }
    assert forall|t: Task| #[trigger] task_in_round(t, chunks, buckets) implies exists|i: int|
        0 <= i < b.len() && #[trigger] own_tasks(b[i].1).contains(t) by {
        let i = choose|i: int| 0 <= i < a.len() && #[trigger] own_tasks(a[i].1).contains(t);
        assert(own_tasks(b[i].1).contains(t));
    }
    assert forall|i: int, j: int, t: Task|
        0 <= i < b.len() && 0 <= j < b.len() && #[trigger] own_tasks(b[i].1).contains(t)
            && #[trigger] own_tasks(b[j].1).contains(t) implies i == j by {
        assert(own_tasks(a[i].1).contains(t));
        assert(own_tasks(a[j].1).contains(t));
    }
    assert forall|i: int| 0 <= i < b.len() implies #[trigger] own_tasks(b[i].1).no_duplicates() by {
        assert(own_tasks(a[i].1).no_duplicates());
    }
}

proof fn lemma_lock_next_own(r: ParticipantRecord)
    requires
        r.assigned.len() > 0,
    ensures
        own_tasks(lock_next(r)) == own_tasks(r),
{
    assert(own_tasks(lock_next(r)) =~= own_tasks(r));
}

fn copy_people(v: &Vec<(Participant, ParticipantInfo)>) -> (r: Vec<(Participant, ParticipantInfo)>)
    ensures
        people_view(r@) == people_view(v@),
{
    let mut r: Vec<(Participant, ParticipantInfo)> = Vec::new();
    let mut i: usize = 0;
    while i < v.len()
        invariant
            i <= v@.len(),
            people_view(r@) == people_view(v@).subrange(0, i as int),
        decreases v.len() - i,
    {
        let ghost r0 = r@;
        let entry = (v[i].0.duplicate(), v[i].1.duplicate());
        r.push(entry);
        assert(people_view(r@) =~= people_view(r0).push((entry.0@, entry.1@)));
        assert(people_view(v@).subrange(0, i + 1) =~= people_view(v@).subrange(0, i as int).push(people_view(v@)[i as int]));
        i = i + 1;
    }
    assert(people_view(v@).subrange(0, v@.len() as int) =~= people_view(v@));
    r
}

/// A stand-in entry: a contributor with the empty identifier and a fresh record of bucket 0
/// with no tasks.
fn placeholder() -> (r: (Participant, ParticipantInfo))
    ensures
        r.0@ == ParticipantId::Contributor(Seq::<char>::empty()),
        r.1@ == fresh_record(0, Seq::<Task>::empty()),
{
    let id = String::new();
    let tasks: Vec<Task> = Vec::new();
    proof {
        assert(id@ =~= Seq::<char>::empty());
        assert(tasks@ =~= Seq::<Task>::empty());
    }
    (Participant::Contributor(id), ParticipantInfo::new(0, tasks))
}

impl CoordinatorState {
    /// Where `p` stands among the current contributors.
    fn find_contributor(&self, p: &Participant) -> (r: Option<usize>)
        requires
            distinct_ids(self@.contributors),
        ensures
            r is None <==> !listed(self@.contributors, p@),
            r matches Some(i) ==> i < self@.contributors.len() && self@.contributors[i as int].0
                == p@ && position(self@.contributors, p@) == i,
    {
        let mut i: usize = 0;
        while i < self.current_contributors.len()
            invariant
                i <= self.current_contributors@.len(),
                self@.contributors == people_view(self.current_contributors@),
                distinct_ids(self@.contributors),
                forall|j: int| 0 <= j < i ==> self@.contributors[j].0 != p@,
            decreases self.current_contributors.len() - i,
        {
            if self.current_contributors[i].0.same_as(p) {
                proof {
                    lemma_position(self@.contributors, i as int);
                }
                return Some(i);
            }
            i = i + 1;
        }
        None
    }

    /// Where `p` stands among the current verifiers.
    fn find_verifier(&self, p: &Participant) -> (r: Option<usize>)
        requires
            distinct_ids(self@.verifiers),
        ensures
            r is None <==> !listed(self@.verifiers, p@),
            r matches Some(i) ==> i < self@.verifiers.len() && self@.verifiers[i as int].0 == p@
                && position(self@.verifiers, p@) == i,
    {
        let mut i: usize = 0;
        while i < self.current_verifiers.len()
            invariant
                i <= self.current_verifiers@.len(),
                self@.verifiers == people_view(self.current_verifiers@),
                distinct_ids(self@.verifiers),
                forall|j: int| 0 <= j < i ==> self@.verifiers[j].0 != p@,
            decreases self.current_verifiers.len() - i,
        {
            if self.current_verifiers[i].0.same_as(p) {
                proof {
                    lemma_position(self@.verifiers, i as int);
                }
                return Some(i);
            }
            i = i + 1;
        }
        None
    }

    fn is_chunk_locked(&self, chunk: u64) -> (r: bool)
        ensures
            r == chunk_locked(self@.contributors, chunk),
    {
        let mut i: usize = 0;
        while i < self.current_contributors.len()
            invariant
                i <= self.current_contributors@.len(),
                self@.contributors == people_view(self.current_contributors@),
                forall|j: int| 0 <= j < i ==> !self@.contributors[j].1.locked_chunks.contains(chunk),
            decreases self.current_contributors.len() - i,
        {
            let locked = self.current_contributors[i].1.locked_chunks();
            assert(locked@ == self@.contributors[i as int].1.locked_chunks);
            let mut k: usize = 0;
            while k < locked.len()
                invariant
                    k <= locked@.len(),
                    i < self.current_contributors@.len(),
                    self@.contributors == people_view(self.current_contributors@),
                    locked@ == self@.contributors[i as int].1.locked_chunks,
                    forall|m: int| 0 <= m < k ==> locked@[m] != chunk,
                decreases locked.len() - k,
            {
                if locked[k] == chunk {
                    assert(self@.contributors[i as int].1.locked_chunks.contains(chunk)) by {
                        assert(self@.contributors[i as int].1.locked_chunks[k as int] == chunk);
                    }
                    return true;
                }
                k = k + 1;
            }
            i = i + 1;
        }
        false
    }

    fn is_contribution_verified(&self, t: Task) -> (r: bool)
        ensures
            r == contribution_verified(self@.verified, t),
    {
        let mut i: usize = 0;
        while i < self.verified_contributions.len()
            invariant
                i <= self.verified_contributions@.len(),
                self@.verified == self.verified_contributions@.map_values(
                    |e: (Task, Participant, Participant)| (e.0, e.1@, e.2@),
                ),
                forall|j: int| 0 <= j < i ==> self@.verified[j].0 != t,
            decreases self.verified_contributions.len() - i,
        {
            if self.verified_contributions[i].0 == t {
                assert(self@.verified[i as int].0 == t);
                return true;
            }
            i = i + 1;
        }
        false
    }

    fn has_computed(&self, chunk: u64) -> (r: bool)
        ensures
            r == self@.computed.contains(chunk),
    {
        let mut k: usize = 0;
        while k < self.computed_chunks.len()
            invariant
                k <= self.computed_chunks@.len(),
                forall|m: int| 0 <= m < k ==> self.computed_chunks@[m] != chunk,
            decreases self.computed_chunks.len() - k,
        {
            if self.computed_chunks[k] == chunk {
                assert(self@.computed[k as int] == chunk);
                return true;
            }
            k = k + 1;
        }
        false
    }

    /// Locks the chunk of the contributor's next task and takes the task up.
    pub(crate) fn try_lock(&mut self, p: &Participant) -> (r: Result<Task, CoordinatorError>)
        requires
            old(self)@.wf(),
        ensures
            final(self)@.wf(),
            match try_lock_outcome(old(self)@, p@) {
                Ok((s2, t)) => r == Ok::<Task, CoordinatorError>(t) && final(self)@ == s2,
                Err(e) => r == Err::<Task, CoordinatorError>(e) && final(self)@ == old(self)@,
            },
    {
        if self.current_round_height.is_none() {
            return Err(CoordinatorError::CoordinatorNotInitialized);
        }
        if !p.is_contributor() {
            return Err(CoordinatorError::ParticipantUnauthorized);
        }
        let i = match self.find_contributor(p) {
            Some(i) => i,
            None => {
                return Err(CoordinatorError::ParticipantNotFound);
            },
        };
        if self.current_contributors[i].1.locked_chunks().len() > 0 {
            return Err(CoordinatorError::ChunkLockLimitReached);
        }
        if self.current_contributors[i].1.assigned_tasks().len() == 0 {
            return Err(CoordinatorError::ContributorHasNoTasks);
        }
        let t = self.current_contributors[i].1.assigned_tasks()[0];
        if self.is_chunk_locked(t.chunk_id) {
            return Err(CoordinatorError::ChunkLockAlreadyAcquired);
        }
        if t.contribution_id > 1 && !self.is_contribution_verified(
            Task { chunk_id: t.chunk_id, contribution_id: t.contribution_id - 1 },
        ) {
            return Err(CoordinatorError::ChunkMissingVerification);
        }
        let ghost old_view = self@;
        let ghost r0 = self@.contributors[i as int].1;
        let mut entry = placeholder();
        self.current_contributors.set_and_swap(i, &mut entry);
        let locked_task = entry.1.lock_next();
        self.current_contributors.set_and_swap(i, &mut entry);
        proof {
            let s2 = CoordinatorView {
                contributors: old_view.contributors.update(i as int, (p@, lock_next(r0))),
                ..old_view
            };
            assert(self@.contributors =~= s2.contributors);
            assert(self@ == s2);
            lemma_lock_next_own(r0);
            lemma_records_same_completed(
                old_view.contributors,
                s2.contributors,
                old_view.pending_verifications,
                old_view.verified,
            );
            lemma_partition_same_own(
                old_view.contributors,
                s2.contributors,
                s2.number_of_chunks as int,
                s2.number_of_buckets as int,
            );
            assert forall|j: int, k: int, x: u64|
                0 <= j < s2.contributors.len() && 0 <= k < s2.contributors.len()
                    && #[trigger] s2.contributors[j].1.locked_chunks.contains(x)
                    && #[trigger] s2.contributors[k].1.locked_chunks.contains(x) implies j == k by {
                if j != i && k != i {
                    assert(old_view.contributors[j].1.locked_chunks.contains(x));
                    assert(old_view.contributors[k].1.locked_chunks.contains(x));
                } else if j == i && k != i {
                    assert(x == t.chunk_id);
                    assert(old_view.contributors[k].1.locked_chunks.contains(x));
                } else if k == i && j != i {
                    assert(x == t.chunk_id);
                    assert(old_view.contributors[j].1.locked_chunks.contains(x));
                }
            }
            assert(lock_state_ok(lock_next(r0)));
        }
        Ok(locked_task)
    }

    /// Records that the contributor has computed the contribution of its locked task.
    pub(crate) fn run_computation(
        &mut self,
        height: u64,
        chunk: u64,
        contribution_id: u64,
        p: &Participant,
    ) -> (r: Result<(), CoordinatorError>)
        requires
            old(self)@.wf(),
        ensures
            final(self)@.wf(),
            match run_computation_outcome(old(self)@, height, chunk, contribution_id, p@) {
                Ok(s2) => r is Ok && final(self)@ == s2,
                Err(e) => r == Err::<(), CoordinatorError>(e) && final(self)@ == old(self)@,
            },
    {
        if self.current_round_height.is_none() {
            return Err(CoordinatorError::CoordinatorNotInitialized);
        }
        if !p.is_contributor() {
            return Err(CoordinatorError::ParticipantUnauthorized);
        }
        let i = match self.find_contributor(p) {
            Some(i) => i,
            None => {
                return Err(CoordinatorError::ParticipantNotFound);
            },
        };
        let pending = self.current_contributors[i].1.pending_tasks();
        if pending.len() != 1 || pending[0].chunk_id != chunk {
            return Err(CoordinatorError::ChunkNotLockedOrByWrongParticipant);
        }
        match self.current_round_height {
            Some(h) => {
                if h != height || pending[0].contribution_id != contribution_id {
                    return Err(CoordinatorError::ContributionIdMismatch);
                }
            },
            None => {},
        }
        if self.has_computed(chunk) {
            return Ok(());
        }
        self.computed_chunks.push(chunk);
        Ok(())
    }

    /// Hands in the chunk the contributor holds locked.
    pub(crate) fn try_contribute(&mut self, p: &Participant, chunk: u64) -> (r: Result<
        (),
        CoordinatorError,
    >)
        requires
            old(self)@.wf(),
        ensures
            final(self)@.wf(),
            match try_contribute_outcome(old(self)@, p@, chunk) {
                Ok(s2) => r is Ok && final(self)@ == s2,
                Err(e) => r == Err::<(), CoordinatorError>(e) && final(self)@ == old(self)@,
            },
    {
        if self.current_round_height.is_none() {
            return Err(CoordinatorError::CoordinatorNotInitialized);
        }
        if !p.is_contributor() {
            return Err(CoordinatorError::ParticipantUnauthorized);
        }
        let i = match self.find_contributor(p) {
            Some(i) => i,
            None => {
                return Err(CoordinatorError::ParticipantNotFound);
            },
        };
        let locked = self.current_contributors[i].1.locked_chunks();
        if locked.len() != 1 || locked[0] != chunk {
            return Err(CoordinatorError::ChunkNotLockedOrByWrongParticipant);
        }
        let ghost old_view = self@;
        let ghost r0 = self@.contributors[i as int].1;
        let under_way = self.current_contributors[i].1.pending_tasks().len() == 1;
        if under_way {
            let computed = self.has_computed(chunk);
            if !computed {
                return Err(CoordinatorError::ContributionMissing);
            }
            let mut entry = placeholder();
            self.current_contributors.set_and_swap(i, &mut entry);
            let done = entry.1.finish_pending();
            let who = entry.0.duplicate();
            self.current_contributors.set_and_swap(i, &mut entry);
            self.pending_verifications.push((done, who));
            self.computed_chunks = copy_without(&self.computed_chunks, chunk);
            proof {
                let s2 = CoordinatorView {
                    contributors: old_view.contributors.update(i as int, (p@, finish_pending(r0))),
                    computed: without(old_view.computed, chunk),
                    pending_verifications: old_view.pending_verifications.push((r0.pending[0], p@)),
                    ..old_view
                };
                assert(self@.contributors =~= s2.contributors);
                assert(self@.pending_verifications =~= s2.pending_verifications);
                assert(self@ == s2);
                lemma_finish_pending_own(r0);
                lemma_records_after_finish(
                    old_view.contributors,
                    old_view.pending_verifications,
                    old_view.verified,
                    i as int,
                );
                lemma_partition_same_own(
                    old_view.contributors,
                    s2.contributors,
                    s2.number_of_chunks as int,
                    s2.number_of_buckets as int,
                );
                lemma_locks_shrink(old_view.contributors, s2.contributors);
                assert(lock_state_ok(finish_pending(r0)));
            }
        } else {
            let mut entry = placeholder();
            self.current_contributors.set_and_swap(i, &mut entry);
            entry.1.release_disposing();
            self.current_contributors.set_and_swap(i, &mut entry);
            self.computed_chunks = copy_without(&self.computed_chunks, chunk);
            proof {
                let s2 = CoordinatorView {
                    contributors: old_view.contributors.update(i as int, (p@, release_disposing(r0))),
                    computed: without(old_view.computed, chunk),
                    ..old_view
                };
                assert(self@.contributors =~= s2.contributors);
                assert(self@ == s2);
                assert(own_tasks(release_disposing(r0)) == own_tasks(r0));
                lemma_records_same_completed(
                    old_view.contributors,
                    s2.contributors,
                    old_view.pending_verifications,
                    old_view.verified,
                );
                lemma_partition_same_own(
                    old_view.contributors,
                    s2.contributors,
                    s2.number_of_chunks as int,
                    s2.number_of_buckets as int,
                );
                lemma_locks_shrink(old_view.contributors, s2.contributors);
                assert(lock_state_ok(release_disposing(r0)));
            }
        }
        Ok(())
    }

    /// Whether the contribution of task `t` by `c` still stands.
    fn stands(&self, t: Task, c: &Participant) -> (r: bool)
        ensures
            r == contribution_stands(self@.contributors, t, c@),
    {
        let mut i: usize = 0;
        while i < self.current_contributors.len()
            invariant
                i <= self.current_contributors@.len(),
                self@.contributors == people_view(self.current_contributors@),
                forall|j: int|
                    0 <= j < i ==> !(self@.contributors[j].0 == c@
                        && self@.contributors[j].1.completed.contains(t)),
            decreases self.current_contributors.len() - i,
        {
            if self.current_contributors[i].0.same_as(c) {
                let done = self.current_contributors[i].1.completed_tasks();
                let mut k: usize = 0;
                while k < done.len()
                    invariant
                        k <= done@.len(),
                        i < self.current_contributors@.len(),
                        self@.contributors == people_view(self.current_contributors@),
                        self@.contributors[i as int].0 == c@,
                        done@ == self@.contributors[i as int].1.completed,
                        forall|m: int| 0 <= m < k ==> done@[m] != t,
                    decreases done.len() - k,
                {
                    if done[k] == t {
                        assert(self@.contributors[i as int].1.completed[k as int] == t);
                        return true;
                    }
                    k = k + 1;
                }
            }
            i = i + 1;
        }
        false
    }

    fn standing_pending_copy(&self) -> (r: Vec<(Task, Participant)>)
        ensures
            r@.map_values(|e: (Task, Participant)| (e.0, e.1@)) == standing_pending(
                self@.pending_verifications,
                self@.contributors,
            ),
    {
        let ghost all = self@.pending_verifications;
        let mut r: Vec<(Task, Participant)> = Vec::new();
        let mut i: usize = 0;
        while i < self.pending_verifications.len()
            invariant
                i <= self.pending_verifications@.len(),
                all == self@.pending_verifications,
                all == self.pending_verifications@.map_values(|e: (Task, Participant)| (e.0, e.1@)),
                r@.map_values(|e: (Task, Participant)| (e.0, e.1@)) == standing_pending(
                    all.subrange(0, i as int),
                    self@.contributors,
                ),
            decreases self.pending_verifications.len() - i,
        {
            let ghost before = r@;
            assert(all.subrange(0, i + 1).drop_last() =~= all.subrange(0, i as int));
            let t = self.pending_verifications[i].0;
            if self.stands(t, &self.pending_verifications[i].1) {
                let c = self.pending_verifications[i].1.duplicate();
                r.push((t, c));
                assert(r@.map_values(|e: (Task, Participant)| (e.0, e.1@)) =~= before.map_values(
                    |e: (Task, Participant)| (e.0, e.1@),
                ).push(all[i as int]));
            }
            i = i + 1;
        }
        assert(all.subrange(0, all.len() as int) =~= all);
        r
    }

    fn standing_verified_copy(&self) -> (r: Vec<(Task, Participant, Participant)>)
        ensures
            r@.map_values(|e: (Task, Participant, Participant)| (e.0, e.1@, e.2@))
                == standing_verified(self@.verified, self@.contributors),
    {
        let ghost all = self@.verified;
        let mut r: Vec<(Task, Participant, Participant)> = Vec::new();
        let mut i: usize = 0;
        while i < self.verified_contributions.len()
            invariant
                i <= self.verified_contributions@.len(),
                all == self@.verified,
                all == self.verified_contributions@.map_values(
                    |e: (Task, Participant, Participant)| (e.0, e.1@, e.2@),
                ),
                r@.map_values(|e: (Task, Participant, Participant)| (e.0, e.1@, e.2@))
                    == standing_verified(all.subrange(0, i as int), self@.contributors),
            decreases self.verified_contributions.len() - i,
        {
            let ghost before = r@;
            assert(all.subrange(0, i + 1).drop_last() =~= all.subrange(0, i as int));
            let t = self.verified_contributions[i].0;
            if self.stands(t, &self.verified_contributions[i].1) {
                let c = self.verified_contributions[i].1.duplicate();
                let v = self.verified_contributions[i].2.duplicate();
                r.push((t, c, v));
                assert(r@.map_values(|e: (Task, Participant, Participant)| (e.0, e.1@, e.2@))
                    =~= before.map_values(
                    |e: (Task, Participant, Participant)| (e.0, e.1@, e.2@),
                ).push(all[i as int]));
            }
            i = i + 1;
        }
        assert(all.subrange(0, all.len() as int) =~= all);
        r
    }

    /// Drops a participant from the current round and gives the locators of the contribution
    /// files withdrawn with it.
    pub(crate) fn drop_participant(&mut self, p: &Participant) -> (r: Result<
        Vec<String>,
        CoordinatorError,
    >)
        requires
            old(self)@.wf(),
        ensures
            final(self)@.wf(),
            match drop_outcome(old(self)@, p@) {
                Ok((s2, removed)) => r matches Ok(locators) && locators@.len() == removed.len() && (
                forall|i: int|
                    0 <= i < removed.len() ==> #[trigger] locators@[i]@ == locator_text(
                        old(self)@.height->0,
                        removed[i].chunk_id,
                        removed[i].contribution_id,
                        false,
                    )) && final(self)@ == s2,
                Err(e) => r == Err::<Vec<String>, CoordinatorError>(e) && final(self)@ == old(self)@,
            },
    {
        let h = match self.current_round_height {
            Some(h) => h,
            None => {
                return Err(CoordinatorError::CoordinatorNotInitialized);
            },
        };
        if p.same_as(&self.coordinator_contributor) {
            return Err(CoordinatorError::ParticipantUnauthorized);
        }
        let ghost old_view = self@;
        match self.find_contributor(p) {
            Some(d) => {
                let ghost people = old_view.contributors;
                let ghost rest0 = people.remove(d as int);
                let gone = self.current_contributors.remove(d);
                let bucket = gone.1.bucket_id();
                assert(people_view(self.current_contributors@) =~= rest0);
                let mut j: usize = 0;
                while j < self.current_contributors.len()
                    invariant
                        j <= self.current_contributors@.len(),
                        self.current_contributors@.len() == rest0.len(),
                        d < people.len(),
                        rest0 == people.remove(d as int),
                        bucket == people[d as int].1.bucket_id,
                        self@ == (CoordinatorView {
                            contributors: people_view(self.current_contributors@),
                            ..old_view
                        }),
                        forall|k: int|
                            0 <= k < j ==> #[trigger] self@.contributors[k] == reset_if_before(
                                rest0[k],
                                bucket,
                            ),
                        forall|k: int| j <= k < rest0.len() ==> #[trigger] self@.contributors[k] == rest0[k],
                    decreases self.current_contributors.len() - j,
                {
                    if self.current_contributors[j].1.bucket_id() < bucket {
                        let ghost before = self@.contributors;
                        assert(self@.contributors[j as int] == rest0[j as int]);
                        assert(self.current_contributors@[j as int].1@ == rest0[j as int].1);
                        assert(self.current_contributors@[j as int].0@ == rest0[j as int].0);
                        let mut entry = placeholder();
                        self.current_contributors.set_and_swap(j, &mut entry);
                        assert(entry.1@ == rest0[j as int].1);
                        assert(entry.0@ == rest0[j as int].0);
                        entry.1.reset();
                        assert(entry.1@ == reset_record(rest0[j as int].1));
                        self.current_contributors.set_and_swap(j, &mut entry);
                        assert(self@.contributors =~= before.update(
                            j as int,
                            reset_if_before(rest0[j as int], bucket),
                        ));
                    }
                    j = j + 1;
                }
                let ghost rest = rest_after_drop(people, d as int);
                assert(self@.contributors =~= rest);
                proof {
                    lemma_drop_keeps_contributors_wf(old_view, d as int);
                    lemma_records_after_drop(
                        people,
                        old_view.pending_verifications,
                        old_view.verified,
                        d as int,
                        old_view.coordinator_contributor,
                    );
                }
                let gone_tasks = gone.1.own_tasks();
                match self.find_contributor(&self.coordinator_contributor) {
                    Some(k) => {
                        let mut entry = placeholder();
                        self.current_contributors.set_and_swap(k, &mut entry);
                        entry.1.absorb(gone_tasks);
                        self.current_contributors.set_and_swap(k, &mut entry);
                    },
                    None => {
                        let newcomer = self.coordinator_contributor.duplicate();
                        self.current_contributors.push(
                            (newcomer, ParticipantInfo::new(bucket, gone_tasks)),
                        );
                    },
                }
                let ghost after = contributors_after_drop(people, d as int, old_view.coordinator_contributor);
                assert(self@.contributors =~= after);
                let pending = self.standing_pending_copy();
                self.pending_verifications = pending;
                let verified = self.standing_verified_copy();
                self.verified_contributions = verified;
                let locked = gone.1.locked_chunks();
                if locked.len() == 1 {
                    self.computed_chunks = copy_without(&self.computed_chunks, locked[0]);
                }
                self.dropped_participants.push(gone.0);
                let done = gone.1.completed_tasks();
                let mut locators: Vec<String> = Vec::new();
                let mut i: usize = 0;
                while i < done.len()
                    invariant
                        i <= done@.len(),
                        locators@.len() == i,
                        forall|m: int|
                            0 <= m < i ==> #[trigger] locators@[m]@ == locator_text(
                                h,
                                done@[m].chunk_id,
                                done@[m].contribution_id,
                                false,
                            ),
                    decreases done.len() - i,
                {
                    let t = done[i];
                    locators.push(contribution_locator(h, t.chunk_id, t.contribution_id, false));
                    i = i + 1;
                }
                proof {
                    let s2 = drop_outcome(old_view, p@)->Ok_0.0;
                    assert(self@.dropped =~= s2.dropped);
                    assert(self@ == s2);
                }
                Ok(locators)
            },
            None => {
                match self.find_verifier(p) {
                    Some(j) => {
                        let gone = self.current_verifiers.remove(j);
                        self.dropped_participants.push(gone.0);
                        proof {
                            let s2 = drop_outcome(old_view, p@)->Ok_0.0;
                            assert(self@.verifiers =~= s2.verifiers);
                            assert(self@.dropped =~= s2.dropped);
                            assert(self@ == s2);
                        }
                        Ok(Vec::new())
                    },
                    None => Err(CoordinatorError::ParticipantNotFound),
                }
            },
        }
    }

    fn queue_lists(&self, p: &Participant) -> (r: bool)
        ensures
            r == listed(self@.queue, p@),
    {
        let mut i: usize = 0;
        while i < self.queue.len()
            invariant
                i <= self.queue@.len(),
                self@.queue == self.queue@.map_values(|e: (Participant, u8)| (e.0@, e.1)),
                forall|j: int| 0 <= j < i ==> self@.queue[j].0 != p@,
            decreases self.queue.len() - i,
        {
            if self.queue[i].0.same_as(p) {
                assert(self@.queue[i as int].0 == p@);
                return true;
            }
            i = i + 1;
        }
        false
    }

    /// How many contributors wait in the queue.
    pub fn number_of_queue_contributors(&self) -> (r: usize)
        ensures
            r == queued_contributors(self@.queue).len(),
    {
        let ghost q = self@.queue;
        let mut count: usize = 0;
        let mut i: usize = 0;
        while i < self.queue.len()
            invariant
                i <= self.queue@.len(),
                q == self.queue@.map_values(|e: (Participant, u8)| (e.0@, e.1)),
                count == queued_contributors(q.subrange(0, i as int)).len(),
                count <= i,
            decreases self.queue.len() - i,
        {
            assert(q.subrange(0, i + 1).drop_last() =~= q.subrange(0, i as int));
            assert(q.subrange(0, i + 1).last() == q[i as int]);
            if self.queue[i].0.is_contributor() {
                count = count + 1;
            }
            i = i + 1;
        }
        assert(q.subrange(0, q.len() as int) =~= q);
        count
    }

    /// How many verifiers wait in the queue.
    pub fn number_of_queue_verifiers(&self) -> (r: usize)
        ensures
            r == queued_verifiers(self@.queue).len(),
    {
        let ghost q = self@.queue;
        let mut count: usize = 0;
        let mut i: usize = 0;
        while i < self.queue.len()
            invariant
                i <= self.queue@.len(),
                q == self.queue@.map_values(|e: (Participant, u8)| (e.0@, e.1)),
                count == queued_verifiers(q.subrange(0, i as int)).len(),
                count <= i,
            decreases self.queue.len() - i,
        {
            assert(q.subrange(0, i + 1).drop_last() =~= q.subrange(0, i as int));
            assert(q.subrange(0, i + 1).last() == q[i as int]);
            if self.queue[i].0.is_verifier() {
                count = count + 1;
            }
            i = i + 1;
        }
        assert(q.subrange(0, q.len() as int) =~= q);
        count
    }

    pub fn is_queue_contributor(&self, p: &Participant) -> (r: bool)
        ensures
            r == (p@ is Contributor && listed(self@.queue, p@)),
    {
        p.is_contributor() && self.queue_lists(p)
    }

    pub fn is_queue_verifier(&self, p: &Participant) -> (r: bool)
        ensures
            r == (p@ is Verifier && listed(self@.queue, p@)),
    {
        p.is_verifier() && self.queue_lists(p)
    }

    pub fn is_current_contributor(&self, p: &Participant) -> (r: bool)
        requires
            self@.wf(),
        ensures
            r == listed(self@.contributors, p@),
    {
        self.find_contributor(p).is_some()
    }

    pub fn is_current_verifier(&self, p: &Participant) -> (r: bool)
        requires
            self@.wf(),
        ensures
            r == listed(self@.verifiers, p@),
    {
        self.find_verifier(p).is_some()
    }

    fn lists_finished(list: &Vec<Participant>, p: &Participant) -> (r: bool)
        ensures
            r == ids_view(list@).contains(p@),
    {
        let mut i: usize = 0;
        while i < list.len()
            invariant
                i <= list@.len(),
                forall|j: int| 0 <= j < i ==> list@[j]@ != p@,
            decreases list.len() - i,
        {
            if list[i].same_as(p) {
                assert(ids_view(list@)[i as int] == p@);
                return true;
            }
            i = i + 1;
        }
        assert forall|j: int| 0 <= j < ids_view(list@).len() implies ids_view(list@)[j] != p@ by {
            assert(ids_view(list@)[j] == list@[j]@);
        }
        false
    }

    pub fn is_finished_contributor(&self, p: &Participant) -> (r: bool)
        ensures
            r == (p@ is Contributor && self@.finished_contributors.contains(p@)),
    {
        p.is_contributor() && Self::lists_finished(&self.finished_contributors, p)
    }

    pub fn is_finished_verifier(&self, p: &Participant) -> (r: bool)
        ensures
            r == (p@ is Verifier && self@.finished_verifiers.contains(p@)),
    {
        p.is_verifier() && Self::lists_finished(&self.finished_verifiers, p)
    }

    /// The height of the current round; 0 before the ceremony is initialized.
    pub fn current_round_height(&self) -> (r: u64)
        ensures
            r == (match self@.height {
                Some(h) => h,
                None => 0,
            }),
    {
        match self.current_round_height {
            Some(h) => h,
            None => 0,
        }
    }

    pub(crate) fn height(&self) -> (r: Option<u64>)
        ensures
            r == self@.height,
    {
        self.current_round_height
    }

    /// The current contributors with their records.
    pub fn current_contributors(&self) -> (r: Vec<(Participant, ParticipantInfo)>)
        ensures
            people_view(r@) == self@.contributors,
    {
        copy_people(&self.current_contributors)
    }

    /// The current verifiers with their records.
    pub fn current_verifiers(&self) -> (r: Vec<(Participant, ParticipantInfo)>)
        ensures
            people_view(r@) == self@.verifiers,
    {
        copy_people(&self.current_verifiers)
    }

    /// Adds a participant to the queue for the next round.
    pub(crate) fn add_to_queue(&mut self, p: &Participant, reliability: u8) -> (r: Result<
        (),
        CoordinatorError,
    >)
        requires
            old(self)@.wf(),
        ensures
            final(self)@.wf(),
            match add_to_queue_outcome(old(self)@, p@, reliability) {
                Ok(s2) => r is Ok && final(self)@ == s2,
                Err(e) => r == Err::<(), CoordinatorError>(e) && final(self)@ == old(self)@,
            },
    {
        if self.current_round_height.is_none() {
            return Err(CoordinatorError::CoordinatorNotInitialized);
        }
        if self.queue_lists(p) {
            return Err(CoordinatorError::ParticipantAlreadyAdded);
        }
        if (p.is_contributor() && self.find_contributor(p).is_some()
            && !self.allow_current_contributors_in_queue) || (p.is_verifier()
            && self.find_verifier(p).is_some() && !self.allow_current_verifiers_in_queue) {
            return Err(CoordinatorError::ParticipantInCurrentRoundCannotJoinQueue);
        }
        if p.is_contributor() && self.number_of_queue_contributors() as u64 >= self.number_of_chunks {
            return Err(CoordinatorError::QueueIsFull);
        }
        let ghost old_view = self@;
        let ghost q = old_view.queue;
        let mut k: usize = 0;
        while k < self.queue.len() && self.queue[k].1 >= reliability
            invariant
                k <= self.queue@.len(),
                q == self.queue@.map_values(|e: (Participant, u8)| (e.0@, e.1)),
                forall|i: int| 0 <= i < k ==> q[i].1 >= reliability,
            decreases self.queue.len() - k,
        {
            k = k + 1;
        }
        proof {
            lemma_leading_at_least(q, reliability, k as int);
            lemma_queued_after_insert(q, k as int, (p@, reliability));
        }
        self.queue.insert(k, (p.duplicate(), reliability));
        proof {
            lemma_queue_insert_keeps_order(q, k as int, p@, reliability);
            assert(self@.queue =~= q.insert(k as int, (p@, reliability)));
        }
        Ok(())
    }

    /// A coordinator state for the environment, before initialization; refused when the
    /// environment describes no chunk or names a coordinator contributor that is no contributor.
    pub(crate) fn new(environment: &Environment) -> (r: Result<CoordinatorState, CoordinatorError>)
        ensures
            r is Ok <==> environment.number_of_chunks >= 1
                && environment.coordinator_contributor@ is Contributor,
            r matches Ok(s) ==> s@.wf() && s@ == initial_view(environment),
            r matches Err(e) ==> e == CoordinatorError::EnvironmentInvalid,
    {
        if environment.number_of_chunks == 0 || !environment.coordinator_contributor.is_contributor() {
            return Err(CoordinatorError::EnvironmentInvalid);
        }
        let s = CoordinatorState {
            number_of_chunks: environment.number_of_chunks,
            allow_current_contributors_in_queue: environment.allow_current_contributors_in_queue,
            allow_current_verifiers_in_queue: environment.allow_current_verifiers_in_queue,
            coordinator_contributor: environment.coordinator_contributor.duplicate(),
            current_round_height: None,
            number_of_buckets: 0,
            queue: Vec::new(),
            current_contributors: Vec::new(),
            current_verifiers: Vec::new(),
            finished_contributors: Vec::new(),
            finished_verifiers: Vec::new(),
            dropped_participants: Vec::new(),
            computed_chunks: Vec::new(),
            pending_verifications: Vec::new(),
            verified_contributions: Vec::new(),
        };
        proof {
            assert(s@.queue =~= Seq::<(ParticipantId, u8)>::empty());
            assert(s@.contributors =~= Seq::<(ParticipantId, ParticipantRecord)>::empty());
            assert(s@.verifiers =~= Seq::<(ParticipantId, ParticipantRecord)>::empty());
            assert(s@.finished_contributors =~= Seq::<ParticipantId>::empty());
            assert(s@.finished_verifiers =~= Seq::<ParticipantId>::empty());
            assert(s@.dropped =~= Seq::<ParticipantId>::empty());
            assert(s@.pending_verifications =~= Seq::<(Task, ParticipantId)>::empty());
            assert(s@.verified =~= Seq::<(Task, ParticipantId, ParticipantId)>::empty());
            assert(s@ == initial_view(environment));
            assert(queued_contributors(s@.queue) =~= Seq::<ParticipantId>::empty());
        }
        Ok(s)
    }

    /// A well-formed stand-in state with one chunk and nobody in it.
    pub(crate) fn placeholder() -> (r: CoordinatorState)
        ensures
            r@.wf(),
    {
        let s = CoordinatorState {
            number_of_chunks: 1,
            allow_current_contributors_in_queue: false,
            allow_current_verifiers_in_queue: false,
            coordinator_contributor: Participant::Contributor(String::new()),
            current_round_height: None,
            number_of_buckets: 0,
            queue: Vec::new(),
            current_contributors: Vec::new(),
            current_verifiers: Vec::new(),
            finished_contributors: Vec::new(),
            finished_verifiers: Vec::new(),
            dropped_participants: Vec::new(),
            computed_chunks: Vec::new(),
            pending_verifications: Vec::new(),
            verified_contributions: Vec::new(),
        };
        proof {
            assert(s@.queue =~= Seq::<(ParticipantId, u8)>::empty());
            assert(s@.contributors =~= Seq::<(ParticipantId, ParticipantRecord)>::empty());
            assert(s@.verifiers =~= Seq::<(ParticipantId, ParticipantRecord)>::empty());
            assert(queued_contributors(s@.queue) =~= Seq::<ParticipantId>::empty());
        }
        s
    }

    fn records(&self) -> (r: Vec<(Task, Participant)>)
        ensures
            r@.map_values(|e: (Task, Participant)| (e.0, e.1@)) == contribution_records(
                self@.contributors,
            ),
    {
        let ghost people = self@.contributors;
        let mut r: Vec<(Task, Participant)> = Vec::new();
        let mut i: usize = 0;
        while i < self.current_contributors.len()
            invariant
                i <= self.current_contributors@.len(),
                people == people_view(self.current_contributors@),
                r@.map_values(|e: (Task, Participant)| (e.0, e.1@)) == contribution_records(
                    people.subrange(0, i as int),
                ),
            decreases self.current_contributors.len() - i,
        {
            let done = self.current_contributors[i].1.completed_tasks();
            let ghost base = r@.map_values(|e: (Task, Participant)| (e.0, e.1@));
            let ghost who = people[i as int].0;
            let mut k: usize = 0;
            while k < done.len()
                invariant
                    k <= done@.len(),
                    i < self.current_contributors@.len(),
                    people == people_view(self.current_contributors@),
                    who == people[i as int].0,
                    done@ == people[i as int].1.completed,
                    r@.map_values(|e: (Task, Participant)| (e.0, e.1@)) == base + tagged(
                        done@.subrange(0, k as int),
                        who,
                    ),
                decreases done.len() - k,
            {
                let ghost r0 = r@;
                let c = self.current_contributors[i].0.duplicate();
                r.push((done[k], c));
                assert(r@.map_values(|e: (Task, Participant)| (e.0, e.1@)) =~= base + tagged(
                    done@.subrange(0, k + 1),
                    who,
                )) by {
                    assert(r@.map_values(|e: (Task, Participant)| (e.0, e.1@)) =~= r0.map_values(
                        |e: (Task, Participant)| (e.0, e.1@),
                    ).push((done@[k as int], who)));
                }
                k = k + 1;
            }
            assert(done@.subrange(0, done@.len() as int) =~= done@);
            assert(people.subrange(0, i + 1).drop_last() =~= people.subrange(0, i as int));
            assert(people.subrange(0, i + 1).last() == people[i as int]);
            i = i + 1;
        }
        assert(people.subrange(0, people.len() as int) =~= people);
        r
    }

    fn verifier_of_task(&self, t: Task) -> (r: Option<Participant>)
        ensures
            optional_id(r) == verifier_of(self@.verified, t),
    {
        let ghost all = self@.verified;
        let mut found: Option<Participant> = None;
        let mut i: usize = 0;
        while i < self.verified_contributions.len()
            invariant
                i <= self.verified_contributions@.len(),
                all == self.verified_contributions@.map_values(
                    |e: (Task, Participant, Participant)| (e.0, e.1@, e.2@),
                ),
                optional_id(found) == verifier_of(all.subrange(0, i as int), t),
            decreases self.verified_contributions.len() - i,
        {
            assert(all.subrange(0, i + 1).drop_last() =~= all.subrange(0, i as int));
            assert(all.subrange(0, i + 1).last() == all[i as int]);
            if self.verified_contributions[i].0 == t {
                found = Some(self.verified_contributions[i].2.duplicate());
            }
            i = i + 1;
        }
        assert(all.subrange(0, all.len() as int) =~= all);
        found
    }

    fn lock_holder(&self, chunk: u64) -> (r: Option<Participant>)
        ensures
            optional_id(r) == lock_holder_of(self@.contributors, chunk),
    {
        let ghost people = self@.contributors;
        let mut found: Option<Participant> = None;
        let mut i: usize = 0;
        while i < self.current_contributors.len()
            invariant
                i <= self.current_contributors@.len(),
                people == people_view(self.current_contributors@),
                optional_id(found) == lock_holder_of(people.subrange(0, i as int), chunk),
            decreases self.current_contributors.len() - i,
        {
            assert(people.subrange(0, i + 1).drop_last() =~= people.subrange(0, i as int));
            assert(people.subrange(0, i + 1).last() == people[i as int]);
            let locked = self.current_contributors[i].1.locked_chunks();
            let mut k: usize = 0;
            let mut holds = false;
            while k < locked.len()
                invariant
                    k <= locked@.len(),
                    holds == exists|m: int| 0 <= m < k && locked@[m] == chunk,
                decreases locked.len() - k,
            {
                if locked[k] == chunk {
                    holds = true;
                }
                k = k + 1;
            }
            if holds {
                found = Some(self.current_contributors[i].0.duplicate());
            }
            i = i + 1;
        }
        assert(people.subrange(0, people.len() as int) =~= people);
        found
    }

    /// A snapshot of the current round.
    pub(crate) fn current_round(&self) -> (r: Round)
        ensures
            r@ == round_view_of(self@),
    {
        let records = self.records();
        let ghost recs = records@.map_values(|e: (Task, Participant)| (e.0, e.1@));
        let ghost target = round_view_of(self@);
        let mut chunks: Vec<Chunk> = Vec::new();
        let mut x: u64 = 0;
        while x < self.number_of_chunks
            invariant
                x <= self.number_of_chunks,
                self.number_of_chunks == self@.number_of_chunks,
                recs == records@.map_values(|e: (Task, Participant)| (e.0, e.1@)),
                recs == contribution_records(self@.contributors),
                target == round_view_of(self@),
                chunks_view(chunks@) == target.chunks.subrange(0, x as int),
            decreases self.number_of_chunks - x,
        {
            let mut contributions: Vec<(u64, Contribution)> = Vec::new();
            let mut i: usize = 0;
            while i < records.len()
                invariant
                    i <= records@.len(),
                    recs == records@.map_values(|e: (Task, Participant)| (e.0, e.1@)),
                    contributions_view(contributions@) == records_on(recs.subrange(0, i as int), x).map_values(
                        |e: (Task, ParticipantId)| contribution_entry(self@.verified, e),
                    ),
                decreases records.len() - i,
            {
                assert(recs.subrange(0, i + 1).drop_last() =~= recs.subrange(0, i as int));
                assert(recs.subrange(0, i + 1).last() == recs[i as int]);
                if records[i].0.chunk_id == x {
                    let ghost c0 = contributions@;
                    let t = records[i].0;
                    let verifier = self.verifier_of_task(t);
                    let verified = verifier.is_some();
                    let entry = (
                        t.contribution_id,
                        Contribution::new(Some(records[i].1.duplicate()), verifier, verified),
                    );
                    contributions.push(entry);
                    assert(contributions_view(contributions@) =~= contributions_view(c0).push((entry.0, entry.1@)));
                    assert(records_on(recs.subrange(0, i + 1), x).map_values(
                        |e: (Task, ParticipantId)| contribution_entry(self@.verified, e),
                    ) =~= records_on(recs.subrange(0, i as int), x).map_values(
                        |e: (Task, ParticipantId)| contribution_entry(self@.verified, e),
                    ).push(contribution_entry(self@.verified, recs[i as int])));
                }
                i = i + 1;
            }
            assert(recs.subrange(0, recs.len() as int) =~= recs);
            let holder = self.lock_holder(x);
            let ghost c0 = chunks@;
            let chunk = Chunk::new(x, holder, contributions);
            chunks.push(chunk);
            assert(chunks_view(chunks@) =~= chunks_view(c0).push(chunk@));
            assert(target.chunks.subrange(0, x + 1) =~= target.chunks.subrange(0, x as int).push(target.chunks[x as int]));
            x = x + 1;
        }
        let h = self.current_round_height();
        assert(target.chunks.subrange(0, self.number_of_chunks as int) =~= target.chunks);
        Round::new(h, chunks)
    }

    /// Starts the ceremony at round 0.
    pub(crate) fn initialize(&mut self) -> (r: Result<(), CoordinatorError>)
        requires
            old(self)@.wf(),
        ensures
            final(self)@.wf(),
            match initialize_outcome(old(self)@) {
                Ok(s2) => r is Ok && final(self)@ == s2,
                Err(e) => r == Err::<(), CoordinatorError>(e) && final(self)@ == old(self)@,
            },
    {
        if self.current_round_height.is_some() {
            return Err(CoordinatorError::CoordinatorAlreadyInitialized);
        }
        self.current_round_height = Some(0);
        Ok(())
    }

    fn round_is_finished(&self) -> (r: bool)
        ensures
            r == self@.round_finished(),
    {
        if self.pending_verifications.len() != 0 {
            return false;
        }
        let mut i: usize = 0;
        while i < self.current_contributors.len()
            invariant
                i <= self.current_contributors@.len(),
                self@.contributors == people_view(self.current_contributors@),
                forall|j: int|
                    0 <= j < i ==> (#[trigger] self@.contributors[j].1).assigned.len() == 0
                        && self@.contributors[j].1.locked_chunks.len() == 0,
            decreases self.current_contributors.len() - i,
        {
            if self.current_contributors[i].1.assigned_tasks().len() != 0
                || self.current_contributors[i].1.locked_chunks().len() != 0 {
                assert(self@.contributors[i as int].1 == self.current_contributors@[i as int].1@);
                return false;
            }
            i = i + 1;
        }
        true
    }

    /// Moves the ceremony on to the next round when the current one is finished.
    pub(crate) fn update(&mut self) -> (r: Result<(), CoordinatorError>)
        requires
            old(self)@.wf(),
        ensures
            final(self)@.wf(),
            match update_outcome(old(self)@) {
                Ok(s2) => r is Ok && final(self)@ == s2,
                Err(e) => r == Err::<(), CoordinatorError>(e) && final(self)@ == old(self)@,
            },
    {
        let h = match self.current_round_height {
            Some(h) => h,
            None => {
                return Err(CoordinatorError::CoordinatorNotInitialized);
            },
        };
        if !self.round_is_finished() {
            return Ok(());
        }
        let ghost old_view = self@;
        let ghost q = old_view.queue;
        let mut qc: Vec<Participant> = Vec::new();
        let mut qv: Vec<Participant> = Vec::new();
        let mut i: usize = 0;
        while i < self.queue.len()
            invariant
                i <= self.queue@.len(),
                q == self@.queue,
                q == self.queue@.map_values(|e: (Participant, u8)| (e.0@, e.1)),
                ids_view(qc@) == queued_contributors(q.subrange(0, i as int)),
                ids_view(qv@) == queued_verifiers(q.subrange(0, i as int)),
            decreases self.queue.len() - i,
        {
            assert(q.subrange(0, i + 1).drop_last() =~= q.subrange(0, i as int));
            assert(q.subrange(0, i + 1).last() == q[i as int]);
            let ghost c0 = qc@;
            let ghost v0 = qv@;
            if self.queue[i].0.is_contributor() {
                qc.push(self.queue[i].0.duplicate());
                assert(ids_view(qc@) =~= ids_view(c0).push(q[i as int].0));
            } else {
                qv.push(self.queue[i].0.duplicate());
                assert(ids_view(qv@) =~= ids_view(v0).push(q[i as int].0));
            }
            i = i + 1;
        }
        assert(q.subrange(0, q.len() as int) =~= q);
        if qc.len() == 0 {
            let mut m: usize = 0;
            assert(ids_view(qc@) =~= ids_of(old_view.contributors).subrange(0, 0));
            while m < self.current_contributors.len()
                invariant
                    m <= self.current_contributors@.len(),
                    self@ == old_view,
                    self@.contributors == people_view(self.current_contributors@),
                    ids_view(qc@) == ids_of(old_view.contributors).subrange(0, m as int),
                decreases self.current_contributors.len() - m,
            {
                let ghost c0 = qc@;
                qc.push(self.current_contributors[m].0.duplicate());
                assert(ids_view(qc@) =~= ids_view(c0).push(old_view.contributors[m as int].0));
                assert(ids_of(old_view.contributors).subrange(0, m + 1) =~= ids_of(
                    old_view.contributors,
                ).subrange(0, m as int).push(old_view.contributors[m as int].0));
                m = m + 1;
            }
            assert(ids_of(old_view.contributors).subrange(0, old_view.contributors.len() as int)
                =~= ids_of(old_view.contributors));
        }
        assert(ids_view(qc@) == next_contributors(old_view));
        if qv.len() == 0 {
            let mut m: usize = 0;
            assert(ids_view(qv@) =~= ids_of(old_view.verifiers).subrange(0, 0));
            while m < self.current_verifiers.len()
                invariant
                    m <= self.current_verifiers@.len(),
                    self@ == old_view,
                    self@.verifiers == people_view(self.current_verifiers@),
                    ids_view(qv@) == ids_of(old_view.verifiers).subrange(0, m as int),
                decreases self.current_verifiers.len() - m,
            {
                let ghost v0 = qv@;
                qv.push(self.current_verifiers[m].0.duplicate());
                assert(ids_view(qv@) =~= ids_view(v0).push(old_view.verifiers[m as int].0));
                assert(ids_of(old_view.verifiers).subrange(0, m + 1) =~= ids_of(
                    old_view.verifiers,
                ).subrange(0, m as int).push(old_view.verifiers[m as int].0));
                m = m + 1;
            }
            assert(ids_of(old_view.verifiers).subrange(0, old_view.verifiers.len() as int)
                =~= ids_of(old_view.verifiers));
        }
        assert(ids_view(qv@) == next_verifiers(old_view));
        if qc.len() == 0 || qv.len() == 0 {
            return Ok(());
        }
        if h == u64::MAX {
            return Err(CoordinatorError::CounterOverflow);
        }
        proof {
            lemma_next_roster(old_view);
        }
        let n = qc.len();
        let ghost target = next_round(old_view);
        let mut contributors: Vec<(Participant, ParticipantInfo)> = Vec::new();
        let mut b: usize = 0;
        while b < n
            invariant
                b <= n,
                n == qc@.len(),
                n <= old_view.number_of_chunks,
                self@ == old_view,
                ids_view(qc@) == next_contributors(old_view),
                q == old_view.queue,
                target == next_round(old_view),
                target.contributors.len() == n,
                self.number_of_chunks == old_view.number_of_chunks,
                people_view(contributors@) == target.contributors.subrange(0, b as int),
            decreases n - b,
        {
            assert(ids_view(qc@)[b as int] == qc@[b as int]@);
            let tasks = match initialize_tasks(b as u64, self.number_of_chunks, n as u64) {
                Ok(tasks) => tasks,
                Err(_) => Vec::new(),
            };
            let ghost c0 = contributors@;
            assert(tasks@ == bucket_tasks(b as int, old_view.number_of_chunks as int, n as int));
            let entry = (qc[b].duplicate(), ParticipantInfo::new(b as u64, tasks));
            assert(entry.0@ == next_contributors(old_view)[b as int]);
            assert(q == old_view.queue);
            assert(target.contributors == next_round(old_view).contributors);
            assert(target.contributors[b as int] == (next_contributors(old_view)[b as int], fresh_record(b as u64, bucket_tasks(b as int, old_view.number_of_chunks as int, n as int))));
            assert((entry.0@, entry.1@) == target.contributors[b as int]);
            contributors.push(entry);
            assert(people_view(contributors@) =~= people_view(c0).push((entry.0@, entry.1@)));
            assert(target.contributors.subrange(0, b + 1) =~= target.contributors.subrange(0, b as int).push(target.contributors[b as int]));
            b = b + 1;
        }
        let mut verifiers: Vec<(Participant, ParticipantInfo)> = Vec::new();
        let mut k: usize = 0;
        while k < qv.len()
            invariant
                k <= qv@.len(),
                ids_view(qv@) == next_verifiers(old_view),
                q == old_view.queue,
                target == next_round(old_view),
                target.verifiers.len() == qv@.len(),
                people_view(verifiers@) == target.verifiers.subrange(0, k as int),
            decreases qv.len() - k,
        {
            assert(ids_view(qv@)[k as int] == qv@[k as int]@);
            let ghost v0 = verifiers@;
            let entry = (qv[k].duplicate(), ParticipantInfo::new(0, Vec::new()));
            assert(entry.1@ =~= fresh_record(0, Seq::empty()));
            assert(entry.0@ == next_verifiers(old_view)[k as int]);
            assert((entry.0@, entry.1@) == target.verifiers[k as int]);
            verifiers.push(entry);
            assert(people_view(verifiers@) =~= people_view(v0).push((entry.0@, entry.1@)));
            assert(target.verifiers.subrange(0, k + 1) =~= target.verifiers.subrange(0, k as int).push(target.verifiers[k as int]));
            k = k + 1;
        }
        let mut finished_contributors: Vec<Participant> = Vec::new();
        let mut m: usize = 0;
        while m < self.current_contributors.len()
            invariant
                m <= self.current_contributors@.len(),
                self@ == old_view,
                target == next_round(old_view),
                target.finished_contributors.len() == self.current_contributors@.len(),
                self@.contributors == people_view(self.current_contributors@),
                ids_view(finished_contributors@) == target.finished_contributors.subrange(0, m as int),
            decreases self.current_contributors.len() - m,
        {
            assert(target.finished_contributors[m as int] == self.current_contributors@[m as int].0@);
            let ghost f0 = finished_contributors@;
            let who = self.current_contributors[m].0.duplicate();
            finished_contributors.push(who);
            assert(ids_view(finished_contributors@) =~= ids_view(f0).push(who@));
            assert(target.finished_contributors.subrange(0, m + 1) =~= target.finished_contributors.subrange(0, m as int).push(target.finished_contributors[m as int]));
            m = m + 1;
        }
        let mut finished_verifiers: Vec<Participant> = Vec::new();
        let mut m: usize = 0;
        while m < self.current_verifiers.len()
            invariant
                m <= self.current_verifiers@.len(),
                self@ == old_view,
                target == next_round(old_view),
                target.finished_verifiers.len() == self.current_verifiers@.len(),
                self@.verifiers == people_view(self.current_verifiers@),
                ids_view(finished_verifiers@) == target.finished_verifiers.subrange(0, m as int),
            decreases self.current_verifiers.len() - m,
        {
            assert(target.finished_verifiers[m as int] == self.current_verifiers@[m as int].0@);
            let ghost f0 = finished_verifiers@;
            let who = self.current_verifiers[m].0.duplicate();
            finished_verifiers.push(who);
            assert(ids_view(finished_verifiers@) =~= ids_view(f0).push(who@));
            assert(target.finished_verifiers.subrange(0, m + 1) =~= target.finished_verifiers.subrange(0, m as int).push(target.finished_verifiers[m as int]));
            m = m + 1;
        }
        self.current_round_height = Some(h + 1);
        self.number_of_buckets = n as u64;
        self.queue = Vec::new();
        self.current_contributors = contributors;
        self.current_verifiers = verifiers;
        self.finished_contributors = finished_contributors;
        self.finished_verifiers = finished_verifiers;
        self.dropped_participants = Vec::new();
        self.computed_chunks = Vec::new();
        self.pending_verifications = Vec::new();
        self.verified_contributions = Vec::new();
        proof {
            assert(target.contributors.subrange(0, n as int) =~= target.contributors);
            assert(target.verifiers.subrange(0, qv@.len() as int) =~= target.verifiers);
            assert(target.finished_contributors.subrange(0, old_view.contributors.len() as int) =~= target.finished_contributors);
            assert(target.finished_verifiers.subrange(0, old_view.verifiers.len() as int) =~= target.finished_verifiers);
            assert(self@.queue =~= target.queue);
            assert(self@.finished_contributors =~= target.finished_contributors);
            assert(self@.finished_verifiers =~= target.finished_verifiers);
            assert(self@.dropped =~= target.dropped);
            assert(self@.pending_verifications =~= target.pending_verifications);
            assert(self@.verified =~= target.verified);
            assert(self@ == target);
            lemma_next_round_wf(old_view);
        }
        Ok(())
    }

    /// Verifies the oldest contribution waiting for verification.
    pub(crate) fn verify(&mut self, v: &Participant) -> (r: Result<Task, CoordinatorError>)
        requires
            old(self)@.wf(),
        ensures
            final(self)@.wf(),
            match verify_outcome(old(self)@, v@) {
                Ok((s2, t)) => r == Ok::<Task, CoordinatorError>(t) && final(self)@ == s2,
                Err(e) => r == Err::<Task, CoordinatorError>(e) && final(self)@ == old(self)@,
            },
    {
        if self.current_round_height.is_none() {
            return Err(CoordinatorError::CoordinatorNotInitialized);
        }
        if !v.is_verifier() {
            return Err(CoordinatorError::ParticipantUnauthorized);
        }
        let j = match self.find_verifier(v) {
            Some(j) => j,
            None => {
                return Err(CoordinatorError::ParticipantNotFound);
            },
        };
        if self.pending_verifications.len() == 0 {
            return Err(CoordinatorError::NoPendingVerifications);
        }
        let ghost old_view = self@;
        let (task, contributor) = self.pending_verifications.remove(0);
        let mut entry = placeholder();
        self.current_verifiers.set_and_swap(j, &mut entry);
        entry.1.record_completed(task);
        let verifier = entry.0.duplicate();
        self.current_verifiers.set_and_swap(j, &mut entry);
        self.verified_contributions.push((task, contributor, verifier));
        proof {
            let e = old_view.pending_verifications[0];
            let s2 = CoordinatorView {
                pending_verifications: old_view.pending_verifications.drop_first(),
                verified: old_view.verified.push((e.0, e.1, v@)),
                verifiers: old_view.verifiers.update(
                    j as int,
                    (v@, record_completed(old_view.verifiers[j as int].1, e.0)),
                ),
                ..old_view
            };
            assert(self@.pending_verifications =~= s2.pending_verifications);
            assert(self@.verified =~= s2.verified);
            assert(self@.verifiers =~= s2.verifiers);
            assert(self@ == s2);
            lemma_records_after_verify(
                old_view.contributors,
                old_view.pending_verifications,
                old_view.verified,
                v@,
            );
        }
        Ok(task)
    }
}

} // verus!
