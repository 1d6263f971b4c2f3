use vstd::prelude::*;
use crate::task::Task;

verus! {

/// What the coordinator knows of one participant in the current round.
#[derive(Debug)]
pub struct ParticipantInfo {
    bucket_id: u64,
    locked_chunks: Vec<u64>,
    assigned_tasks: Vec<Task>,
    pending_tasks: Vec<Task>,
    completed_tasks: Vec<Task>,
    disposing_tasks: Vec<Task>,
    disposed_tasks: Vec<Task>,
}

/// A participant's record as a mathematical value.
pub struct ParticipantRecord {
    /// The bucket the participant's task list started at.
    pub bucket_id: u64,
    /// The chunks whose lock the participant holds.
    pub locked_chunks: Seq<u64>,
    /// Tasks still to do, in order.
    pub assigned: Seq<Task>,
    /// Tasks whose chunk is locked and whose contribution is under way.
    pub pending: Seq<Task>,
    /// Tasks whose contribution was made (a verifier's: whose verification was made).
    pub completed: Seq<Task>,
    /// Discarded tasks whose chunk the participant still holds locked.
    pub disposing: Seq<Task>,
    /// Tasks whose work was discarded and must be done again.
    pub disposed: Seq<Task>,
}

impl View for ParticipantInfo {
    type V = ParticipantRecord;

    closed spec fn view(&self) -> ParticipantRecord {
        ParticipantRecord {
            bucket_id: self.bucket_id,
            locked_chunks: self.locked_chunks@,
            assigned: self.assigned_tasks@,
            pending: self.pending_tasks@,
            completed: self.completed_tasks@,
            disposing: self.disposing_tasks@,
            disposed: self.disposed_tasks@,
        }
    }
}

/// The tasks a contributor is responsible for this round: done, under way and to do.
pub open spec fn own_tasks(r: ParticipantRecord) -> Seq<Task> {
    r.completed + r.pending + r.assigned
}

/// A fresh record for the given bucket and task list.
pub open spec fn fresh_record(bucket_id: u64, assigned: Seq<Task>) -> ParticipantRecord {
    ParticipantRecord {
        bucket_id,
        locked_chunks: Seq::empty(),
        assigned,
        pending: Seq::empty(),
        completed: Seq::empty(),
        disposing: Seq::empty(),
        disposed: Seq::empty(),
    }
}

/// A contributor holds at most one lock, and the lock belongs to its one pending task or
/// to its one disposing task; a disposing task is still among the tasks to do.
pub open spec fn lock_state_ok(r: ParticipantRecord) -> bool {
    &&& r.locked_chunks.len() <= 1
    &&& r.pending.len() + r.disposing.len() == r.locked_chunks.len()
    &&& r.pending.len() == 1 ==> r.locked_chunks[0] == r.pending[0].chunk_id
    &&& r.disposing.len() == 1 ==> r.locked_chunks[0] == r.disposing[0].chunk_id
    &&& r.disposing.len() == 1 ==> r.assigned.contains(r.disposing[0])
}

/// The record after the next assigned task is taken up and its chunk locked.
pub open spec fn lock_next(r: ParticipantRecord) -> ParticipantRecord {
    ParticipantRecord {
        assigned: r.assigned.drop_first(),
        pending: r.pending.push(r.assigned[0]),
        locked_chunks: r.locked_chunks.push(r.assigned[0].chunk_id),
        ..r
    }
}

/// The record after its pending task is contributed and the lock released.
pub open spec fn finish_pending(r: ParticipantRecord) -> ParticipantRecord {
    ParticipantRecord {
        completed: r.completed.push(r.pending[0]),
        pending: Seq::empty(),
        locked_chunks: Seq::empty(),
        ..r
    }
}

/// The record after the lock of its disposing task is released.
pub open spec fn release_disposing(r: ParticipantRecord) -> ParticipantRecord {
    ParticipantRecord { disposing: Seq::empty(), locked_chunks: Seq::empty(), ..r }
}

/// The record after all work so far is discarded: every task is to be done again from the
/// start; the done and the waiting tasks are disposed, and the under-way one, whose chunk
/// stays locked, is disposing.
pub open spec fn reset_record(r: ParticipantRecord) -> ParticipantRecord {
    ParticipantRecord {
        assigned: own_tasks(r),
        pending: Seq::empty(),
        completed: Seq::empty(),
        disposing: r.disposing + r.pending,
        disposed: r.disposed + r.completed + r.assigned,
        ..r
    }
}

/// The record after more tasks are appended to its list.
pub open spec fn absorb(r: ParticipantRecord, tasks: Seq<Task>) -> ParticipantRecord {
    ParticipantRecord { assigned: r.assigned + tasks, ..r }
}

/// The record after a task is recorded as done.
pub open spec fn record_completed(r: ParticipantRecord, t: Task) -> ParticipantRecord {
    ParticipantRecord { completed: r.completed.push(t), ..r }
}

fn copy_tasks(v: &Vec<Task>) -> (r: Vec<Task>)
    ensures
        r@ == v@,
{
    let mut r: Vec<Task> = Vec::new();
    let mut i: usize = 0;
    while i < v.len()
        invariant
            i <= v.len(),
            r@ == v@.subrange(0, i as int),
        decreases v.len() - i,
    {
        r.push(v[i]);
        i = i + 1;
        assert(r@ =~= v@.subrange(0, i as int));
    }
    assert(v@.subrange(0, v.len() as int) =~= v@);
    r
}

fn copy_chunks(v: &Vec<u64>) -> (r: Vec<u64>)
    ensures
        r@ == v@,
{
    let mut r: Vec<u64> = Vec::new();
    let mut i: usize = 0;
    while i < v.len()
        invariant
            i <= v.len(),
            r@ == v@.subrange(0, i as int),
        decreases v.len() - i,
    {
        r.push(v[i]);
        i = i + 1;
        assert(r@ =~= v@.subrange(0, i as int));
    }
    assert(v@.subrange(0, v.len() as int) =~= v@);
    r
}

impl ParticipantInfo {
    pub fn bucket_id(&self) -> (r: u64)
        ensures
            r == self@.bucket_id,
    {
        self.bucket_id
    }

    pub fn locked_chunks(&self) -> (r: &Vec<u64>)
        ensures
            r@ == self@.locked_chunks,
    {
        &self.locked_chunks
    }

    pub fn assigned_tasks(&self) -> (r: &Vec<Task>)
        ensures
            r@ == self@.assigned,
    {
        &self.assigned_tasks
    }

    pub fn pending_tasks(&self) -> (r: &Vec<Task>)
        ensures
            r@ == self@.pending,
    {
        &self.pending_tasks
    }

    pub fn completed_tasks(&self) -> (r: &Vec<Task>)
        ensures
            r@ == self@.completed,
    {
        &self.completed_tasks
    }

    pub fn disposing_tasks(&self) -> (r: &Vec<Task>)
        ensures
            r@ == self@.disposing,
    {
        &self.disposing_tasks
    }

    pub fn disposed_tasks(&self) -> (r: &Vec<Task>)
        ensures
            r@ == self@.disposed,
    {
        &self.disposed_tasks
    }

    pub(crate) fn new(bucket_id: u64, assigned_tasks: Vec<Task>) -> (r: ParticipantInfo)
        ensures
            r@ == fresh_record(bucket_id, assigned_tasks@),
    {
        ParticipantInfo {
            bucket_id,
            locked_chunks: Vec::new(),
            assigned_tasks,
            pending_tasks: Vec::new(),
            completed_tasks: Vec::new(),
            disposing_tasks: Vec::new(),
            disposed_tasks: Vec::new(),
        }
    }

    /// A second record with the same contents.
    pub fn duplicate(&self) -> (r: ParticipantInfo)
        ensures
            r@ == self@,
    {
        ParticipantInfo {
            bucket_id: self.bucket_id,
            locked_chunks: copy_chunks(&self.locked_chunks),
            assigned_tasks: copy_tasks(&self.assigned_tasks),
            pending_tasks: copy_tasks(&self.pending_tasks),
            completed_tasks: copy_tasks(&self.completed_tasks),
            disposing_tasks: copy_tasks(&self.disposing_tasks),
            disposed_tasks: copy_tasks(&self.disposed_tasks),
        }
    }

    pub(crate) fn own_tasks(&self) -> (r: Vec<Task>)
        ensures
            r@ == own_tasks(self@),
    {
        let mut r = copy_tasks(&self.completed_tasks);
        let mut p = copy_tasks(&self.pending_tasks);
        let mut a = copy_tasks(&self.assigned_tasks);
        r.append(&mut p);
        r.append(&mut a);
        r
    }

    pub(crate) fn lock_next(&mut self) -> (t: Task)
        requires
            old(self)@.assigned.len() > 0,
        ensures
            final(self)@ == lock_next(old(self)@),
            t == old(self)@.assigned[0],
    {
        let t = self.assigned_tasks.remove(0);
        self.pending_tasks.push(t);
        self.locked_chunks.push(t.chunk_id);
        assert(self@.assigned =~= old(self)@.assigned.drop_first());
        t
    }

    pub(crate) fn finish_pending(&mut self) -> (t: Task)
        requires
            old(self)@.pending.len() == 1,
        ensures
            final(self)@ == finish_pending(old(self)@),
            t == old(self)@.pending[0],
    {
        let t = self.pending_tasks[0];
        self.completed_tasks.push(t);
        self.pending_tasks = Vec::new();
        self.locked_chunks = Vec::new();
        t
    }

    pub(crate) fn release_disposing(&mut self)
        ensures
            final(self)@ == release_disposing(old(self)@),
    {
        self.disposing_tasks = Vec::new();
        self.locked_chunks = Vec::new();
    }

    pub(crate) fn reset(&mut self)
        ensures
            final(self)@ == reset_record(old(self)@),
    {
        let mut own = self.own_tasks();
        let mut done = copy_tasks(&self.completed_tasks);
        let mut waiting = copy_tasks(&self.assigned_tasks);
        let mut under_way = copy_tasks(&self.pending_tasks);
        self.disposed_tasks.append(&mut done);
        self.disposed_tasks.append(&mut waiting);
        self.disposing_tasks.append(&mut under_way);
        self.assigned_tasks = own;
        self.pending_tasks = Vec::new();
        self.completed_tasks = Vec::new();
        assert(self@.assigned =~= own_tasks(old(self)@));
    }

    pub(crate) fn absorb(&mut self, mut tasks: Vec<Task>)
        ensures
            final(self)@ == absorb(old(self)@, tasks@),
    {
        self.assigned_tasks.append(&mut tasks);
    }

    pub(crate) fn record_completed(&mut self, t: Task)
        ensures
            final(self)@ == record_completed(old(self)@, t),
    {
        self.completed_tasks.push(t);
    }
}

} // verus!
