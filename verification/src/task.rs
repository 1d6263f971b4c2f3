use vstd::prelude::*;
use vstd::arithmetic::div_mod::*;
use vstd::arithmetic::mul::*;
use crate::error::CoordinatorError;

verus! {

/// One unit of work: the contribution with id `contribution_id` on chunk `chunk_id`.
#[derive(Clone, Copy, Debug, PartialEq, Eq, Hash, Structural)]
pub struct Task {
    pub chunk_id: u64,
    pub contribution_id: u64,
}

impl Task {
    pub fn new(chunk_id: u64, contribution_id: u64) -> (t: Task)
        ensures
            t.chunk_id == chunk_id,
            t.contribution_id == contribution_id,
    {
        Task { chunk_id, contribution_id }
    }
}

/// The chunks are cut into one bucket per contributor; this is the size of all buckets but
/// the last, which also takes the remainder.
pub open spec fn bucket_size(chunks: int, contributors: int) -> int {
    chunks / contributors
}

/// The bucket that holds `chunk`.
pub open spec fn bucket_of(chunk: int, chunks: int, contributors: int) -> int {
    let j = chunk / bucket_size(chunks, contributors);
    if j < contributors {
        j
    } else {
        contributors - 1
    }
}

/// The contribution id that the contributor starting at bucket `bucket` makes on `chunk`:
/// the contributor that starts at the chunk's own bucket contributes first, the one that
/// starts at the bucket before it second, and so on around the ring of buckets.
pub open spec fn contribution_id_of(bucket: int, chunk: int, chunks: int, contributors: int) -> int {
    (bucket_of(chunk, chunks, contributors) - bucket) % contributors + 1
}

/// The chunk that the contributor starting at bucket `bucket` works on at step `step`:
/// it starts at the first chunk of its bucket and walks through all chunks in order,
/// wrapping around at the end.
pub open spec fn chunk_at(bucket: int, step: int, chunks: int, contributors: int) -> int {
    (bucket * bucket_size(chunks, contributors) + step) % chunks
}

pub open spec fn task_at(bucket: int, step: int, chunks: int, contributors: int) -> Task {
    let chunk = chunk_at(bucket, step, chunks, contributors);
    Task {
        chunk_id: chunk as u64,
        contribution_id: contribution_id_of(bucket, chunk, chunks, contributors) as u64,
    }
}

/// All tasks of the contributor starting at bucket `bucket`, in the order it works on them.
pub open spec fn bucket_tasks(bucket: int, chunks: int, contributors: int) -> Seq<Task> {
    Seq::new(chunks as nat, |i: int| task_at(bucket, i, chunks, contributors))
}

pub open spec fn schedule_is_valid(bucket: int, chunks: int, contributors: int) -> bool {
    0 <= bucket < contributors <= chunks
}

/// A task exists in a round of `contributors` contributors over `chunks` chunks.
pub open spec fn task_in_round(t: Task, chunks: int, contributors: int) -> bool {
    &&& t.chunk_id < chunks
    &&& 1 <= t.contribution_id <= contributors
}

proof fn lemma_bucket_size_positive(chunks: int, contributors: int)
    requires
        0 < contributors <= chunks,
    ensures
        bucket_size(chunks, contributors) >= 1,
        contributors * bucket_size(chunks, contributors) <= chunks,
{
    lemma_div_is_ordered(contributors, chunks, contributors);
    lemma_div_by_self(contributors);
    lemma_fundamental_div_mod(chunks, contributors);
    lemma_mod_pos_bound(chunks, contributors);
}

proof fn lemma_bucket_start(bucket: int, chunks: int, contributors: int)
    requires
        schedule_is_valid(bucket, chunks, contributors),
    ensures
        0 <= bucket * bucket_size(chunks, contributors) < chunks,
{
    lemma_bucket_size_positive(chunks, contributors);
    let bs = bucket_size(chunks, contributors);
    lemma_mul_strict_inequality(bucket, contributors, bs);
    lemma_mul_is_commutative(contributors, bs);
    lemma_mul_inequality(0, bucket, bs);
}

/// `a % m` for `0 <= a < 2 * m`.
proof fn lemma_mod_once(a: int, m: int)
    requires
        0 < m,
        0 <= a < 2 * m,
    ensures
        a % m == (if a < m { a } else { a - m }),
{
    if a < m {
        lemma_fundamental_div_mod_converse_mod(a, m, 0, a);
    } else {
        lemma_fundamental_div_mod_converse_mod(a, m, 1, a - m);
    }
}

/// `d % m` for `-m <= d < m`.
proof fn lemma_mod_signed_once(d: int, m: int)
    requires
        0 < m,
        -m <= d < m,
    ensures
        d % m == (if d >= 0 { d } else { d + m }),
{
    if d >= 0 {
        lemma_fundamental_div_mod_converse_mod(d, m, 0, d);
    } else {
        lemma_fundamental_div_mod_converse_mod(d, m, -1, d + m);
    }
}

proof fn lemma_bucket_of_range(chunk: int, chunks: int, contributors: int)
    requires
        0 < contributors <= chunks,
        0 <= chunk,
    ensures
        0 <= bucket_of(chunk, chunks, contributors) < contributors,
{
    lemma_bucket_size_positive(chunks, contributors);
    lemma_div_pos_is_pos(chunk, bucket_size(chunks, contributors));
}

/// Builds the task list of the contributor that starts at bucket `bucket_id`.
pub fn initialize_tasks(bucket_id: u64, number_of_chunks: u64, number_of_contributors: u64) -> (r:
    Result<Vec<Task>, CoordinatorError>)
    ensures
        r is Ok <==> schedule_is_valid(
            bucket_id as int,
            number_of_chunks as int,
            number_of_contributors as int,
        ),
        r matches Ok(tasks) ==> tasks@ == bucket_tasks(
            bucket_id as int,
            number_of_chunks as int,
            number_of_contributors as int,
        ),
        r matches Err(e) ==> e == CoordinatorError::TaskScheduleInvalid,
{
    if !(bucket_id < number_of_contributors && number_of_contributors <= number_of_chunks) {
        return Err(CoordinatorError::TaskScheduleInvalid);
    }
    let ghost c = number_of_chunks as int;
    let ghost n = number_of_contributors as int;
    let ghost b = bucket_id as int;
    let bs = number_of_chunks / number_of_contributors;
    proof {
        lemma_bucket_start(b, c, n);
        lemma_bucket_size_positive(c, n);
    }
    let start = bucket_id * bs;
    let mut tasks: Vec<Task> = Vec::new();
    let mut i: u64 = 0;
    while i < number_of_chunks
        invariant
            c == number_of_chunks,
            n == number_of_contributors,
            b == bucket_id,
            schedule_is_valid(b, c, n),
            bs == bucket_size(c, n),
            bs >= 1,
            start == b * bs,
            start < number_of_chunks,
            i <= number_of_chunks,
            tasks@.len() == i,
            forall|k: int| 0 <= k < i ==> tasks@[k] == task_at(b, k, c, n),
        decreases number_of_chunks - i,
    {
        let chunk = if i < number_of_chunks - start {
            start + i
        } else {
            i - (number_of_chunks - start)
        };
        proof {
            lemma_mod_once(start + i, c);
        }
        assert(chunk == chunk_at(b, i as int, c, n));
        let j = chunk / bs;
        let bucket = if j < number_of_contributors {
            j
        } else {
            number_of_contributors - 1
        };
        proof {
            lemma_bucket_of_range(chunk as int, c, n);
        }
        assert(bucket == bucket_of(chunk as int, c, n));
        let contribution_id = if bucket >= bucket_id {
            bucket - bucket_id + 1
        } else {
            number_of_contributors - bucket_id + bucket + 1
        };
        proof {
            lemma_mod_signed_once(bucket - b, n);
        }
        assert(contribution_id == contribution_id_of(b, chunk as int, c, n));
        tasks.push(Task { chunk_id: chunk, contribution_id });
        i = i + 1;
    }
    assert(tasks@ =~= bucket_tasks(b, c, n));
    Ok(tasks)
}


proof fn lemma_task_at_in_round(bucket: int, step: int, chunks: int, contributors: int)
    requires
        schedule_is_valid(bucket, chunks, contributors),
        chunks <= u64::MAX,
        0 <= step < chunks,
    ensures
        task_in_round(task_at(bucket, step, chunks, contributors), chunks, contributors),
        task_at(bucket, step, chunks, contributors).chunk_id as int == chunk_at(
            bucket,
            step,
            chunks,
            contributors,
        ),
        task_at(bucket, step, chunks, contributors).contribution_id as int == contribution_id_of(
            bucket,
            chunk_at(bucket, step, chunks, contributors),
            chunks,
            contributors,
        ),
{
    let chunk = chunk_at(bucket, step, chunks, contributors);
    lemma_mod_bound(bucket * bucket_size(chunks, contributors) + step, chunks);
    lemma_bucket_of_range(chunk, chunks, contributors);
    lemma_mod_bound(bucket_of(chunk, chunks, contributors) - bucket, contributors);
}

/// The step at which the contributor starting at `bucket` reaches `chunk`.
proof fn lemma_step_of_chunk(bucket: int, chunk: int, chunks: int, contributors: int) -> (step: int)
    requires
        schedule_is_valid(bucket, chunks, contributors),
        0 <= chunk < chunks,
    ensures
        0 <= step < chunks,
        chunk_at(bucket, step, chunks, contributors) == chunk,
{
    lemma_bucket_start(bucket, chunks, contributors);
    let y = bucket * bucket_size(chunks, contributors);
    lemma_mod_signed_once(chunk - y, chunks);
    let step = (chunk - y) % chunks;
    lemma_mod_once(y + step, chunks);
    step
}

proof fn lemma_contribution_id_injective(b1: int, b2: int, chunk: int, chunks: int, contributors: int)
    requires
        schedule_is_valid(b1, chunks, contributors),
        schedule_is_valid(b2, chunks, contributors),
        0 <= chunk,
        contribution_id_of(b1, chunk, chunks, contributors) == contribution_id_of(
            b2,
            chunk,
            chunks,
            contributors,
        ),
    ensures
        b1 == b2,
{
    let j = bucket_of(chunk, chunks, contributors);
    lemma_bucket_of_range(chunk, chunks, contributors);
    lemma_mod_signed_once(j - b1, contributors);
    lemma_mod_signed_once(j - b2, contributors);
}

proof fn lemma_contribution_id_onto(k: int, chunk: int, chunks: int, contributors: int) -> (b: int)
    requires
        0 < contributors <= chunks,
        0 <= chunk,
        1 <= k <= contributors,
    ensures
        schedule_is_valid(b, chunks, contributors),
        contribution_id_of(b, chunk, chunks, contributors) == k,
{
    let j = bucket_of(chunk, chunks, contributors);
    lemma_bucket_of_range(chunk, chunks, contributors);
    let d = j - (k - 1);
    lemma_mod_signed_once(d, contributors);
    let b = d % contributors;
    lemma_mod_signed_once(j - b, contributors);
    b
}

/// The task lists of the contributors of a round, one per bucket, together hold every task
/// of the round exactly once: each list holds only tasks of the round, without repetition,
/// every task of the round is in some list, and no task is in two lists.
pub proof fn lemma_round_tasks_partition(chunks: int, contributors: int)
    requires
        0 < contributors <= chunks <= u64::MAX,
    ensures
        forall|b: int, t: Task|
            0 <= b < contributors && #[trigger] bucket_tasks(b, chunks, contributors).contains(t)
                ==> task_in_round(t, chunks, contributors),
        forall|t: Task|
            #![trigger task_in_round(t, chunks, contributors)]
            task_in_round(t, chunks, contributors) ==> exists|b: int|
                0 <= b < contributors && #[trigger] bucket_tasks(b, chunks, contributors).contains(t),
        forall|b1: int, b2: int, t: Task|
            0 <= b1 < contributors && 0 <= b2 < contributors && #[trigger] bucket_tasks(
                b1,
                chunks,
                contributors,
            ).contains(t) && #[trigger] bucket_tasks(b2, chunks, contributors).contains(t)
                ==> b1 == b2,
        forall|b: int|
            0 <= b < contributors ==> #[trigger] bucket_tasks(b, chunks, contributors).no_duplicates(),
{
    assert forall|b: int, t: Task|
        0 <= b < contributors && #[trigger] bucket_tasks(b, chunks, contributors).contains(
            t,
        ) implies task_in_round(t, chunks, contributors) by {
        let i = choose|i: int|
            0 <= i < bucket_tasks(b, chunks, contributors).len() && bucket_tasks(
                b,
                chunks,
                contributors,
            )[i] == t;
        lemma_task_at_in_round(b, i, chunks, contributors);
    }
    assert forall|t: Task| #[trigger] task_in_round(t, chunks, contributors) implies exists|b: int|
        0 <= b < contributors && #[trigger] bucket_tasks(b, chunks, contributors).contains(t) by {
        let b = lemma_contribution_id_onto(
            t.contribution_id as int,
            t.chunk_id as int,
            chunks,
            contributors,
        );
        let i = lemma_step_of_chunk(b, t.chunk_id as int, chunks, contributors);
        lemma_task_at_in_round(b, i, chunks, contributors);
        assert(bucket_tasks(b, chunks, contributors)[i] == t);
        assert(bucket_tasks(b, chunks, contributors).contains(t));
    }
    assert forall|b1: int, b2: int, t: Task|
        0 <= b1 < contributors && 0 <= b2 < contributors && #[trigger] bucket_tasks(
            b1,
            chunks,
            contributors,
        ).contains(t) && #[trigger] bucket_tasks(b2, chunks, contributors).contains(t) implies b1
        == b2 by {
        let i1 = choose|i: int|
            0 <= i < bucket_tasks(b1, chunks, contributors).len() && bucket_tasks(
                b1,
                chunks,
                contributors,
            )[i] == t;
        let i2 = choose|i: int|
            0 <= i < bucket_tasks(b2, chunks, contributors).len() && bucket_tasks(
                b2,
                chunks,
                contributors,
            )[i] == t;
        lemma_task_at_in_round(b1, i1, chunks, contributors);
        lemma_task_at_in_round(b2, i2, chunks, contributors);
        lemma_contribution_id_injective(b1, b2, t.chunk_id as int, chunks, contributors);
    }
    assert forall|b: int| 0 <= b < contributors implies #[trigger] bucket_tasks(
        b,
        chunks,
        contributors,
    ).no_duplicates() by {
        let s = bucket_tasks(b, chunks, contributors);
        lemma_bucket_start(b, chunks, contributors);
        let y = b * bucket_size(chunks, contributors);
        assert forall|i: int, j: int| 0 <= i < s.len() && 0 <= j < s.len() && i != j implies s[i]
            != s[j] by {
            lemma_task_at_in_round(b, i, chunks, contributors);
            lemma_task_at_in_round(b, j, chunks, contributors);
            lemma_mod_once(y + i, chunks);
            lemma_mod_once(y + j, chunks);
        }
    }
}

} // verus!
