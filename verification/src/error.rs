use vstd::prelude::*;

verus! {

/// Why a coordinator operation was refused.
#[derive(Clone, Copy, Debug, PartialEq, Eq, Structural)]
pub enum CoordinatorError {
    /// The chunk count, contributor count or bucket of a task schedule do not fit together.
    TaskScheduleInvalid,
    /// The environment describes no chunk (a zero chunk size or an oversized power).
    EnvironmentInvalid,
    /// The ceremony has not been initialized.
    CoordinatorNotInitialized,
    /// The ceremony was already initialized.
    CoordinatorAlreadyInitialized,
    /// The participant is already waiting in the queue.
    ParticipantAlreadyAdded,
    /// The participant takes part in the current round and may not queue again.
    ParticipantInCurrentRoundCannotJoinQueue,
    /// The queue holds as many contributors as there are chunks.
    QueueIsFull,
    /// The participant is not a contributor of the current round.
    ParticipantNotFound,
    /// The participant has the wrong role for the operation.
    ParticipantUnauthorized,
    /// The contributor has no task left to lock.
    ContributorHasNoTasks,
    /// The contributor already holds a chunk lock.
    ChunkLockLimitReached,
    /// Another participant holds the lock on the chunk.
    ChunkLockAlreadyAcquired,
    /// The previous contribution on the chunk has not been verified yet.
    ChunkMissingVerification,
    /// The participant does not hold the lock on the chunk.
    ChunkNotLockedOrByWrongParticipant,
    /// The round height, chunk or contribution id does not match the locked task.
    ContributionIdMismatch,
    /// The contribution has not been computed before being submitted.
    ContributionMissing,
    /// There is no contribution waiting for verification.
    NoPendingVerifications,
    /// A contribution file locator could not be read.
    LocatorInvalid,
    /// A counter would leave the range of its integer type.
    CounterOverflow,
    /// The operating system's random source could not fill a seed.
    RandomnessUnavailable,
}

} // verus!
