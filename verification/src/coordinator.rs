use vstd::prelude::*;
use crate::environment::Environment;
use crate::error::CoordinatorError;
use crate::info::ParticipantInfo;
use crate::locator::{contribution_locator, locator_text, parse_locator};
use crate::participant::{Participant, Seed, SigningKey};
use crate::round::Round;
use crate::state::{
    CoordinatorState, CoordinatorView, people_view, listed, queued_contributors, queued_verifiers,
    initial_view, initialize_outcome, add_to_queue_outcome, update_outcome, try_lock_outcome,
    run_computation_outcome, try_contribute_outcome, contribute_outcome, verify_outcome,
    drop_outcome, lemma_locked_task_contributes, round_view_of,
};

verus! {

/// The signature scheme of test deployments: every message counts as signed.
pub struct Dummy;

/// A ceremony coordinator: it keeps the queue, runs the rounds, hands out chunk locks,
/// takes contributions, has them verified and drops participants.
pub struct Coordinator {
    state: CoordinatorState,
    signature: Box<Dummy>,
}

impl View for Coordinator {
    type V = CoordinatorView;

    closed spec fn view(&self) -> CoordinatorView {
        self.state@
    }
}

impl Coordinator {
    #[verifier::type_invariant]
    closed spec fn inv(self) -> bool {
        self.state@.wf()
    }

    /// A coordinator for the environment, before the ceremony is initialized.
    pub fn new(environment: Environment, signature: Box<Dummy>) -> (r: Result<
        Coordinator,
        CoordinatorError,
    >)
        ensures
            r is Ok <==> environment.number_of_chunks >= 1
                && environment.coordinator_contributor@ is Contributor,
            r matches Ok(c) ==> c@ == initial_view(&environment) && c@.wf(),
            r matches Err(e) ==> e == CoordinatorError::EnvironmentInvalid,
    {
        match CoordinatorState::new(&environment) {
            Ok(state) => Ok(Coordinator { state, signature }),
            Err(e) => Err(e),
        }
    }

    /// Starts the ceremony at round 0.
    pub fn initialize(&mut self) -> (r: Result<(), CoordinatorError>)
        ensures
            final(self)@.wf(),
            match initialize_outcome(old(self)@) {
                Ok(s2) => r is Ok && final(self)@ == s2,
                Err(e) => r == Err::<(), CoordinatorError>(e) && final(self)@ == old(self)@,
            },
    {
        proof {
            use_type_invariant(&*self);
        }
        let mut st = CoordinatorState::placeholder();
        std::mem::swap(&mut st, &mut self.state);
        let r = st.initialize();
        std::mem::swap(&mut st, &mut self.state);
        r
    }

    /// The height of the current round.
    pub fn current_round_height(&self) -> (r: Result<u64, CoordinatorError>)
        ensures
            match self@.height {
                Some(h) => r == Ok::<u64, CoordinatorError>(h),
                None => r == Err::<u64, CoordinatorError>(
                    CoordinatorError::CoordinatorNotInitialized,
                ),
            },
    {
        match self.state.height() {
            Some(h) => Ok(h),
            None => Err(CoordinatorError::CoordinatorNotInitialized),
        }
    }

    /// Adds a participant to the queue for the next round with the given reliability.
    pub fn add_to_queue(&mut self, participant: Participant, reliability_score: u8) -> (r: Result<
        (),
        CoordinatorError,
    >)
        ensures
            final(self)@.wf(),
            match add_to_queue_outcome(old(self)@, participant@, reliability_score) {
                Ok(s2) => r is Ok && final(self)@ == s2,
                Err(e) => r == Err::<(), CoordinatorError>(e) && final(self)@ == old(self)@,
            },
    {
        proof {
            use_type_invariant(&*self);
        }
        let mut st = CoordinatorState::placeholder();
        std::mem::swap(&mut st, &mut self.state);
        let r = st.add_to_queue(&participant, reliability_score);
        std::mem::swap(&mut st, &mut self.state);
        r
    }

    pub fn number_of_queue_contributors(&self) -> (r: usize)
        ensures
            r == queued_contributors(self@.queue).len(),
    {
        self.state.number_of_queue_contributors()
    }

    pub fn number_of_queue_verifiers(&self) -> (r: usize)
        ensures
            r == queued_verifiers(self@.queue).len(),
    {
        self.state.number_of_queue_verifiers()
    }

    pub fn is_queue_contributor(&self, participant: &Participant) -> (r: bool)
        ensures
            r == (participant@ is Contributor && listed(self@.queue, participant@)),
    {
        self.state.is_queue_contributor(participant)
    }

    pub fn is_queue_verifier(&self, participant: &Participant) -> (r: bool)
        ensures
            r == (participant@ is Verifier && listed(self@.queue, participant@)),
    {
        self.state.is_queue_verifier(participant)
    }

    pub fn is_current_contributor(&self, participant: &Participant) -> (r: bool)
        ensures
            r == listed(self@.contributors, participant@),
    {
        proof {
            use_type_invariant(self);
        }
        self.state.is_current_contributor(participant)
    }

    pub fn is_current_verifier(&self, participant: &Participant) -> (r: bool)
        ensures
            r == listed(self@.verifiers, participant@),
    {
        proof {
            use_type_invariant(self);
        }
        self.state.is_current_verifier(participant)
    }

    pub fn is_finished_contributor(&self, participant: &Participant) -> (r: bool)
        ensures
            r == (participant@ is Contributor && self@.finished_contributors.contains(participant@)),
    {
        self.state.is_finished_contributor(participant)
    }

    pub fn is_finished_verifier(&self, participant: &Participant) -> (r: bool)
        ensures
            r == (participant@ is Verifier && self@.finished_verifiers.contains(participant@)),
    {
        self.state.is_finished_verifier(participant)
    }

    /// Moves the ceremony on to the next round when the current one is finished: with the
    /// queued contributors and verifiers, or, for a role that nobody queued for, with the
    /// finished round's participants of that role.
    pub fn update(&mut self) -> (r: Result<(), CoordinatorError>)
        ensures
            final(self)@.wf(),
            match update_outcome(old(self)@) {
                Ok(s2) => r is Ok && final(self)@ == s2,
                Err(e) => r == Err::<(), CoordinatorError>(e) && final(self)@ == old(self)@,
            },
    {
        proof {
            use_type_invariant(&*self);
        }
        let mut st = CoordinatorState::placeholder();
        std::mem::swap(&mut st, &mut self.state);
        let r = st.update();
        std::mem::swap(&mut st, &mut self.state);
        r
    }

    /// Locks the chunk of the contributor's next task and gives the chunk id with the
    /// locators of the previous contribution's file, of the challenge (its verified form) and
    /// of the response the contributor is to write.
    pub fn try_lock(&mut self, participant: &Participant) -> (r: Result<
        (u64, String, String, String),
        CoordinatorError,
    >)
        ensures
            final(self)@.wf(),
            match try_lock_outcome(old(self)@, participant@) {
                Ok((s2, t)) => r matches Ok(
                    (chunk, previous, challenge, response),
                ) && chunk == t.chunk_id && previous@ == locator_text(
                    old(self)@.height->0,
                    t.chunk_id,
                    (t.contribution_id - 1) as u64,
                    false,
                ) && challenge@ == locator_text(
                    old(self)@.height->0,
                    t.chunk_id,
                    (t.contribution_id - 1) as u64,
                    true,
                ) && response@ == locator_text(
                    old(self)@.height->0,
                    t.chunk_id,
                    t.contribution_id,
                    false,
                ) && final(self)@ == s2,
                Err(e) => r == Err::<(u64, String, String, String), CoordinatorError>(e) && final(self)@ == old(self)@,
            },
    {
        proof {
            use_type_invariant(&*self);
        }
        let h = match self.state.height() {
            Some(h) => h,
            None => 0,
        };
        let mut st = CoordinatorState::placeholder();
        std::mem::swap(&mut st, &mut self.state);
        let locked = st.try_lock(participant);
        std::mem::swap(&mut st, &mut self.state);
        let t = locked?;
        let previous_id = if t.contribution_id > 0 {
            t.contribution_id - 1
        } else {
            0
        };
        proof {
            assert(old(self)@.contributors[crate::state::position(old(self)@.contributors, participant@)].1.assigned.contains(t));
            crate::state::lemma_assigned_in_round(old(self)@, t);
        }
        let previous = contribution_locator(h, t.chunk_id, previous_id, false);
        let challenge = contribution_locator(h, t.chunk_id, previous_id, true);
        let response = contribution_locator(h, t.chunk_id, t.contribution_id, false);
        Ok((t.chunk_id, previous, challenge, response))
    }

    /// Records that the contributor has computed the contribution of the task it holds
    /// locked, for the given round, chunk and contribution id.
    pub fn run_computation(
        &mut self,
        round_height: u64,
        chunk_id: u64,
        contribution_id: u64,
        participant: &Participant,
        signing_key: &SigningKey,
        seed: &Seed,
    ) -> (r: Result<(), CoordinatorError>)
        ensures
            final(self)@.wf(),
            match run_computation_outcome(
                old(self)@,
                round_height,
                chunk_id,
                contribution_id,
                participant@,
            ) {
                Ok(s2) => r is Ok && final(self)@ == s2,
                Err(e) => r == Err::<(), CoordinatorError>(e) && final(self)@ == old(self)@,
            },
    {
        proof {
            use_type_invariant(&*self);
        }
        let mut st = CoordinatorState::placeholder();
        std::mem::swap(&mut st, &mut self.state);
        let r = st.run_computation(round_height, chunk_id, contribution_id, participant);
        std::mem::swap(&mut st, &mut self.state);
        r
    }

    /// Hands in the chunk the contributor holds locked.
    pub fn try_contribute(&mut self, participant: &Participant, chunk_id: u64) -> (r: Result<
        (),
        CoordinatorError,
    >)
        ensures
            final(self)@.wf(),
            match try_contribute_outcome(old(self)@, participant@, chunk_id) {
                Ok(s2) => r is Ok && final(self)@ == s2,
                Err(e) => r == Err::<(), CoordinatorError>(e) && final(self)@ == old(self)@,
            },
    {
        proof {
            use_type_invariant(&*self);
        }
        let mut st = CoordinatorState::placeholder();
        std::mem::swap(&mut st, &mut self.state);
        let r = st.try_contribute(participant, chunk_id);
        std::mem::swap(&mut st, &mut self.state);
        r
    }

    /// Locks the chunk of the contributor's next task, computes the contribution and hands it
    /// in; refused exactly when the lock is.
    pub fn contribute(
        &mut self,
        participant: &Participant,
        signing_key: &SigningKey,
        seed: &Seed,
    ) -> (r: Result<(), CoordinatorError>)
        ensures
            final(self)@.wf(),
            (r is Ok) == (try_lock_outcome(old(self)@, participant@) is Ok),
            match contribute_outcome(old(self)@, participant@) {
                Ok(s2) => r is Ok && final(self)@ == s2,
                Err(e) => r == Err::<(), CoordinatorError>(e) && final(self)@ == old(self)@,
            },
    {
        proof {
            use_type_invariant(&*self);
        }
        let ghost s0 = self@;
        let h = match self.state.height() {
            Some(h) => h,
            None => 0,
        };
        let mut st = CoordinatorState::placeholder();
        std::mem::swap(&mut st, &mut self.state);
        let locked = st.try_lock(participant);
        let r = match locked {
            Err(e) => Err(e),
            Ok(t) => {
                proof {
                    lemma_locked_task_contributes(s0, participant@);
                }
                match st.run_computation(h, t.chunk_id, t.contribution_id, participant) {
                    Err(e) => Err(e),
                    Ok(()) => st.try_contribute(participant, t.chunk_id),
                }
            },
        };
        std::mem::swap(&mut st, &mut self.state);
        r
    }

    /// Verifies the oldest contribution waiting for verification.
    pub fn verify(&mut self, participant: &Participant, signing_key: &SigningKey) -> (r: Result<
        (),
        CoordinatorError,
    >)
        ensures
            final(self)@.wf(),
            match verify_outcome(old(self)@, participant@) {
                Ok((s2, _)) => r is Ok && final(self)@ == s2,
                Err(e) => r == Err::<(), CoordinatorError>(e) && final(self)@ == old(self)@,
            },
    {
        proof {
            use_type_invariant(&*self);
        }
        let mut st = CoordinatorState::placeholder();
        std::mem::swap(&mut st, &mut self.state);
        let r = match st.verify(participant) {
            Ok(_) => Ok(()),
            Err(e) => Err(e),
        };
        std::mem::swap(&mut st, &mut self.state);
        r
    }

    /// Drops a participant from the current round and gives the locators of the contribution
    /// files withdrawn with it.
    pub fn drop_participant(&mut self, participant: &Participant) -> (r: Result<
        Vec<String>,
        CoordinatorError,
    >)
        ensures
            final(self)@.wf(),
            match drop_outcome(old(self)@, participant@) {
                Ok((s2, removed)) => r matches Ok(locators) && locators@.len() == removed.len() && (
                forall|i: int|
                    0 <= i < removed.len() ==> #[trigger] locators@[i]@ == locator_text(
                        old(self)@.height->0,
                        removed[i].chunk_id,
                        removed[i].contribution_id,
                        false,
                    )) && final(self)@ == s2,
                Err(e) => r == Err::<Vec<String>, CoordinatorError>(e) && final(self)@ == old(self)@,
            },
    {
        proof {
            use_type_invariant(&*self);
        }
        let mut st = CoordinatorState::placeholder();
        std::mem::swap(&mut st, &mut self.state);
        let r = st.drop_participant(participant);
        std::mem::swap(&mut st, &mut self.state);
        r
    }

    /// The current contributors with their records.
    pub fn current_contributors(&self) -> (r: Vec<(Participant, ParticipantInfo)>)
        ensures
            people_view(r@) == self@.contributors,
    {
        self.state.current_contributors()
    }

    /// The current verifiers with their records.
    pub fn current_verifiers(&self) -> (r: Vec<(Participant, ParticipantInfo)>)
        ensures
            people_view(r@) == self@.verifiers,
    {
        self.state.current_verifiers()
    }

    /// A snapshot of the current round: its height and, for every chunk, its lock holder
    /// and the standing contributions to it.
    pub fn current_round(&self) -> (r: Result<Round, CoordinatorError>)
        ensures
            match self@.height {
                Some(_) => r matches Ok(round) && round@ == round_view_of(self@),
                None => r matches Err(e) && e == CoordinatorError::CoordinatorNotInitialized,
            },
    {
        match self.state.height() {
            Some(_) => Ok(self.state.current_round()),
            None => Err(CoordinatorError::CoordinatorNotInitialized),
        }
    }

    /// The coordinator's state.
    pub fn state(&self) -> (r: &CoordinatorState)
        ensures
            r@ == self@,
            r@.wf(),
    {
        proof {
            use_type_invariant(self);
        }
        &self.state
    }

    /// Reads a contribution file locator back into its round height, chunk id, contribution
    /// id and whether it names the verified form.
    pub fn parse_contribution_file_locator(&self, locator: &str) -> (r: Result<
        (u64, u64, u64, bool),
        CoordinatorError,
    >)
        ensures
            r matches Ok((h, c, k, v)) ==> locator@ == locator_text(h, c, k, v),
            r is Err ==> r == Err::<(u64, u64, u64, bool), _>(CoordinatorError::LocatorInvalid)
                && forall|h: u64, c: u64, k: u64, v: bool| locator@ != locator_text(h, c, k, v),
    {
        parse_locator(locator)
    }
}

} // verus!
