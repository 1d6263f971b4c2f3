use vstd::prelude::*;
use vstd::string::*;
use vstd::arithmetic::power2::*;
use crate::participant::{Participant, ParticipantId};

verus! {

/// Whether the parameters are contributed to as a whole or chunk by chunk.
#[derive(Clone, Copy, Debug, PartialEq, Eq, Structural)]
pub enum ContributionMode {
    Full,
    Chunked,
}

/// The proof system whose parameters the ceremony produces.
#[derive(Clone, Copy, Debug, PartialEq, Eq, Structural)]
pub enum ProvingSystem {
    Groth16,
    Marlin,
}

/// The curve the parameters live on.
#[derive(Clone, Copy, Debug, PartialEq, Eq, Structural)]
#[allow(non_camel_case_types)]
pub enum CurveKind {
    Bls12_377,
    BW6,
}

/// The ceremony's parameters: contribution mode, proving system, curve, power, batch size
/// and chunk size.
#[derive(Clone, Copy, Debug)]
pub enum Parameters {
    Custom((ContributionMode, ProvingSystem, CurveKind, usize, usize, usize)),
}

/// How many powers the parameters hold: `2^(power + 1) - 1` for Groth16, `2^power` for Marlin.
pub open spec fn powers_length(proving_system: ProvingSystem, power: nat) -> nat {
    match proving_system {
        ProvingSystem::Groth16 => (pow2(power + 1) - 1) as nat,
        ProvingSystem::Marlin => pow2(power),
    }
}

/// How many chunks the parameters are cut into: one in full mode, else the powers divided
/// into chunks of `chunk_size`, the last one possibly shorter. None for a zero chunk size or a
/// power above 62.
pub open spec fn chunks_for(
    mode: ContributionMode,
    proving_system: ProvingSystem,
    power: nat,
    chunk_size: nat,
) -> nat {
    if chunk_size == 0 || power > 62 {
        0
    } else {
        match mode {
            ContributionMode::Full => 1,
            ContributionMode::Chunked => {
                let len = powers_length(proving_system, power);
                len / chunk_size + (if len % chunk_size == 0 {
                    0nat
                } else {
                    1nat
                })
            },
        }
    }
}

/// The identifier of the coordinator's own contributor, which takes over the work of dropped
/// contributors.
pub open spec fn coordinator_contributor_id() -> ParticipantId {
    ParticipantId::Contributor("testing-coordinator-contributor"@)
}

/// The settings a coordinator runs with.
#[derive(Clone, Debug)]
pub struct Environment {
    pub parameters: Parameters,
    pub number_of_chunks: u64,
    pub allow_current_contributors_in_queue: bool,
    pub allow_current_verifiers_in_queue: bool,
    pub coordinator_contributor: Participant,
}

/// The settings of a test deployment.
#[derive(Clone, Debug)]
pub struct Testing {
    pub environment: Environment,
}

fn compute_number_of_chunks(
    mode: ContributionMode,
    proving_system: ProvingSystem,
    power: usize,
    chunk_size: usize,
) -> (r: u64)
    ensures
        r as nat == chunks_for(mode, proving_system, power as nat, chunk_size as nat),
{
    if chunk_size == 0 || power > 62 {
        return 0;
    }
    let mut p: u64 = 1;
    let mut i: usize = 0;
    proof {
        lemma2_to64();
    }
    let top: usize = match proving_system {
        ProvingSystem::Groth16 => power + 1,
        ProvingSystem::Marlin => power,
    };
    while i < top
        invariant
            top <= 63,
            i <= top,
            p as nat == pow2(i as nat),
        decreases top - i,
    {
        proof {
            lemma_pow2_unfold((i + 1) as nat);
            lemma2_to64();
            lemma_pow2_strictly_increases((i + 1) as nat, 64);
        }
        p = p * 2;
        i = i + 1;
    }
    proof {
        lemma_pow2_pos(i as nat);
    }
    let len = match proving_system {
        ProvingSystem::Groth16 => p - 1,
        ProvingSystem::Marlin => p,
    };
    match mode {
        ContributionMode::Full => 1,
        ContributionMode::Chunked => {
            let cs = chunk_size as u64;
            let whole = len / cs;
            if len % cs == 0 {
                whole
            } else {
                proof {
                    assert(cs >= 2) by (nonlinear_arith)
                        requires
                            len % cs != 0,
                            cs >= 1,
                    ;
                    assert(whole < 0xffff_ffff_ffff_ffff) by (nonlinear_arith)
                        requires
                            whole == len / cs,
                            cs >= 2,
                            len <= 0xffff_ffff_ffff_ffff,
                    ;
                }
                whole + 1
            }
        },
    }
}

impl Testing {
    /// The test settings for the given parameters: current participants may queue again, and
    /// the coordinator's own contributor is `testing-coordinator-contributor`.
    pub fn from(parameters: Parameters) -> (r: Testing)
        ensures
            r.environment.parameters == parameters,
            r.environment.allow_current_contributors_in_queue,
            r.environment.allow_current_verifiers_in_queue,
            r.environment.coordinator_contributor@ == coordinator_contributor_id(),
            match parameters {
                Parameters::Custom((mode, proving_system, _, power, _, chunk_size)) => r.environment.number_of_chunks
                    as nat == chunks_for(mode, proving_system, power as nat, chunk_size as nat),
            },
    {
        let number_of_chunks = match parameters {
            Parameters::Custom((mode, proving_system, _, power, _, chunk_size)) => compute_number_of_chunks(
                mode,
                proving_system,
                power,
                chunk_size,
            ),
        };
        Testing {
            environment: Environment {
                parameters,
                number_of_chunks,
                allow_current_contributors_in_queue: true,
                allow_current_verifiers_in_queue: true,
                coordinator_contributor: Participant::Contributor(
                    String::from_str("testing-coordinator-contributor"),
                ),
            },
        }
    }

    /// The settings themselves.
    pub fn into(self) -> (r: Environment)
        ensures
            r == self.environment,
    {
        self.environment
    }
}

impl Environment {
    pub fn number_of_chunks(&self) -> (r: u64)
        ensures
            r == self.number_of_chunks,
    {
        self.number_of_chunks
    }

    /// A second value with the same settings.
    pub fn duplicate(&self) -> (r: Environment)
        ensures
            r.parameters == self.parameters,
            r.number_of_chunks == self.number_of_chunks,
            r.allow_current_contributors_in_queue == self.allow_current_contributors_in_queue,
            r.allow_current_verifiers_in_queue == self.allow_current_verifiers_in_queue,
            r.coordinator_contributor@ == self.coordinator_contributor@,
    {
        Environment {
            parameters: self.parameters,
            number_of_chunks: self.number_of_chunks,
            allow_current_contributors_in_queue: self.allow_current_contributors_in_queue,
            allow_current_verifiers_in_queue: self.allow_current_verifiers_in_queue,
            coordinator_contributor: self.coordinator_contributor.duplicate(),
        }
    }
}

/// Prepares a test deployment of the given settings and hands them back.
pub fn initialize_test_environment_with_debug(environment: &Environment) -> (r: Environment)
    ensures
        r.parameters == environment.parameters,
        r.number_of_chunks == environment.number_of_chunks,
        r.allow_current_contributors_in_queue == environment.allow_current_contributors_in_queue,
        r.allow_current_verifiers_in_queue == environment.allow_current_verifiers_in_queue,
        r.coordinator_contributor@ == environment.coordinator_contributor@,
{
    environment.duplicate()
}

} // verus!
