use vstd::prelude::*;
use vstd::string::*;
use rand::RngCore;
use crate::error::CoordinatorError;

verus! {

/// Length in bytes of the seed that a contributor's randomness is drawn from.
pub const SEED_LENGTH: usize = 32;

/// The seed that a contributor's randomness is drawn from.
pub type Seed = [u8; SEED_LENGTH];

/// The key a participant signs its messages with.
pub type SigningKey = String;

/// A participant of the ceremony, by role and identifier.
#[derive(Clone, Debug, PartialEq, Eq, Hash)]
pub enum Participant {
    Contributor(String),
    Verifier(String),
}

/// A participant as a mathematical value: its role and the characters of its identifier.
pub enum ParticipantId {
    Contributor(Seq<char>),
    Verifier(Seq<char>),
}

impl View for Participant {
    type V = ParticipantId;

    open spec fn view(&self) -> ParticipantId {
        match self {
            Participant::Contributor(id) => ParticipantId::Contributor(id@),
            Participant::Verifier(id) => ParticipantId::Verifier(id@),
        }
    }
}

impl Participant {
    pub fn is_contributor(&self) -> (r: bool)
        ensures
            r == (self@ is Contributor),
    {
        match self {
            Participant::Contributor(_) => true,
            Participant::Verifier(_) => false,
        }
    }

    pub fn is_verifier(&self) -> (r: bool)
        ensures
            r == (self@ is Verifier),
    {
        match self {
            Participant::Contributor(_) => false,
            Participant::Verifier(_) => true,
        }
    }

    /// Whether both name the same participant: the same role and the same identifier.
    pub fn same_as(&self, other: &Participant) -> (r: bool)
        ensures
            r == (self@ == other@),
    {
        match (self, other) {
            (Participant::Contributor(a), Participant::Contributor(b)) => *a == *b,
            (Participant::Verifier(a), Participant::Verifier(b)) => *a == *b,
            _ => false,
        }
    }

    /// A second value naming the same participant.
    pub fn duplicate(&self) -> (r: Participant)
        ensures
            r@ == self@,
    {
        match self {
            Participant::Contributor(id) => Participant::Contributor(id.clone()),
            Participant::Verifier(id) => Participant::Verifier(id.clone()),
        }
    }
}

/// The error type of `rand`'s random sources (`rand_core::Error`).
#[verifier::external_type_specification]
#[verifier::external_body]
pub struct ExRandError(rand::Error);

/// Fills a seed from the operating system's random source: `rand::rngs::OsRng` with
/// `RngCore::try_fill_bytes`, which asks `getrandom` and hands back its error instead of
/// panicking. Nothing is claimed of the bytes, which come from chance, nor of when the source
/// fails.
#[verifier::external_body]
fn random_seed() -> (r: Result<Seed, rand::Error>) {
    let mut seed: Seed = [0u8; SEED_LENGTH];
    match rand::rngs::OsRng.try_fill_bytes(&mut seed[..]) {
        Ok(()) => Ok(seed),
        Err(e) => Err(e),
    }
}

/// A test contributor named `test-contributor-<id>`, signing with `secret_key`, with the given
/// seed; refused when no seed could be had.
pub fn contributor_with_seed(id: &str, seed: Option<Seed>) -> (r: Result<
    (Participant, SigningKey, Seed),
    CoordinatorError,
>)
    ensures
        match seed {
            Some(bytes) => r matches Ok(v) && v.0@ == ParticipantId::Contributor(
                "test-contributor-"@ + id@,
            ) && v.1@ == "secret_key"@ && v.2 == bytes,
            None => r == Err::<(Participant, SigningKey, Seed), CoordinatorError>(
                CoordinatorError::RandomnessUnavailable,
            ),
        },
{
    match seed {
        Some(bytes) => {
            let contributor = Participant::Contributor(
                String::from_str("test-contributor-").concat(id),
            );
            let contributor_signing_key: SigningKey = String::from_str("secret_key");
            Ok((contributor, contributor_signing_key, bytes))
        },
        None => Err(CoordinatorError::RandomnessUnavailable),
    }
}

/// A test contributor named `test-contributor-<id>`, signing with `secret_key`, with a fresh
/// seed from the operating system's random source; refused when that source fails.
pub fn create_contributor(id: &str) -> (r: Result<(Participant, SigningKey, Seed), CoordinatorError>)
    ensures
        r matches Ok(v) ==> v.0@ == ParticipantId::Contributor("test-contributor-"@ + id@)
            && v.1@ == "secret_key"@,
        r is Err ==> r == Err::<(Participant, SigningKey, Seed), CoordinatorError>(
            CoordinatorError::RandomnessUnavailable,
        ),
{
    let seed = match random_seed() {
        Ok(bytes) => Some(bytes),
        Err(_) => None,
    };
    contributor_with_seed(id, seed)
}

/// A test verifier named `test-verifier-<id>`, signing with `secret_key`.
pub fn create_verifier(id: &str) -> (r: (Participant, SigningKey))
    ensures
        r.0@ == ParticipantId::Verifier("test-verifier-"@ + id@),
        r.1@ == "secret_key"@,
{
    let verifier = Participant::Verifier(String::from_str("test-verifier-").concat(id));
    let verifier_signing_key: SigningKey = String::from_str("secret_key");
    (verifier, verifier_signing_key)
}

} // verus!
