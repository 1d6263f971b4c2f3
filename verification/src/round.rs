use vstd::prelude::*;
use crate::participant::{Participant, ParticipantId};

verus! {

/// One contribution to a chunk: who made it, who verified it, whether it is verified.
#[derive(Debug)]
pub struct Contribution {
    contributor: Option<Participant>,
    verifier: Option<Participant>,
    verified: bool,
}

pub struct ContributionView {
    pub contributor: Option<ParticipantId>,
    pub verifier: Option<ParticipantId>,
    pub verified: bool,
}

pub open spec fn optional_id(p: Option<Participant>) -> Option<ParticipantId> {
    match p {
        Some(p) => Some(p@),
        None => None,
    }
}

impl View for Contribution {
    type V = ContributionView;

    closed spec fn view(&self) -> ContributionView {
        ContributionView {
            contributor: optional_id(self.contributor),
            verifier: optional_id(self.verifier),
            verified: self.verified,
        }
    }
}

impl Contribution {
    pub(crate) fn new(contributor: Option<Participant>, verifier: Option<Participant>, verified: bool) -> (r: Contribution)
        ensures
            r@ == (ContributionView {
                contributor: optional_id(contributor),
                verifier: optional_id(verifier),
                verified,
            }),
    {
        Contribution { contributor, verifier, verified }
    }

    pub fn get_contributor(&self) -> (r: &Option<Participant>)
        ensures
            optional_id(*r) == self@.contributor,
    {
        &self.contributor
    }

    pub fn get_verifier(&self) -> (r: &Option<Participant>)
        ensures
            optional_id(*r) == self@.verifier,
    {
        &self.verifier
    }

    pub fn is_verified(&self) -> (r: bool)
        ensures
            r == self@.verified,
    {
        self.verified
    }
}

/// One chunk of the current round: its lock holder and the contributions made to it.
#[derive(Debug)]
pub struct Chunk {
    chunk_id: u64,
    lock_holder: Option<Participant>,
    contributions: Vec<(u64, Contribution)>,
}

pub struct ChunkView {
    pub chunk_id: u64,
    pub lock_holder: Option<ParticipantId>,
    pub contributions: Seq<(u64, ContributionView)>,
}

pub open spec fn contributions_view(v: Seq<(u64, Contribution)>) -> Seq<(u64, ContributionView)> {
    v.map_values(|e: (u64, Contribution)| (e.0, e.1@))
}

impl View for Chunk {
    type V = ChunkView;

    closed spec fn view(&self) -> ChunkView {
        ChunkView {
            chunk_id: self.chunk_id,
            lock_holder: optional_id(self.lock_holder),
            contributions: contributions_view(self.contributions@),
        }
    }
}

impl Chunk {
    pub(crate) fn new(chunk_id: u64, lock_holder: Option<Participant>, contributions: Vec<(u64, Contribution)>) -> (r: Chunk)
        ensures
            r@ == (ChunkView {
                chunk_id,
                lock_holder: optional_id(lock_holder),
                contributions: contributions_view(contributions@),
            }),
    {
        Chunk { chunk_id, lock_holder, contributions }
    }

    pub fn chunk_id(&self) -> (r: u64)
        ensures
            r == self@.chunk_id,
    {
        self.chunk_id
    }

    pub fn lock_holder(&self) -> (r: &Option<Participant>)
        ensures
            optional_id(*r) == self@.lock_holder,
    {
        &self.lock_holder
    }

    /// The contributions made to the chunk, each with its contribution id.
    pub fn get_contributions(&self) -> (r: &Vec<(u64, Contribution)>)
        ensures
            contributions_view(r@) == self@.contributions,
    {
        &self.contributions
    }
}

/// A snapshot of the current round: its height and its chunks.
#[derive(Debug)]
pub struct Round {
    height: u64,
    chunks: Vec<Chunk>,
}

pub struct RoundView {
    pub height: u64,
    pub chunks: Seq<ChunkView>,
}

pub open spec fn chunks_view(v: Seq<Chunk>) -> Seq<ChunkView> {
    v.map_values(|c: Chunk| c@)
}

impl View for Round {
    type V = RoundView;

    closed spec fn view(&self) -> RoundView {
        RoundView { height: self.height, chunks: chunks_view(self.chunks@) }
    }
}

impl Round {
    pub(crate) fn new(height: u64, chunks: Vec<Chunk>) -> (r: Round)
        ensures
            r@ == (RoundView { height, chunks: chunks_view(chunks@) }),
    {
        Round { height, chunks }
    }

    pub fn round_height(&self) -> (r: u64)
        ensures
            r == self@.height,
    {
        self.height
    }

    pub fn chunks(&self) -> (r: &Vec<Chunk>)
        ensures
            chunks_view(r@) == self@.chunks,
    {
        &self.chunks
    }
}

} // verus!
