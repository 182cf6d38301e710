//! The values exchanged between prover and verifier: identities, metadata,
//! proofs, the folding state, and the requests and replies of the
//! verifier's service.

use crate::field::Fr;
use vstd::prelude::*;

verus! {

/// The identity of a replica: the deal it serves and which copy it is.
#[derive(Clone, Copy, Debug)]
pub struct ReplicaId {
    pub client_id: Fr,
    pub deal_id: Fr,
    pub sector_id: Fr,
    pub copy_index: Fr,
    pub nonce: Fr,
}

/// The public metadata of a sector in one epoch.
#[derive(Clone, Copy, Debug)]
pub struct Metadata {
    pub sector_id: Fr,
    pub epoch: Fr,
    pub beacon: Fr,
}

/// A proof as the bytes of a succinct argument.
#[derive(Clone, Debug)]
pub struct Proof {
    pub pi: Vec<u8>,
}

/// The accumulated state of the folding scheme.
#[derive(Clone, Copy, Debug)]
pub struct IVCState {
    pub z_i: Fr,
}

/// The metadata of a storage deal as a client submits it.
#[derive(Clone, Debug)]
pub struct DealMetadata {
    pub client_id: String,
    pub deal_id: String,
    pub sector_id: String,
    pub copy_index: u8,
    pub nonce: u64,
}

impl DealMetadata {
    /// The metadata with the given fields.
    pub fn new(client_id: &str, deal_id: &str, sector_id: &str, copy_index: u8, nonce: u64) -> (r: DealMetadata)
        ensures
            r.client_id@ == client_id@,
            r.deal_id@ == deal_id@,
            r.sector_id@ == sector_id@,
            r.copy_index == copy_index,
            r.nonce == nonce,
    {
        DealMetadata {
            client_id: client_id.to_owned(),
            deal_id: deal_id.to_owned(),
            sector_id: sector_id.to_owned(),
            copy_index,
            nonce,
        }
    }
}

/// A request to register a deal: the sealed replica's commitment and the
/// deal's metadata.
#[derive(Clone, Debug)]
pub struct DealRequest {
    pub r_sealed: Vec<u8>,
    pub metadata: DealMetadata,
}

/// A request for the challenges of a sector in an epoch.
#[derive(Clone, Debug)]
pub struct ChallengeQuery {
    pub epoch: String,
    pub beacon: String,
    pub sector_id: String,
}

/// A request to verify a sector's proof.
#[derive(Clone, Debug)]
pub struct VerifyRequest {
    pub sector_id: String,
    pub proof: Proof,
}

/// The challenged chunk indices of a sector in an epoch.
#[derive(Clone, Debug)]
pub struct ChallengeResponse {
    pub challenges: Vec<u64>,
}

} // verus!
