//! The verifier's service state and decisions: registered deals keyed by
//! sector id, the challenges issued for a registered sector, and the
//! commitment a proof is checked against. Requests about an unknown sector
//! are refused as not found.

use crate::encoding::{bytes_value, string_to_fr};
use crate::field::{value_mod, Fr};
use crate::poseidon2::{chain, values_of, Poseidon2};
use crate::types::{ChallengeQuery, ChallengeResponse, DealMetadata, DealRequest};
use vstd::prelude::*;

verus! {

/// A table keyed by text, each key present at most once.
pub struct StringTable<V> {
    entries: Vec<(String, V)>,
}

impl<V> StringTable<V> {
    /// Whether some entry has key `k`.
    pub closed spec fn has(&self, k: Seq<char>) -> bool {
        exists|i: int| 0 <= i < self.entries@.len() && #[trigger] self.entries@[i].0@ == k
    }

    /// The entry position of key `k`, when present.
    spec fn position(&self, k: Seq<char>) -> int {
        choose|i: int| 0 <= i < self.entries@.len() && #[trigger] self.entries@[i].0@ == k
    }

    /// The table as a map from keys to values.
    pub closed spec fn as_map(&self) -> Map<Seq<char>, V> {
        Map::new(|k: Seq<char>| self.has(k), |k: Seq<char>| self.entries@[self.position(k)].1)
    }

    #[verifier::type_invariant]
    spec fn keys_unique(&self) -> bool {
        forall|i: int, j: int|
            0 <= i < j < self.entries@.len() ==> #[trigger] self.entries@[i].0@ != #[trigger] self.entries@[j].0@
    }

    /// An empty table.
    pub fn new() -> (r: StringTable<V>)
        ensures
            r.as_map() == Map::<Seq<char>, V>::empty(),
    {
        let r = StringTable { entries: Vec::new() };
        assert(r.as_map() =~= Map::<Seq<char>, V>::empty());
        r
    }

    /// The position of `key`, if present.
    fn find(&self, key: &String) -> (r: Option<usize>)
        ensures
            match r {
                Some(i) => i < self.entries@.len() && self.entries@[i as int].0@ == key@,
                None => !self.has(key@),
            },
    {
        for i in 0..self.entries.len()
            invariant
                forall|m: int| 0 <= m < i ==> #[trigger] self.entries@[m].0@ != key@,
        {
            if self.entries[i].0 == *key {
                return Some(i);
            }
        }
        None
    }

    /// Stores `value` under `key`, replacing what was there.
    pub fn insert(&mut self, key: String, value: V)
        ensures
            final(self).as_map() == old(self).as_map().insert(key@, value),
    {
        proof {
            use_type_invariant(&*self);
        }
        let ghost old_map = self.as_map();
        let ghost old_entries = self.entries@;
        match self.find(&key) {
            Some(i) => {
                let ghost k = key@;
                let mut entries: Vec<(String, V)> = Vec::new();
                std::mem::swap(&mut entries, &mut self.entries);
                entries.set(i, (key, value));
                self.entries = entries;
                proof {
                    assert forall|a: int, b: int| 0 <= a < b < self.entries@.len() implies #[trigger] self.entries@[a].0@
                        != #[trigger] self.entries@[b].0@ by {
                        assert(old_entries[a].0@ != old_entries[b].0@);
                        if a == i {
                            assert(old_entries[i as int].0@ == k);
                        }
                        if b == i {
                            assert(old_entries[i as int].0@ == k);
                        }
                    }
                }
            },
            None => {
                let ghost k = key@;
                let mut entries: Vec<(String, V)> = Vec::new();
                std::mem::swap(&mut entries, &mut self.entries);
                entries.push((key, value));
                self.entries = entries;
                proof {
                    assert forall|a: int, b: int| 0 <= a < b < self.entries@.len() implies #[trigger] self.entries@[a].0@
                        != #[trigger] self.entries@[b].0@ by {
                        if b == old_entries.len() {
                            assert(self.entries@[a] == old_entries[a]);
                        } else {
                            assert(old_entries[a].0@ != old_entries[b].0@);
                        }
                    }
                }
            },
        }
        proof {
            use_type_invariant(&*self);
            let new_map = self.as_map();
            let want = old_map.insert(key@, value);
            assert forall|k: Seq<char>| #[trigger] new_map.contains_key(k) <==> want.contains_key(k) by {
                if want.contains_key(k) && k != key@ {
                    let w = old_entries.len();
                    let j = choose|j: int| 0 <= j < old_entries.len() && #[trigger] old_entries[j].0@ == k;
                    assert(self.entries@[j].0@ == k);
                }
                if new_map.contains_key(k) && k != key@ {
                    let j = choose|j: int| 0 <= j < self.entries@.len() && #[trigger] self.entries@[j].0@ == k;
                    assert(old_entries[j].0@ == k);
                }
                if k == key@ {
                    assert(self.has(k)) by {
                        let j = if self.entries@.len() > old_entries.len() {
                            old_entries.len() as int
                        } else {
                            choose|j: int| 0 <= j < old_entries.len() && #[trigger] old_entries[j].0@ == k
                        };
                        assert(self.entries@[j].0@ == k);
                    }
                }
            }
            assert forall|k: Seq<char>| #[trigger] new_map.contains_key(k) implies new_map[k] == want[k] by {
                let j = self.position(k);
                assert(self.entries@[j].0@ == k);
                if k != key@ {
                    assert(old_entries[j].0@ == k);
                    let oj = choose|i: int| 0 <= i < old_entries.len() && #[trigger] old_entries[i].0@ == k;
                    assert(oj == j);
                } else {
                    assert(self.entries@[j].1 == value);
                }
            }
            assert(new_map =~= want);
        }
    }

    /// The value stored under `key`, if any.
    pub fn get(&self, key: &String) -> (r: Option<&V>)
        ensures
            match r {
                Some(v) => self.as_map().contains_key(key@) && *v == self.as_map()[key@],
                None => !self.as_map().contains_key(key@),
            },
    {
        proof {
            use_type_invariant(self);
        }
        match self.find(key) {
            Some(i) => {
                proof {
                    let j = self.position(key@);
                    assert(self.entries@[j].0@ == key@);
                    assert(i == j);
                }
                Some(&self.entries[i].1)
            },
            None => None,
        }
    }
}

/// Why the service refused a request.
#[derive(Clone, Copy, Debug, PartialEq, Eq, Structural)]
pub enum ApiError {
    /// No deal is registered for the sector.
    NotFound,
}

/// The number of challenges issued per epoch.
pub const CHALLENGES_PER_QUERY: usize = 10;

/// Challenge `i` of a sector in an epoch: the chain hash of the beacon, the
/// sector id, the epoch and the single byte `i`, each folded from its bytes,
/// reduced modulo the number of chunks.
pub open spec fn issued_challenge(p: Poseidon2, beacon: Seq<u8>, sector_id: Seq<u8>, epoch: Seq<u8>, i: nat, num_chunks: nat) -> nat {
    chain(
        p,
        seq![bytes_value(p, beacon), bytes_value(p, sector_id), bytes_value(p, epoch), bytes_value(p, seq![i as u8])],
    ) % num_chunks
}

/// The verifier's registry: the sealed commitment and the metadata of each
/// registered sector.
pub struct DealRegistry {
    pub sealed_sectors: StringTable<Vec<u8>>,
    pub deals_metadata: StringTable<DealMetadata>,
}

impl DealRegistry {
    /// An empty registry.
    pub fn new() -> (r: DealRegistry)
        ensures
            r.sealed_sectors.as_map() == Map::<Seq<char>, Vec<u8>>::empty(),
            r.deals_metadata.as_map() == Map::<Seq<char>, DealMetadata>::empty(),
    {
        DealRegistry { sealed_sectors: StringTable::new(), deals_metadata: StringTable::new() }
    }

    /// Registers a deal under its sector id, replacing an earlier one.
    pub fn create_deal(&mut self, payload: DealRequest)
        ensures
            final(self).sealed_sectors.as_map() == old(self).sealed_sectors.as_map().insert(
                payload.metadata.sector_id@,
                payload.r_sealed,
            ),
            final(self).deals_metadata.as_map() == old(self).deals_metadata.as_map().insert(
                payload.metadata.sector_id@,
                payload.metadata,
            ),
    {
        let sector_id = payload.metadata.sector_id.clone();
        self.sealed_sectors.insert(sector_id.clone(), payload.r_sealed);
        self.deals_metadata.insert(sector_id, payload.metadata);
    }

    /// The challenges of a registered sector in an epoch; refused as not
    /// found for a sector without a deal.
    pub fn get_challenge(&self, p: &Poseidon2, query: &ChallengeQuery, num_chunks: u64) -> (r: Result<
        ChallengeResponse,
        ApiError,
    >)
        requires
            p.wf(),
            num_chunks > 0,
        ensures
            match r {
                Ok(resp) => self.sealed_sectors.as_map().contains_key(query.sector_id@) && resp.challenges@.len()
                    == CHALLENGES_PER_QUERY && forall|i: int|
                    0 <= i < CHALLENGES_PER_QUERY ==> #[trigger] resp.challenges@[i] as nat == issued_challenge(
                        *p,
                        vstd::utf8::encode_utf8(query.beacon@),
                        vstd::utf8::encode_utf8(query.sector_id@),
                        vstd::utf8::encode_utf8(query.epoch@),
                        i as nat,
                        num_chunks as nat,
                    ),
                Err(e) => e == ApiError::NotFound && !self.sealed_sectors.as_map().contains_key(query.sector_id@),
            },
    {
        if self.sealed_sectors.get(&query.sector_id).is_none() {
            return Err(ApiError::NotFound);
        }
        let beacon = string_to_fr(p, query.beacon.as_str());
        let sector = string_to_fr(p, query.sector_id.as_str());
        let epoch = string_to_fr(p, query.epoch.as_str());
        let mut challenges: Vec<u64> = Vec::new();
        for i in 0..CHALLENGES_PER_QUERY
            invariant
                p.wf(),
                num_chunks > 0,
                beacon@ == bytes_value(*p, vstd::utf8::encode_utf8(query.beacon@)),
                sector@ == bytes_value(*p, vstd::utf8::encode_utf8(query.sector_id@)),
                epoch@ == bytes_value(*p, vstd::utf8::encode_utf8(query.epoch@)),
                challenges@.len() == i,
                forall|k: int|
                    0 <= k < i ==> #[trigger] challenges@[k] as nat == issued_challenge(
                        *p,
                        vstd::utf8::encode_utf8(query.beacon@),
                        vstd::utf8::encode_utf8(query.sector_id@),
                        vstd::utf8::encode_utf8(query.epoch@),
                        k as nat,
                        num_chunks as nat,
                    ),
        {
            let byte = [i as u8];
            let index_fr = crate::encoding::bytes_to_fr(p, byte.as_slice());
            let inputs = [beacon, sector, epoch, index_fr];
            let seed = p.poseidon2_chain(inputs.as_slice());
            proof {
                assert(byte@ =~= seq![i as u8]);
                assert(values_of(inputs@) =~= seq![beacon@, sector@, epoch@, index_fr@]);
            }
            challenges.push(value_mod(&seed, num_chunks));
        }
        Ok(ChallengeResponse { challenges })
    }

    /// The sealed commitment a proof for the sector is checked against;
    /// refused as not found for a sector without a deal.
    pub fn sealed_commitment(&self, sector_id: &String) -> (r: Result<&Vec<u8>, ApiError>)
        ensures
            match r {
                Ok(c) => self.sealed_sectors.as_map().contains_key(sector_id@) && *c == self.sealed_sectors.as_map()[sector_id@],
                Err(e) => e == ApiError::NotFound && !self.sealed_sectors.as_map().contains_key(sector_id@),
            },
    {
        match self.sealed_sectors.get(sector_id) {
            Some(c) => Ok(c),
            None => Err(ApiError::NotFound),
        }
    }
}

/// A registered deal can be challenged and its commitment read back: after
/// a deal is registered, the sector is known and its commitment is the one
/// submitted; every other sector keeps its standing.
pub proof fn lemma_deal_registered(before: DealRegistry, after: DealRegistry, payload: DealRequest, other: Seq<char>)
    requires
        after.sealed_sectors.as_map() == before.sealed_sectors.as_map().insert(
            payload.metadata.sector_id@,
            payload.r_sealed,
        ),
        other != payload.metadata.sector_id@,
    ensures
        after.sealed_sectors.as_map().contains_key(payload.metadata.sector_id@),
        after.sealed_sectors.as_map()[payload.metadata.sector_id@] == payload.r_sealed,
        after.sealed_sectors.as_map().contains_key(other) == before.sealed_sectors.as_map().contains_key(other),
{
}

} // verus!
