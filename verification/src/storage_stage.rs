//! The stage that generates the keys with which the ledger is encrypted and sampled for storage
//! mining, and that keeps track of who stores which segment of the ledger.

use crate::signers::Signature;
use crate::types::{same_address, Pubkey};
use rand::{Rng, SeedableRng};
use vstd::prelude::*;

verus! {

/// The rotation that the stage asks the network for, in hashes.
pub const NUM_HASHES_FOR_STORAGE_ROTATE: u64 = 1024;

/// How many identities storage keys and results are kept for.
pub const NUM_IDENTITIES: usize = 1024;

/// How many samples are taken of an encrypted segment.
pub const NUM_STORAGE_SAMPLES: usize = 4;

/// The bytes of a storage key.
pub const KEY_SIZE: usize = 64;

/// The bytes of the keys of all identities.
pub const STORAGE_KEYS_SIZE: usize = 65536;

/// The most replicators that are named for a segment.
pub const MAX_PUBKEYS_TO_RETURN: usize = 5;

/// Samples are drawn below this number.
pub const SAMPLE_BOUND: u64 = 10;

/// What the storage program can be told.
#[derive(Clone, Copy, Debug)]
pub enum StorageProgram {
    /// Somebody stores the ledger around this entry.
    SubmitMiningProof { entry_height: u64 },
    AdvertiseStorageLastId { id: crate::types::Hash },
    ClaimStorageReward,
    ProofValidation,
    /// Keys are to be rotated after so many hashes.
    SetRotateHashCount { rotate_count: u64 },
}

/// A transaction, reduced to what the stage reads of it.
#[derive(Debug)]
pub struct Transaction {
    pub account_keys: Vec<Pubkey>,
    pub program_ids: Vec<Pubkey>,
    /// What each instruction tells the storage program, where it can be understood.
    pub instructions: Vec<Option<StorageProgram>>,
}

/// An entry of the ledger.
#[derive(Debug)]
pub struct Entry {
    pub num_hashes: u64,
    pub id: crate::types::Hash,
    pub transactions: Vec<Transaction>,
}

/// Each program that a transaction names has an instruction, and somebody pays for it.
pub open spec fn well_formed(tx: Transaction) -> bool {
    &&& tx.program_ids@.len() <= tx.instructions@.len()
    &&& tx.account_keys@.len() > 0
}

/// The index of the identity that a signature belongs to: the number in its first four bytes, the
/// least significant first, modulo the number of identities.
pub open spec fn identity_index(key: Signature) -> nat {
    crate::bytes::little_endian(key.0@.take(4)) % (NUM_IDENTITIES as nat)
}

pub fn get_identity_index_from_signature(key: &Signature) -> (r: usize)
    ensures
        r == identity_index(*key),
        r < NUM_IDENTITIES,
{
    let first: u32 = crate::bytes::read_u32_le(key.0.as_slice(), 0);
    assert(key.0@.subrange(0, 4) =~= key.0@.take(4));
    assert(first & 1023 == first % 1024) by (bit_vector);
    (first & 1023) as usize
}

/// The segment of the ledger that holds an entry.
pub open spec fn segment_of(entry_height: u64, entries_per_segment: u64) -> nat {
    (entry_height / entries_per_segment) as nat
}

/// Whether `len` steps from `start` on lead over a boundary, where boundaries are told apart by the
/// bits above those of `boundary - 1`.
pub open spec fn crosses(start: u64, len: u64, boundary: u64) -> bool {
    ((start + len) as u64 & !((boundary - 1) as u64)) > (start & !((boundary - 1) as u64))
}

pub fn cross_boundary(start: u64, len: u64, boundary: u64) -> (r: bool)
    requires
        boundary > 0,
        start + len <= u64::MAX,
    ensures
        r == crosses(start, len, boundary),
{
    ((start + len) & !(boundary - 1)) > (start & !(boundary - 1))
}

/// With a power of two for the boundary, a boundary is crossed just when the quotients differ.
pub proof fn law_crossing_a_power_of_two(start: u64, len: u64, k: u64)
    requires
        k < 64,
        start + len <= u64::MAX,
    ensures
        ({
            let boundary = vstd::arithmetic::power2::pow2(k as nat);
            crosses(start, len, 1u64 << k) <==> (start + len) as nat / boundary > start as nat
                / boundary
        }),
{
    let end = (start + len) as u64;
    let boundary = 1u64 << k;
    assert(boundary > 0 && ((end & !((boundary - 1) as u64)) > (start & !((boundary - 1) as u64))
        <==> (end >> k) > (start >> k))) by (bit_vector)
        requires
            boundary == 1u64 << k,
            k < 64,
    ;
    vstd::bits::lemma_u64_shr_is_div(end, k);
    vstd::bits::lemma_u64_shr_is_div(start, k);
}

/// Draws from a ChaCha generator that was seeded with `seed`, each from `low` up to but without
/// `high`.
pub uninterp spec fn chacha_draws(seed: Seq<u8>, low: u64, high: u64) -> Seq<u64>;

/// `ChaChaRng::from_seed`, and then `gen_range` for each sample: the draws depend on the seed and the
/// range alone, and are in the range.
#[verifier::external_body]
fn chacha_gen_range(seed: [u8; 32], low: u64, high: u64) -> (r: [u64; NUM_STORAGE_SAMPLES])
    requires
        low < high,
    ensures
        r@ == chacha_draws(seed@, low, high),
        forall|i: int| 0 <= i < NUM_STORAGE_SAMPLES ==> low <= #[trigger] r@[i] < high,
{
    let mut rng = rand_chacha::ChaChaRng::from_seed(seed);
    [
        rng.gen_range(low, high),
        rng.gen_range(low, high),
        rng.gen_range(low, high),
        rng.gen_range(low, high),
    ]
}

/// Where the answers are to be generated again, and from which samples.
#[derive(Clone, Copy, Debug)]
pub struct Crossing {
    pub segment: usize,
    pub samples: [u64; NUM_STORAGE_SAMPLES],
}

/// The bytes of a signature that seed the choice of samples.
fn seed_of(signature: &Signature) -> (seed: [u8; 32])
    ensures
        seed@ == signature.0@.take(32),
{
    let mut seed: [u8; 32] = [0; 32];
    let mut i: usize = 0;
    while i < 32
        invariant
            i <= 32,
            forall|j: int| 0 <= j < i ==> seed@[j] == signature.0@[j],
        decreases 32 - i,
    {
        seed[i] = signature.0[i];
        i = i + 1;
    }
    assert(seed@ =~= signature.0@.take(32));
    seed
}

/// The segment for which the answers are generated again, if the ledger has any yet: the first byte
/// of the signature chooses among the segments.
pub fn choose_segment(signature: &Signature, entry_height: u64, entries_per_segment: u64) -> (r:
    Option<usize>)
    requires
        entries_per_segment > 0,
        segment_of(entry_height, entries_per_segment) <= usize::MAX,
    ensures
        r is None <==> segment_of(entry_height, entries_per_segment) == 0,
        r matches Some(segment) ==> segment == signature.0@[0] as nat % segment_of(
            entry_height,
            entries_per_segment,
        ),
{
    let num_segments: usize = (entry_height / entries_per_segment) as usize;
    if num_segments == 0 {
        None
    } else {
        Some(signature.0[0] as usize % num_segments)
    }
}

/// What to generate when keys are rotated, given the signature of the entry at which they are. There
/// is nothing to generate while the ledger has no complete segment.
pub fn process_entry_crossing(
    signature: &Signature,
    entry_height: u64,
    entries_per_segment: u64,
) -> (r: Option<Crossing>)
    requires
        entries_per_segment > 0,
        segment_of(entry_height, entries_per_segment) <= usize::MAX,
    ensures
        r is None <==> segment_of(entry_height, entries_per_segment) == 0,
        r matches Some(crossing) ==> {
            &&& crossing.segment == signature.0@[0] as nat % segment_of(
                entry_height,
                entries_per_segment,
            )
            &&& crossing.samples@ == chacha_draws(signature.0@.take(32), 0, SAMPLE_BOUND)
            &&& forall|i: int| 0 <= i < NUM_STORAGE_SAMPLES ==> #[trigger] crossing.samples@[i]
                < SAMPLE_BOUND
        },
{
    match choose_segment(signature, entry_height, entries_per_segment) {
        Some(segment) => {
            let samples: [u64; NUM_STORAGE_SAMPLES] = chacha_gen_range(seed_of(signature), 0, SAMPLE_BOUND);
            Some(Crossing { segment, samples })
        },
        None => None,
    }
}

/// Keys, answers and replicators, as the rest of the node sees them.
#[derive(Debug)]
pub struct StorageState {
    /// For each identity the hash that a storage proof of it should give.
    pub storage_results: Vec<crate::types::Hash>,
    pub storage_keys: Vec<u8>,
    /// For each segment those that store it, in the order in which they proved that.
    pub replicator_map: Vec<Vec<Pubkey>>,
}

/// For each segment those that store it.
pub open spec fn replicators(map: Seq<Vec<Pubkey>>) -> Seq<Seq<Pubkey>> {
    Seq::new(map.len(), |i: int| map[i]@)
}

/// Nobody is listed twice for a segment.
pub open spec fn distinct(map: Seq<Seq<Pubkey>>) -> bool {
    forall|i: int| 0 <= i < map.len() ==> (#[trigger] map[i]).no_duplicates()
}

/// One more replicator, unless it is there.
pub open spec fn with_replicator(s: Seq<Pubkey>, account: Pubkey) -> Seq<Pubkey> {
    if s.contains(account) {
        s
    } else {
        s.push(account)
    }
}

/// At least `n` segments, the new ones without replicators.
pub open spec fn grown(map: Seq<Seq<Pubkey>>, n: nat) -> Seq<Seq<Pubkey>> {
    Seq::new(
        if map.len() < n {
            n
        } else {
            map.len()
        },
        |i: int|
            if i < map.len() {
                map[i]
            } else {
                Seq::empty()
            },
    )
}

/// The replicators and the rotation after an instruction to the storage program, which `account`
/// pays for. The ledger is at `entry_height`.
pub open spec fn after_instruction(
    state: (Seq<Seq<Pubkey>>, u64),
    instruction: Option<StorageProgram>,
    account: Pubkey,
    entry_height: u64,
    entries_per_segment: u64,
) -> (Seq<Seq<Pubkey>>, u64) {
    match instruction {
        Some(StorageProgram::SubmitMiningProof { entry_height: proof }) => if proof < entry_height {
            let map = grown(state.0, segment_of(entry_height, entries_per_segment));
            let segment = segment_of(proof, entries_per_segment) as int;
            if segment < map.len() {
                (map.update(segment, with_replicator(map[segment], account)), state.1)
            } else {
                (map, state.1)
            }
        } else {
            state
        },
        Some(StorageProgram::SetRotateHashCount { rotate_count }) => if state.1 == 0 && rotate_count
            > 0 && rotate_count % 2 == 0 {
            (state.0, rotate_count)
        } else {
            state
        },
        _ => state,
    }
}

/// The state after the first `n` instructions of a transaction, of which those count that go to
/// the storage program.
pub open spec fn after_instructions(
    state: (Seq<Seq<Pubkey>>, u64),
    tx: Transaction,
    n: int,
    storage_program: Pubkey,
    entry_height: u64,
    entries_per_segment: u64,
) -> (Seq<Seq<Pubkey>>, u64)
    decreases n,
{
    if n <= 0 {
        state
    } else {
        let before = after_instructions(
            state,
            tx,
            n - 1,
            storage_program,
            entry_height,
            entries_per_segment,
        );
        if tx.program_ids@[n - 1] == storage_program {
            after_instruction(
                before,
                tx.instructions@[n - 1],
                tx.account_keys@[0],
                entry_height,
                entries_per_segment,
            )
        } else {
            before
        }
    }
}

/// The state after the first `n` transactions of an entry.
pub open spec fn after_transactions(
    state: (Seq<Seq<Pubkey>>, u64),
    transactions: Seq<Transaction>,
    n: int,
    storage_program: Pubkey,
    entry_height: u64,
    entries_per_segment: u64,
) -> (Seq<Seq<Pubkey>>, u64)
    decreases n,
{
    if n <= 0 {
        state
    } else {
        let tx = transactions[n - 1];
        after_instructions(
            after_transactions(
                state,
                transactions,
                n - 1,
                storage_program,
                entry_height,
                entries_per_segment,
            ),
            tx,
            tx.program_ids@.len() as int,
            storage_program,
            entry_height,
            entries_per_segment,
        )
    }
}

fn contains_address(s: &Vec<Pubkey>, account: &Pubkey) -> (r: bool)
    ensures
        r == s@.contains(*account),
{
    let mut i: usize = 0;
    while i < s.len()
        invariant
            i <= s@.len(),
            forall|j: int| 0 <= j < i ==> s@[j] != *account,
        decreases s@.len() - i,
    {
        if same_address(&s[i], account) {
            return true;
        }
        i = i + 1;
    }
    false
}

impl StorageState {
    /// Every identity has a key and a result, and nobody is listed twice for a segment.
    pub open spec fn wf(&self) -> bool {
        &&& self.storage_results@.len() == NUM_IDENTITIES
        &&& self.storage_keys@.len() == STORAGE_KEYS_SIZE
        &&& distinct(replicators(self.replicator_map@))
    }

    pub fn new() -> (r: Self)
        ensures
            r.wf(),
            r.storage_keys@ == crate::signers::zeros((KEY_SIZE * NUM_IDENTITIES) as nat),
            forall|i: int|
                0 <= i < NUM_IDENTITIES ==> (#[trigger] r.storage_results@[i]).0@
                    == crate::signers::zeros(32),
            r.replicator_map@.len() == 0,
    {
        let mut storage_keys: Vec<u8> = Vec::new();
        while storage_keys.len() < STORAGE_KEYS_SIZE
            invariant
                storage_keys@.len() <= STORAGE_KEYS_SIZE,
                storage_keys@ == crate::signers::zeros(storage_keys@.len()),
            decreases STORAGE_KEYS_SIZE - storage_keys@.len(),
        {
            storage_keys.push(0);
            assert(storage_keys@ =~= crate::signers::zeros(storage_keys@.len()));
        }
        let mut storage_results: Vec<crate::types::Hash> = Vec::new();
        while storage_results.len() < NUM_IDENTITIES
            invariant
                storage_results@.len() <= NUM_IDENTITIES,
                forall|i: int|
                    0 <= i < storage_results@.len() ==> (#[trigger] storage_results@[i]).0@
                        == crate::signers::zeros(32),
            decreases NUM_IDENTITIES - storage_results@.len(),
        {
            let hash = crate::types::Hash([0; 32]);
            assert(hash.0@ =~= crate::signers::zeros(32));
            storage_results.push(hash);
        }
        StorageState { storage_results, storage_keys, replicator_map: Vec::new() }
    }

    /// The hash that a storage proof under this signature should give.
    pub fn get_mining_result(&self, key: &Signature) -> (r: crate::types::Hash)
        requires
            self.wf(),
        ensures
            r == self.storage_results@[identity_index(*key) as int],
    {
        let idx: usize = get_identity_index_from_signature(key);
        self.storage_results[idx]
    }

    /// Takes over newly generated results, one for each identity.
    pub fn set_results(&mut self, hashes: &Vec<crate::types::Hash>)
        requires
            old(self).wf(),
            hashes@.len() == NUM_IDENTITIES,
        ensures
            final(self).wf(),
            final(self).storage_results@ == hashes@,
            final(self).storage_keys@ == old(self).storage_keys@,
            final(self).replicator_map@ == old(self).replicator_map@,
    {
        let mut i: usize = 0;
        while i < NUM_IDENTITIES
            invariant
                i <= NUM_IDENTITIES,
                hashes@.len() == NUM_IDENTITIES,
                self.storage_results@.len() == NUM_IDENTITIES,
                forall|j: int| 0 <= j < i ==> self.storage_results@[j] == hashes@[j],
                self.storage_keys@ == old(self).storage_keys@,
                self.replicator_map@ == old(self).replicator_map@,
            decreases NUM_IDENTITIES - i,
        {
            self.storage_results[i] = hashes[i];
            i = i + 1;
        }
        assert(self.storage_results@ =~= hashes@);
    }

    /// Some of those that store the segment of an entry: all of them, or the first few.
    pub fn get_pubkeys_for_entry_height(&self, entry_height: u64, entries_per_segment: u64) -> (r:
        Vec<Pubkey>)
        requires
            entries_per_segment > 0,
        ensures
            ({
                let segment = segment_of(entry_height, entries_per_segment);
                if segment < self.replicator_map@.len() {
                    let all = self.replicator_map@[segment as int]@;
                    r@ == all.take(
                        if all.len() < MAX_PUBKEYS_TO_RETURN {
                            all.len() as int
                        } else {
                            MAX_PUBKEYS_TO_RETURN as int
                        },
                    )
                } else {
                    r@.len() == 0
                }
            }),
    {
        let mut r: Vec<Pubkey> = Vec::new();
        let index: u64 = entry_height / entries_per_segment;
        if index < self.replicator_map.len() as u64 {
            let all = &self.replicator_map[index as usize];
            let mut i: usize = 0;
            while i < all.len() && i < MAX_PUBKEYS_TO_RETURN
                invariant
                    i <= all@.len(),
                    i <= MAX_PUBKEYS_TO_RETURN,
                    r@ == all@.take(i as int),
                decreases all@.len() - i,
            {
                r.push(all[i]);
                i = i + 1;
                assert(r@ =~= all@.take(i as int));
            }
        }
        r
    }

    /// Grows the list of segments.
    fn grow(&mut self, n: usize)
        ensures
            replicators(final(self).replicator_map@) == grown(
                replicators(old(self).replicator_map@),
                n as nat,
            ),
            final(self).storage_results == old(self).storage_results,
            final(self).storage_keys == old(self).storage_keys,
    {
        let ghost before = replicators(self.replicator_map@);
        while self.replicator_map.len() < n
            invariant
                before.len() <= self.replicator_map@.len(),
                self.replicator_map@.len() <= n || self.replicator_map@.len() == before.len(),
                forall|i: int|
                    0 <= i < self.replicator_map@.len() ==> (#[trigger] self.replicator_map@[i])@
                        == (if i < before.len() {
                        before[i]
                    } else {
                        Seq::empty()
                    }),
                self.storage_results == old(self).storage_results,
                self.storage_keys == old(self).storage_keys,
            decreases n - self.replicator_map@.len(),
        {
            self.replicator_map.push(Vec::new());
        }
        assert(replicators(self.replicator_map@) =~= grown(before, n as nat));
    }
}

/// What the stage keeps for itself.
#[derive(Clone, Copy, Debug, PartialEq, Eq, Structural)]
pub struct StorageLocalState {
    pub poh_height: u64,
    pub entry_height: u64,
    pub rotate_count: u64,
    pub tried_to_set_hash_rate: bool,
    pub my_storage_account_created: bool,
    pub system_storage_account_created: bool,
}

/// An account that the stage sees to.
#[derive(Clone, Copy, Debug, PartialEq, Eq, Structural)]
pub enum StorageAccount {
    /// The account of the storage program.
    System,
    /// The node's own account.
    Mine,
}

/// An account to create.
#[derive(Clone, Copy, Debug, PartialEq, Eq, Structural)]
pub struct CreateAccount {
    pub tokens: u64,
    pub space: u64,
    pub fee: u64,
    pub retries: usize,
}

/// What the leader says about an account.
#[derive(Clone, Copy, Debug, PartialEq, Eq, Structural)]
pub enum AccountQuery {
    /// The leader could not even be asked for its last id.
    NoLastId,
    Present,
    Absent,
}

impl StorageLocalState {
    pub fn new(entry_height: u64) -> (r: Self)
        ensures
            r == (StorageLocalState {
                poh_height: 0,
                entry_height,
                rotate_count: 0,
                tried_to_set_hash_rate: false,
                my_storage_account_created: false,
                system_storage_account_created: false,
            }),
    {
        StorageLocalState {
            poh_height: 0,
            entry_height,
            rotate_count: 0,
            tried_to_set_hash_rate: false,
            my_storage_account_created: false,
            system_storage_account_created: false,
        }
    }

    /// The account is there, as far as the stage knows.
    pub open spec fn has_account(&self, account: StorageAccount) -> bool {
        match account {
            StorageAccount::System => self.system_storage_account_created,
            StorageAccount::Mine => self.my_storage_account_created,
        }
    }

    /// The same state, knowing that the account is there.
    pub open spec fn with_account(self, account: StorageAccount) -> StorageLocalState {
        match account {
            StorageAccount::System => StorageLocalState {
                system_storage_account_created: true,
                ..self
            },
            StorageAccount::Mine => StorageLocalState { my_storage_account_created: true, ..self },
        }
    }

    /// Whether the leader is to be asked about an account.
    pub fn needs_account(&self, account: StorageAccount) -> (r: bool)
        ensures
            r == !self.has_account(account),
    {
        match account {
            StorageAccount::System => !self.system_storage_account_created,
            StorageAccount::Mine => !self.my_storage_account_created,
        }
    }

    fn account_created(&mut self, account: StorageAccount)
        ensures
            *final(self) == old(self).with_account(account),
    {
        match account {
            StorageAccount::System => {
                self.system_storage_account_created = true;
            },
            StorageAccount::Mine => {
                self.my_storage_account_created = true;
            },
        }
    }

    /// Takes note of what the leader says about an account. Where the account is absent, it is to
    /// be created as returned.
    pub fn account_queried(&mut self, account: StorageAccount, query: AccountQuery) -> (r: Option<
        CreateAccount,
    >)
        ensures
            *final(self) == (if query == AccountQuery::Present {
                old(self).with_account(account)
            } else {
                *old(self)
            }),
            r is Some <==> query == AccountQuery::Absent,
            r matches Some(create) ==> create == (match account {
                StorageAccount::System => CreateAccount {
                    tokens: 1,
                    space: 16384,
                    fee: 1,
                    retries: 5,
                },
                StorageAccount::Mine => CreateAccount { tokens: 1, space: 0, fee: 1, retries: 1 },
            }),
    {
        match query {
            AccountQuery::NoLastId => None,
            AccountQuery::Present => {
                self.account_created(account);
                None
            },
            AccountQuery::Absent => match account {
                StorageAccount::System => Some(
                    CreateAccount { tokens: 1, space: 16 * 1024, fee: 1, retries: 5 },
                ),
                StorageAccount::Mine => Some(
                    CreateAccount { tokens: 1, space: 0, fee: 1, retries: 1 },
                ),
            },
        }
    }

    /// Takes note of whether the account could be created.
    pub fn account_requested(&mut self, account: StorageAccount, created: bool)
        ensures
            *final(self) == (if created {
                old(self).with_account(account)
            } else {
                *old(self)
            }),
    {
        if created {
            self.account_created(account);
        }
    }

    /// Whether the stage still has to ask for its rotation.
    pub fn needs_hash_rate(&self) -> (r: bool)
        ensures
            r == !self.tried_to_set_hash_rate,
    {
        !self.tried_to_set_hash_rate
    }

    /// The rotation to ask a leader for. That is done once, as soon as a leader is known and gives
    /// its last id, and whether or not the leader then takes the request.
    pub fn set_hash_rate(&mut self, leader_known: bool, has_last_id: bool) -> (r: Option<u64>)
        ensures
            ({
                let asks = !old(self).tried_to_set_hash_rate && leader_known && has_last_id;
                &&& r == (if asks {
                    Some(NUM_HASHES_FOR_STORAGE_ROTATE)
                } else {
                    None
                })
                &&& *final(self) == (StorageLocalState {
                    tried_to_set_hash_rate: old(self).tried_to_set_hash_rate || asks,
                    ..*old(self)
                })
            }),
    {
        if !self.tried_to_set_hash_rate && leader_known && has_last_id {
            self.tried_to_set_hash_rate = true;
            Some(NUM_HASHES_FOR_STORAGE_ROTATE)
        } else {
            None
        }
    }

    /// Goes on to the next entry.
    pub fn entry_done(&mut self, num_hashes: u64)
        requires
            old(self).entry_height < u64::MAX,
            old(self).poh_height + num_hashes <= u64::MAX,
        ensures
            *final(self) == (StorageLocalState {
                entry_height: (old(self).entry_height + 1) as u64,
                poh_height: (old(self).poh_height + num_hashes) as u64,
                ..*old(self)
            }),
    {
        self.entry_height = self.entry_height + 1;
        self.poh_height = self.poh_height + num_hashes;
    }
}

/// Takes note of an instruction to the storage program. Proofs of storage below the current entry
/// make their sender a replicator of the segment, where the segment is complete. The rotation can
/// be set once, to an even number of hashes.
pub fn process_storage_program(
    state: &mut StorageState,
    local_state: &mut StorageLocalState,
    instruction: &Option<StorageProgram>,
    account: &Pubkey,
    entries_per_segment: u64,
)
    requires
        old(state).wf(),
        entries_per_segment > 0,
        segment_of(old(local_state).entry_height, entries_per_segment) <= usize::MAX,
    ensures
        final(state).wf(),
        (replicators(final(state).replicator_map@), final(local_state).rotate_count)
            == after_instruction(
            (replicators(old(state).replicator_map@), old(local_state).rotate_count),
            *instruction,
            *account,
            old(local_state).entry_height,
            entries_per_segment,
        ),
        *final(local_state) == (StorageLocalState {
            rotate_count: final(local_state).rotate_count,
            ..*old(local_state)
        }),
        final(state).storage_results == old(state).storage_results,
        final(state).storage_keys == old(state).storage_keys,
{
    match instruction {
        Some(StorageProgram::SubmitMiningProof { entry_height: proof_entry_height }) => {
            if *proof_entry_height < local_state.entry_height {
                let max_segment_index: usize = (local_state.entry_height
                    / entries_per_segment) as usize;
                let ghost before = replicators(state.replicator_map@);
                state.grow(max_segment_index);
                let ghost map = replicators(state.replicator_map@);
                assert forall|i: int| 0 <= i < map.len() implies (
                #[trigger] map[i]).no_duplicates() by {
                    if i < before.len() {
                        assert(before[i].no_duplicates());
                    }
                }
                let proof_segment_index: u64 = *proof_entry_height / entries_per_segment;
                if proof_segment_index < state.replicator_map.len() as u64 {
                    let segment: usize = proof_segment_index as usize;
                    if !contains_address(&state.replicator_map[segment], account) {
                        assert(map[segment as int].no_duplicates());
                        state.replicator_map[segment].push(*account);
                    }
                    assert(replicators(state.replicator_map@) =~= map.update(
                        segment as int,
                        with_replicator(map[segment as int], *account),
                    ));
                }
            }
        },
        Some(StorageProgram::AdvertiseStorageLastId { .. }) => {},
        Some(StorageProgram::ClaimStorageReward) => {},
        Some(StorageProgram::ProofValidation) => {},
        Some(StorageProgram::SetRotateHashCount { rotate_count }) => {
            if local_state.rotate_count == 0 && *rotate_count > 0 && *rotate_count % 2 == 0 {
                local_state.rotate_count = *rotate_count;
            }
        },
        None => {},
    }
}

/// Takes note of the transactions of an entry that go to the storage program, and says whether keys
/// are to be rotated at that entry.
pub fn process_entry(
    state: &mut StorageState,
    local_state: &mut StorageLocalState,
    entry: &Entry,
    storage_program: &Pubkey,
    entries_per_segment: u64,
) -> (rotate: bool)
    requires
        old(state).wf(),
        entries_per_segment > 0,
        segment_of(old(local_state).entry_height, entries_per_segment) <= usize::MAX,
        old(local_state).poh_height + entry.num_hashes <= u64::MAX,
        forall|i: int|
            0 <= i < entry.transactions@.len() ==> well_formed(#[trigger] entry.transactions@[i]),
    ensures
        final(state).wf(),
        (replicators(final(state).replicator_map@), final(local_state).rotate_count)
            == after_transactions(
            (replicators(old(state).replicator_map@), old(local_state).rotate_count),
            entry.transactions@,
            entry.transactions@.len() as int,
            *storage_program,
            old(local_state).entry_height,
            entries_per_segment,
        ),
        *final(local_state) == (StorageLocalState {
            rotate_count: final(local_state).rotate_count,
            ..*old(local_state)
        }),
        final(state).storage_results == old(state).storage_results,
        final(state).storage_keys == old(state).storage_keys,
        rotate == (final(local_state).rotate_count != 0 && crosses(
            old(local_state).poh_height,
            entry.num_hashes,
            final(local_state).rotate_count,
        )),
{
    let ghost start = (replicators(state.replicator_map@), local_state.rotate_count);
    let mut t: usize = 0;
    while t < entry.transactions.len()
        invariant
            t <= entry.transactions@.len(),
            state.wf(),
            entries_per_segment > 0,
            segment_of(local_state.entry_height, entries_per_segment) <= usize::MAX,
            forall|i: int|
                0 <= i < entry.transactions@.len() ==> well_formed(
                    #[trigger] entry.transactions@[i],
                ),
            (replicators(state.replicator_map@), local_state.rotate_count) == after_transactions(
                start,
                entry.transactions@,
                t as int,
                *storage_program,
                old(local_state).entry_height,
                entries_per_segment,
            ),
            *local_state == (StorageLocalState {
                rotate_count: local_state.rotate_count,
                ..*old(local_state)
            }),
            state.storage_results == old(state).storage_results,
            state.storage_keys == old(state).storage_keys,
        decreases entry.transactions@.len() - t,
    {
        let tx = &entry.transactions[t];
        assert(well_formed(entry.transactions@[t as int]));
        let ghost before = (replicators(state.replicator_map@), local_state.rotate_count);
        let mut i: usize = 0;
        while i < tx.program_ids.len()
            invariant
                i <= tx.program_ids@.len(),
                well_formed(*tx),
                state.wf(),
                entries_per_segment > 0,
                segment_of(local_state.entry_height, entries_per_segment) <= usize::MAX,
                (replicators(state.replicator_map@), local_state.rotate_count)
                    == after_instructions(
                    before,
                    *tx,
                    i as int,
                    *storage_program,
                    old(local_state).entry_height,
                    entries_per_segment,
                ),
                *local_state == (StorageLocalState {
                    rotate_count: local_state.rotate_count,
                    ..*old(local_state)
                }),
                state.storage_results == old(state).storage_results,
                state.storage_keys == old(state).storage_keys,
            decreases tx.program_ids@.len() - i,
        {
            if same_address(&tx.program_ids[i], storage_program) {
                process_storage_program(
                    state,
                    local_state,
                    &tx.instructions[i],
                    &tx.account_keys[0],
                    entries_per_segment,
                );
            }
            i = i + 1;
        }
        t = t + 1;
    }
    local_state.rotate_count != 0 && cross_boundary(
        local_state.poh_height,
        entry.num_hashes,
        local_state.rotate_count,
    )
}

/// How a round of the stage came out.
#[derive(Clone, Copy, Debug, PartialEq, Eq, Structural)]
pub enum RoundOutcome {
    /// There is no ledger to process entries of.
    NoLedger,
    Processed,
    /// No entries came in time.
    Timeout,
    /// No entries will come any more.
    Disconnected,
    /// Anything else went wrong.
    Failed,
}

/// Whether the stage goes on after a round.
pub fn goes_on(outcome: RoundOutcome, exit: bool) -> (r: bool)
    ensures
        r == (outcome != RoundOutcome::Disconnected && !exit),
{
    match outcome {
        RoundOutcome::Disconnected => false,
        _ => !exit,
    }
}

/// Once set, the rotation stays as it is, whatever instructions come in.
pub proof fn law_rotation_is_set_once(
    state: (Seq<Seq<Pubkey>>, u64),
    transactions: Seq<Transaction>,
    n: int,
    storage_program: Pubkey,
    entry_height: u64,
    entries_per_segment: u64,
)
    requires
        state.1 != 0,
        0 <= n <= transactions.len(),
    ensures
        after_transactions(
            state,
            transactions,
            n,
            storage_program,
            entry_height,
            entries_per_segment,
        ).1 == state.1,
    decreases n,
{
    if n > 0 {
        law_rotation_is_set_once(
            state,
            transactions,
            n - 1,
            storage_program,
            entry_height,
            entries_per_segment,
        );
        lemma_rotation_kept(
            after_transactions(
                state,
                transactions,
                n - 1,
                storage_program,
                entry_height,
                entries_per_segment,
            ),
            transactions[n - 1],
            transactions[n - 1].program_ids@.len() as int,
            storage_program,
            entry_height,
            entries_per_segment,
        );
    }
}

proof fn lemma_rotation_kept(
    state: (Seq<Seq<Pubkey>>, u64),
    tx: Transaction,
    n: int,
    storage_program: Pubkey,
    entry_height: u64,
    entries_per_segment: u64,
)
    requires
        state.1 != 0,
        0 <= n,
    ensures
        after_instructions(
            state,
            tx,
            n,
            storage_program,
            entry_height,
            entries_per_segment,
        ).1 == state.1,
    decreases n,
{
    if n > 0 {
        lemma_rotation_kept(state, tx, n - 1, storage_program, entry_height, entries_per_segment);
    }
}

/// Whoever is a replicator of a segment stays one, whatever instructions come in.
pub proof fn law_replicators_stay(
    state: (Seq<Seq<Pubkey>>, u64),
    transactions: Seq<Transaction>,
    n: int,
    storage_program: Pubkey,
    entry_height: u64,
    entries_per_segment: u64,
    segment: int,
    account: Pubkey,
)
    requires
        0 <= n <= transactions.len(),
        0 <= segment < state.0.len(),
        state.0[segment].contains(account),
    ensures
        ({
            let after = after_transactions(
                state,
                transactions,
                n,
                storage_program,
                entry_height,
                entries_per_segment,
            ).0;
            segment < after.len() && after[segment].contains(account)
        }),
    decreases n,
{
    if n > 0 {
        law_replicators_stay(
            state,
            transactions,
            n - 1,
            storage_program,
            entry_height,
            entries_per_segment,
            segment,
            account,
        );
        lemma_replicators_stay(
            after_transactions(
                state,
                transactions,
                n - 1,
                storage_program,
                entry_height,
                entries_per_segment,
            ),
            transactions[n - 1],
            transactions[n - 1].program_ids@.len() as int,
            storage_program,
            entry_height,
            entries_per_segment,
            segment,
            account,
        );
    }
}

proof fn lemma_replicators_stay(
    state: (Seq<Seq<Pubkey>>, u64),
    tx: Transaction,
    n: int,
    storage_program: Pubkey,
    entry_height: u64,
    entries_per_segment: u64,
    segment: int,
    account: Pubkey,
)
    requires
        0 <= n,
        0 <= segment < state.0.len(),
        state.0[segment].contains(account),
    ensures
        ({
            let after = after_instructions(
                state,
                tx,
                n,
                storage_program,
                entry_height,
                entries_per_segment,
            ).0;
            segment < after.len() && after[segment].contains(account)
        }),
    decreases n,
{
    if n > 0 {
        lemma_replicators_stay(
            state,
            tx,
            n - 1,
            storage_program,
            entry_height,
            entries_per_segment,
            segment,
            account,
        );
        let before = after_instructions(
            state,
            tx,
            n - 1,
            storage_program,
            entry_height,
            entries_per_segment,
        ).0;
        let k = choose|k: int| 0 <= k < before[segment].len() && before[segment][k] == account;
        assert(before[segment].push(tx.account_keys@[0])[k] == account);
    }
}

/// A proof of storage for an entry of a complete segment makes its sender a replicator of that
/// segment.
pub proof fn law_proofs_are_recorded(
    state: (Seq<Seq<Pubkey>>, u64),
    proof_height: u64,
    account: Pubkey,
    entry_height: u64,
    entries_per_segment: u64,
)
    requires
        entries_per_segment > 0,
        segment_of(proof_height, entries_per_segment) < segment_of(
            entry_height,
            entries_per_segment,
        ),
    ensures
        ({
            let after = after_instruction(
                state,
                Some(StorageProgram::SubmitMiningProof { entry_height: proof_height }),
                account,
                entry_height,
                entries_per_segment,
            ).0;
            let segment = segment_of(proof_height, entries_per_segment) as int;
            segment < after.len() && after[segment].contains(account)
        }),
{
    if proof_height >= entry_height {
        vstd::arithmetic::div_mod::lemma_div_is_ordered(
            entry_height as int,
            proof_height as int,
            entries_per_segment as int,
        );
    }
    let map = grown(state.0, segment_of(entry_height, entries_per_segment));
    let segment = segment_of(proof_height, entries_per_segment) as int;
    if !map[segment].contains(account) {
        assert(map[segment].push(account).last() == account);
    }
}

/// Every transaction of an entry counts: each proof of storage in it, for an entry of a complete
/// segment, makes the payer of its transaction a replicator of that segment.
pub proof fn law_every_proof_in_an_entry_counts(
    state: &mut StorageState,
    local_state: &mut StorageLocalState,
    entry: &Entry,
    storage_program: &Pubkey,
    entries_per_segment: u64,
    rotate: bool,
    t: int,
    i: int,
    proof_height: u64,
)
    requires
        entries_per_segment > 0,
        call_ensures(
            process_entry,
            (state, local_state, entry, storage_program, entries_per_segment),
            rotate,
        ),
        0 <= t < entry.transactions@.len(),
        0 <= i < entry.transactions@[t].program_ids@.len(),
        entry.transactions@[t].program_ids@[i] == *storage_program,
        entry.transactions@[t].instructions@[i] == Some(
            StorageProgram::SubmitMiningProof { entry_height: proof_height },
        ),
        proof_height / entries_per_segment < old(local_state).entry_height / entries_per_segment,
    ensures
        proof_height / entries_per_segment < final(state).replicator_map@.len(),
        final(state).replicator_map@[(proof_height / entries_per_segment) as int]@.contains(
            entry.transactions@[t].account_keys@[0],
        ),
{
    let start = (replicators(old(state).replicator_map@), old(local_state).rotate_count);
    let txs = entry.transactions@;
    let height = old(local_state).entry_height;
    let segment = (proof_height / entries_per_segment) as int;
    let account = txs[t].account_keys@[0];
    let before = after_transactions(start, txs, t, *storage_program, height, entries_per_segment);
    let done = after_instructions(
        before,
        txs[t],
        i,
        *storage_program,
        height,
        entries_per_segment,
    );
    law_proofs_are_recorded(done, proof_height, account, height, entries_per_segment);
    lemma_instructions_keep_replicators(
        before,
        txs[t],
        i + 1,
        txs[t].program_ids@.len() as int,
        *storage_program,
        height,
        entries_per_segment,
        segment,
        account,
    );
    lemma_transactions_keep_replicators(
        start,
        txs,
        t + 1,
        txs.len() as int,
        *storage_program,
        height,
        entries_per_segment,
        segment,
        account,
    );
    let map = replicators(final(state).replicator_map@);
    assert(map[segment] == final(state).replicator_map@[segment]@);
}

proof fn lemma_instructions_keep_replicators(
    state: (Seq<Seq<Pubkey>>, u64),
    tx: Transaction,
    n: int,
    m: int,
    storage_program: Pubkey,
    entry_height: u64,
    entries_per_segment: u64,
    segment: int,
    account: Pubkey,
)
    requires
        0 <= n <= m,
        ({
            let map = after_instructions(
                state,
                tx,
                n,
                storage_program,
                entry_height,
                entries_per_segment,
            ).0;
            0 <= segment < map.len() && map[segment].contains(account)
        }),
    ensures
        ({
            let map = after_instructions(
                state,
                tx,
                m,
                storage_program,
                entry_height,
                entries_per_segment,
            ).0;
            segment < map.len() && map[segment].contains(account)
        }),
    decreases m - n,
{
    if n < m {
        lemma_instructions_keep_replicators(
            state,
            tx,
            n,
            m - 1,
            storage_program,
            entry_height,
            entries_per_segment,
            segment,
            account,
        );
        let before = after_instructions(
            state,
            tx,
            m - 1,
            storage_program,
            entry_height,
            entries_per_segment,
        ).0;
        let k = choose|k: int| 0 <= k < before[segment].len() && before[segment][k] == account;
        assert(before[segment].push(tx.account_keys@[0])[k] == account);
    }
}

proof fn lemma_transactions_keep_replicators(
    state: (Seq<Seq<Pubkey>>, u64),
    transactions: Seq<Transaction>,
    n: int,
    m: int,
    storage_program: Pubkey,
    entry_height: u64,
    entries_per_segment: u64,
    segment: int,
    account: Pubkey,
)
    requires
        0 <= n <= m,
        ({
            let map = after_transactions(
                state,
                transactions,
                n,
                storage_program,
                entry_height,
                entries_per_segment,
            ).0;
            0 <= segment < map.len() && map[segment].contains(account)
        }),
    ensures
        ({
            let map = after_transactions(
                state,
                transactions,
                m,
                storage_program,
                entry_height,
                entries_per_segment,
            ).0;
            segment < map.len() && map[segment].contains(account)
        }),
    decreases m - n,
{
    if n < m {
        lemma_transactions_keep_replicators(
            state,
            transactions,
            n,
            m - 1,
            storage_program,
            entry_height,
            entries_per_segment,
            segment,
            account,
        );
        lemma_replicators_stay(
            after_transactions(
                state,
                transactions,
                m - 1,
                storage_program,
                entry_height,
                entries_per_segment,
            ),
            transactions[m - 1],
            transactions[m - 1].program_ids@.len() as int,
            storage_program,
            entry_height,
            entries_per_segment,
            segment,
            account,
        );
    }
}

/// Instruction `i` of transaction `t` is a proof of storage of the segment, by that account.
pub open spec fn proves_at(
    transactions: Seq<Transaction>,
    t: int,
    i: int,
    storage_program: Pubkey,
    segment: int,
    entries_per_segment: u64,
    account: Pubkey,
) -> bool {
    &&& 0 <= t < transactions.len()
    &&& 0 <= i < transactions[t].program_ids@.len()
    &&& transactions[t].program_ids@[i] == storage_program
    &&& transactions[t].account_keys@[0] == account
    &&& match transactions[t].instructions@[i] {
        Some(StorageProgram::SubmitMiningProof { entry_height }) => entry_height
            / entries_per_segment == segment,
        _ => false,
    }
}

/// Nobody becomes a replicator of a segment without a proof of storage of it, and whoever was one
/// stays one.
pub proof fn law_only_proofs_make_replicators(
    state: &mut StorageState,
    local_state: &mut StorageLocalState,
    entry: &Entry,
    storage_program: &Pubkey,
    entries_per_segment: u64,
    rotate: bool,
    segment: int,
    account: Pubkey,
)
    requires
        entries_per_segment > 0,
        call_ensures(
            process_entry,
            (state, local_state, entry, storage_program, entries_per_segment),
            rotate,
        ),
        0 <= segment < final(state).replicator_map@.len(),
    ensures
        segment < old(state).replicator_map@.len() && old(
            state,
        ).replicator_map@[segment]@.contains(account) ==> final(state).replicator_map@[segment]@.contains(account),
        final(state).replicator_map@[segment]@.contains(account) ==> {
            ||| segment < old(state).replicator_map@.len() && old(
                state,
            ).replicator_map@[segment]@.contains(account)
            ||| exists|t: int, i: int| #[trigger]
                proves_at(
                    entry.transactions@,
                    t,
                    i,
                    *storage_program,
                    segment,
                    entries_per_segment,
                    account,
                )
        },
{
    let start = (replicators(old(state).replicator_map@), old(local_state).rotate_count);
    let n = entry.transactions@.len() as int;
    let map = replicators(final(state).replicator_map@);
    assert(map[segment] == final(state).replicator_map@[segment]@);
    if segment < old(state).replicator_map@.len() {
        assert(start.0[segment] == old(state).replicator_map@[segment]@);
        if start.0[segment].contains(account) {
            law_replicators_stay(
                start,
                entry.transactions@,
                n,
                *storage_program,
                old(local_state).entry_height,
                entries_per_segment,
                segment,
                account,
            );
        }
    }
    if map[segment].contains(account) {
        lemma_transactions_prove(
            start,
            entry.transactions@,
            n,
            *storage_program,
            old(local_state).entry_height,
            entries_per_segment,
            segment,
            account,
        );
    }
}

proof fn lemma_instructions_prove(
    state: (Seq<Seq<Pubkey>>, u64),
    transactions: Seq<Transaction>,
    t: int,
    n: int,
    storage_program: Pubkey,
    entry_height: u64,
    entries_per_segment: u64,
    segment: int,
    account: Pubkey,
)
    requires
        entries_per_segment > 0,
        0 <= t < transactions.len(),
        0 <= n <= transactions[t].program_ids@.len(),
        ({
            let map = after_instructions(
                state,
                transactions[t],
                n,
                storage_program,
                entry_height,
                entries_per_segment,
            ).0;
            0 <= segment < map.len() && map[segment].contains(account)
        }),
    ensures
        (segment < state.0.len() && state.0[segment].contains(account)) || exists|i: int| #[trigger]
            proves_at(
                transactions,
                t,
                i,
                storage_program,
                segment,
                entries_per_segment,
                account,
            ),
    decreases n,
{
    if n > 0 {
        let tx = transactions[t];
        let before = after_instructions(
            state,
            tx,
            n - 1,
            storage_program,
            entry_height,
            entries_per_segment,
        ).0;
        if segment < before.len() && before[segment].contains(account) {
            lemma_instructions_prove(
                state,
                transactions,
                t,
                n - 1,
                storage_program,
                entry_height,
                entries_per_segment,
                segment,
                account,
            );
        } else {
            let payer = tx.account_keys@[0];
            let known = if segment < before.len() {
                before[segment]
            } else {
                Seq::empty()
            };
            let k = choose|k: int|
                0 <= k < known.push(payer).len() && known.push(payer)[k] == account;
            if account != payer {
                assert(!known.push(payer).contains(account)) by {
                    if known.push(payer).contains(account) {
                        let k = choose|k: int|
                            0 <= k < known.push(payer).len() && known.push(payer)[k] == account;
                        assert(known[k] == account);
                    }
                }
            }
            assert(proves_at(
                transactions,
                t,
                n - 1,
                storage_program,
                segment,
                entries_per_segment,
                account,
            ));
        }
    }
}

proof fn lemma_transactions_prove(
    state: (Seq<Seq<Pubkey>>, u64),
    transactions: Seq<Transaction>,
    n: int,
    storage_program: Pubkey,
    entry_height: u64,
    entries_per_segment: u64,
    segment: int,
    account: Pubkey,
)
    requires
        entries_per_segment > 0,
        0 <= n <= transactions.len(),
        ({
            let map = after_transactions(
                state,
                transactions,
                n,
                storage_program,
                entry_height,
                entries_per_segment,
            ).0;
            0 <= segment < map.len() && map[segment].contains(account)
        }),
    ensures
        (segment < state.0.len() && state.0[segment].contains(account)) || exists|t: int, i: int|
            #[trigger]
            proves_at(
                transactions,
                t,
                i,
                storage_program,
                segment,
                entries_per_segment,
                account,
            ),
    decreases n,
{
    if n > 0 {
        let before = after_transactions(
            state,
            transactions,
            n - 1,
            storage_program,
            entry_height,
            entries_per_segment,
        );
        lemma_instructions_prove(
            before,
            transactions,
            n - 1,
            transactions[n - 1].program_ids@.len() as int,
            storage_program,
            entry_height,
            entries_per_segment,
            segment,
            account,
        );
        if segment < before.0.len() && before.0[segment].contains(account) {
            lemma_transactions_prove(
                state,
                transactions,
                n - 1,
                storage_program,
                entry_height,
                entries_per_segment,
                segment,
                account,
            );
        }
    }
}

/// Instruction `i` of transaction `t` sets the rotation, to an even number of hashes.
pub open spec fn sets_rotation_at(
    transactions: Seq<Transaction>,
    t: int,
    i: int,
    storage_program: Pubkey,
    count: u64,
) -> bool {
    &&& 0 <= t < transactions.len()
    &&& 0 <= i < transactions[t].program_ids@.len()
    &&& transactions[t].program_ids@[i] == storage_program
    &&& transactions[t].instructions@[i] == Some(
        StorageProgram::SetRotateHashCount { rotate_count: count },
    )
    &&& count > 0
    &&& count % 2 == 0
}

/// The rotation, while it is not set, is set by the first instruction in an entry that sets it to an
/// even number of hashes, and it is not set without one; once set it stays.
pub proof fn law_the_first_rotation_counts(
    state: &mut StorageState,
    local_state: &mut StorageLocalState,
    entry: &Entry,
    storage_program: &Pubkey,
    entries_per_segment: u64,
    rotate: bool,
)
    requires
        call_ensures(
            process_entry,
            (state, local_state, entry, storage_program, entries_per_segment),
            rotate,
        ),
    ensures
        old(local_state).rotate_count != 0 ==> final(local_state).rotate_count == old(
            local_state,
        ).rotate_count,
        old(local_state).rotate_count == 0 && final(local_state).rotate_count == 0 ==> forall|
            t: int,
            i: int,
            count: u64,
        |
            !#[trigger] sets_rotation_at(entry.transactions@, t, i, *storage_program, count),
        old(local_state).rotate_count == 0 && final(local_state).rotate_count != 0 ==> exists|
            t: int,
            i: int,
        |
            {
                &&& #[trigger] sets_rotation_at(
                    entry.transactions@,
                    t,
                    i,
                    *storage_program,
                    final(local_state).rotate_count,
                )
                &&& forall|u: int, j: int, count: u64| #[trigger]
                    sets_rotation_at(entry.transactions@, u, j, *storage_program, count) ==> t < u
                        || (t == u && i <= j)
            },
{
    let start = (replicators(old(state).replicator_map@), old(local_state).rotate_count);
    let n = entry.transactions@.len() as int;
    if start.1 != 0 {
        law_rotation_is_set_once(
            start,
            entry.transactions@,
            n,
            *storage_program,
            old(local_state).entry_height,
            entries_per_segment,
        );
    } else {
        lemma_transactions_set_rotation(
            start,
            entry.transactions@,
            n,
            *storage_program,
            old(local_state).entry_height,
            entries_per_segment,
        );
    }
}

/// What the rotation is after the first instructions of a transaction, where it was not set before.
spec fn rotation_from_instructions(
    transactions: Seq<Transaction>,
    t: int,
    n: int,
    storage_program: Pubkey,
    count: u64,
) -> bool {
    if count == 0 {
        forall|i: int, c: u64| i < n ==> !#[trigger] sets_rotation_at(transactions, t, i, storage_program, c)
    } else {
        exists|i: int|
            {
                &&& i < n
                &&& #[trigger] sets_rotation_at(transactions, t, i, storage_program, count)
                &&& forall|j: int, c: u64| #[trigger]
                    sets_rotation_at(transactions, t, j, storage_program, c) ==> i <= j
            }
    }
}

proof fn lemma_instructions_set_rotation(
    state: (Seq<Seq<Pubkey>>, u64),
    transactions: Seq<Transaction>,
    t: int,
    n: int,
    storage_program: Pubkey,
    entry_height: u64,
    entries_per_segment: u64,
)
    requires
        state.1 == 0,
        0 <= t < transactions.len(),
        0 <= n <= transactions[t].program_ids@.len(),
    ensures
        rotation_from_instructions(
            transactions,
            t,
            n,
            storage_program,
            after_instructions(
                state,
                transactions[t],
                n,
                storage_program,
                entry_height,
                entries_per_segment,
            ).1,
        ),
    decreases n,
{
    if n > 0 {
        let tx = transactions[t];
        lemma_instructions_set_rotation(
            state,
            transactions,
            t,
            n - 1,
            storage_program,
            entry_height,
            entries_per_segment,
        );
        let before = after_instructions(
            state,
            tx,
            n - 1,
            storage_program,
            entry_height,
            entries_per_segment,
        );
        let after = after_instructions(
            state,
            tx,
            n,
            storage_program,
            entry_height,
            entries_per_segment,
        );
        if before.1 == 0 {
            if after.1 == 0 {
                assert forall|i: int, c: u64| i < n implies !#[trigger] sets_rotation_at(
                    transactions,
                    t,
                    i,
                    storage_program,
                    c,
                ) by {
                    if i < n - 1 {
                        assert(!sets_rotation_at(transactions, t, i, storage_program, c));
                    }
                }
            } else {
                assert(sets_rotation_at(transactions, t, n - 1, storage_program, after.1));
                assert forall|j: int, c: u64| #[trigger]
                    sets_rotation_at(transactions, t, j, storage_program, c) implies n - 1 <= j by {
                    if j < n - 1 {
                        assert(!sets_rotation_at(transactions, t, j, storage_program, c));
                    }
                }
            }
        }
    }
}

proof fn lemma_transactions_set_rotation(
    state: (Seq<Seq<Pubkey>>, u64),
    transactions: Seq<Transaction>,
    n: int,
    storage_program: Pubkey,
    entry_height: u64,
    entries_per_segment: u64,
)
    requires
        state.1 == 0,
        0 <= n <= transactions.len(),
    ensures
        ({
            let count = after_transactions(
                state,
                transactions,
                n,
                storage_program,
                entry_height,
                entries_per_segment,
            ).1;
            &&& count == 0 ==> forall|t: int, i: int, c: u64|
                t < n ==> !#[trigger] sets_rotation_at(transactions, t, i, storage_program, c)
            &&& count != 0 ==> exists|t: int, i: int|
                {
                    &&& t < n
                    &&& #[trigger] sets_rotation_at(transactions, t, i, storage_program, count)
                    &&& forall|u: int, j: int, c: u64| #[trigger]
                        sets_rotation_at(transactions, u, j, storage_program, c) ==> t < u || (t
                            == u && i <= j)
                }
        }),
    decreases n,
{
    if n > 0 {
        let t = n - 1;
        lemma_transactions_set_rotation(
            state,
            transactions,
            t,
            storage_program,
            entry_height,
            entries_per_segment,
        );
        let before = after_transactions(
            state,
            transactions,
            t,
            storage_program,
            entry_height,
            entries_per_segment,
        );
        let len = transactions[t].program_ids@.len() as int;
        let after = after_instructions(
            before,
            transactions[t],
            len,
            storage_program,
            entry_height,
            entries_per_segment,
        );
        if before.1 == 0 {
            lemma_instructions_set_rotation(
                before,
                transactions,
                t,
                len,
                storage_program,
                entry_height,
                entries_per_segment,
            );
            if after.1 != 0 {
                let i = choose|i: int|
                    {
                        &&& i < len
                        &&& #[trigger] sets_rotation_at(
                            transactions,
                            t,
                            i,
                            storage_program,
                            after.1,
                        )
                        &&& forall|j: int, c: u64| #[trigger]
                            sets_rotation_at(transactions, t, j, storage_program, c) ==> i <= j
                    };
                assert forall|u: int, j: int, c: u64| #[trigger]
                    sets_rotation_at(transactions, u, j, storage_program, c) implies t < u || (t == u
                    && i <= j) by {
                    if u < t {
                        assert(!sets_rotation_at(transactions, u, j, storage_program, c));
                    }
                }
            } else {
                assert forall|u: int, j: int, c: u64| u < n implies !#[trigger] sets_rotation_at(
                    transactions,
                    u,
                    j,
                    storage_program,
                    c,
                ) by {
                    if u < t {
                        assert(!sets_rotation_at(transactions, u, j, storage_program, c));
                    } else if j < len {
                        assert(!sets_rotation_at(transactions, t, j, storage_program, c));
                    }
                }
            }
        } else {
            lemma_rotation_kept(
                before,
                transactions[t],
                len,
                storage_program,
                entry_height,
                entries_per_segment,
            );
        }
    }
}

/// Keys are rotated at an entry whose hashes lead into another stretch of `2^k` hashes, where that is
/// the rotation, and at no other; never while the rotation is not set.
pub proof fn law_keys_rotate_with_the_hashes(
    state: &mut StorageState,
    local_state: &mut StorageLocalState,
    entry: &Entry,
    storage_program: &Pubkey,
    entries_per_segment: u64,
    rotate: bool,
    k: u64,
)
    requires
        k < 64,
        old(local_state).poh_height + entry.num_hashes <= u64::MAX,
        call_ensures(
            process_entry,
            (state, local_state, entry, storage_program, entries_per_segment),
            rotate,
        ),
    ensures
        final(local_state).rotate_count == 0 ==> !rotate,
        final(local_state).rotate_count == 1u64 << k ==> ({
            let stretch = vstd::arithmetic::power2::pow2(k as nat);
            rotate <==> (old(local_state).poh_height + entry.num_hashes) as nat / stretch > old(
                local_state,
            ).poh_height as nat / stretch
        }),
        final(local_state).poh_height == old(local_state).poh_height,
        final(local_state).entry_height == old(local_state).entry_height,
{
    law_crossing_a_power_of_two(old(local_state).poh_height, entry.num_hashes, k);
    let one = 1u64 << k;
    assert(one != 0) by (bit_vector)
        requires
            one == 1u64 << k,
            k < 64,
    ;
}

/// Results that were taken over are found again, each by the signatures of its identity.
pub proof fn law_results_are_found_again(
    state: &mut StorageState,
    hashes: &Vec<crate::types::Hash>,
    key: &Signature,
    r: crate::types::Hash,
)
    requires
        call_ensures(StorageState::set_results, (state, hashes), ()),
        call_ensures(StorageState::get_mining_result, (&*final(state), key), r),
    ensures
        r == hashes@[(key.0@[0] + 0x100 * key.0@[1] + 0x1_0000 * key.0@[2] + 0x100_0000
            * key.0@[3]) % 1024],
{
    reveal_with_fuel(crate::bytes::little_endian, 5);
    let s = key.0@.take(4);
    assert(s.skip(1).skip(1) =~= s.skip(2));
    assert(s.skip(2).skip(1) =~= s.skip(3));
    assert(s.skip(3).skip(1) =~= s.skip(4));
}

/// Those that are returned store the segment of the entry, and as long as there are no more of them
/// than can be returned, all that store it are.
pub proof fn law_replicators_of_a_segment_are_returned(
    state: &StorageState,
    entry_height: u64,
    entries_per_segment: u64,
    r: Vec<Pubkey>,
    account: Pubkey,
)
    requires
        entries_per_segment > 0,
        call_ensures(
            StorageState::get_pubkeys_for_entry_height,
            (state, entry_height, entries_per_segment),
            r,
        ),
    ensures
        ({
            let segment = entry_height / entries_per_segment;
            let known = segment < state.replicator_map@.len();
            &&& r@.contains(account) ==> known && state.replicator_map@[segment as int]@.contains(
                account,
            )
            &&& known && state.replicator_map@[segment as int]@.contains(account)
                && state.replicator_map@[segment as int]@.len() <= 5 ==> r@.contains(account)
            &&& known && state.replicator_map@[segment as int]@.len() > 5 ==> r@.len() == 5
        }),
{
    let segment = (entry_height / entries_per_segment) as int;
    if segment < state.replicator_map@.len() {
        let all = state.replicator_map@[segment]@;
        if r@.contains(account) {
            let k = choose|k: int| 0 <= k < r@.len() && r@[k] == account;
            assert(all[k] == account);
        }
        if all.contains(account) && all.len() <= 5 {
            let k = choose|k: int| 0 <= k < all.len() && all[k] == account;
            assert(r@[k] == account);
        }
    }
}

/// The segment for which answers are generated is one that the ledger has in full.
pub proof fn law_a_complete_segment_is_chosen(
    signature: &Signature,
    entry_height: u64,
    entries_per_segment: u64,
    r: Option<Crossing>,
)
    requires
        entries_per_segment > 0,
        call_ensures(
            process_entry_crossing,
            (signature, entry_height, entries_per_segment),
            r,
        ),
    ensures
        r is Some <==> entry_height >= entries_per_segment,
        r matches Some(crossing) ==> {
            &&& (crossing.segment + 1) * entries_per_segment <= entry_height
            &&& crossing.segment == signature.0@[0] as int % (entry_height / entries_per_segment)
                as int
        },
{
    let n = (entry_height / entries_per_segment) as int;
    let h = entry_height as int;
    let e = entries_per_segment as int;
    vstd::arithmetic::div_mod::lemma_fundamental_div_mod(h, e);
    assert(n == 0 <==> h < e) by (nonlinear_arith)
        requires
            n == h / e,
            e > 0,
            h >= 0,
    ;
    if let Some(crossing) = r {
        let s = crossing.segment as int;
        assert(s < n);
        assert((s + 1) * e <= h) by (nonlinear_arith)
            requires
                0 <= s < n,
                n == h / e,
                e > 0,
                h >= 0,
        ;
    }
}

/// The stage asks for its rotation once: not before a leader is known and gives its last id, and never
/// again.
pub proof fn law_the_rotation_is_asked_for_once(
    first: &mut StorageLocalState,
    second: &mut StorageLocalState,
    leader_known: bool,
    has_last_id: bool,
    known_later: bool,
    id_later: bool,
    r: Option<u64>,
    later: Option<u64>,
)
    requires
        call_ensures(StorageLocalState::set_hash_rate, (first, leader_known, has_last_id), r),
        *old(second) == *final(first),
        call_ensures(StorageLocalState::set_hash_rate, (second, known_later, id_later), later),
    ensures
        r is Some ==> leader_known && has_last_id && r == Some(1024u64),
        r is Some ==> later is None,
        !old(first).tried_to_set_hash_rate && leader_known && has_last_id ==> r is Some,
        r is None ==> *final(first) == *old(first),
        final(first).rotate_count == old(first).rotate_count,
{
}

/// An account that the leader lacks is to be created, and nothing more is asked about it once it is
/// there.
pub proof fn law_accounts_are_seen_to(
    state: &mut StorageLocalState,
    account: StorageAccount,
    query: AccountQuery,
    r: Option<CreateAccount>,
    needed: bool,
)
    requires
        call_ensures(StorageLocalState::account_queried, (state, account, query), r),
        call_ensures(StorageLocalState::needs_account, (&*final(state), account), needed),
    ensures
        r is Some <==> query == AccountQuery::Absent,
        query == AccountQuery::Present ==> !needed,
        query != AccountQuery::Present ==> *final(state) == *old(state),
        account == StorageAccount::Mine ==> final(state).system_storage_account_created == old(
            state,
        ).system_storage_account_created,
        account == StorageAccount::System ==> final(state).my_storage_account_created == old(
            state,
        ).my_storage_account_created,
{
}

/// A signature belongs to one of 1024 identities, by its first byte and the two lowest bits of its
/// second.
pub proof fn law_the_identity_of_a_signature(key: &Signature, r: usize)
    requires
        call_ensures(get_identity_index_from_signature, (key,), r),
    ensures
        r == key.0@[0] + 256 * (key.0@[1] % 4),
        r < 1024,
{
    reveal_with_fuel(crate::bytes::little_endian, 5);
    let s = key.0@.take(4);
    assert(s.skip(1).skip(1) =~= s.skip(2));
    let rest = crate::bytes::little_endian(s.skip(2));
    let n = crate::bytes::little_endian(s);
    assert(s.len() == 4 && s[0] == key.0@[0] && s.skip(1)[0] == key.0@[1]);
    assert(n == s[0] as nat + 256 * (s[1] as nat + 256 * rest));
    let a = s[0] as int;
    let b = s[1] as int;
    assert((a + 256 * (b + 256 * rest)) % 1024 == a + 256 * (b % 4)) by (nonlinear_arith)
        requires
            0 <= a < 256,
            0 <= b < 256,
            rest >= 0,
    ;
}

} // verus!
