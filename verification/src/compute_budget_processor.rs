//! Process compute budget instructions outside of the program runtime, to extract and sanitize
//! limits.

use crate::bytes;
use crate::bytes::{read_u32_le, read_u64_le};
use crate::types::{same_address, InstructionError, Pubkey};
use vstd::prelude::*;

verus! {

/// The least heap that a transaction has.
pub const MIN_HEAP_FRAME_BYTES: usize = 32 * 1024;

/// The most heap that a transaction can ask for.
pub const MAX_HEAP_FRAME_BYTES: usize = 256 * 1024;

/// What each instruction adds to the compute units of a transaction that asks for none.
pub const DEFAULT_INSTRUCTION_COMPUTE_UNIT_LIMIT: u32 = 200_000;

/// The most compute units that a transaction can have.
pub const MAX_COMPUTE_UNIT_LIMIT: u32 = 1_400_000;

/// The most account data that a transaction can load.
pub const MAX_LOADED_ACCOUNTS_DATA_SIZE_BYTES: usize = 64 * 1024 * 1024;

pub const MICRO_LAMPORTS_PER_LAMPORT: u64 = 1_000_000;

/// The address of the compute budget program,
/// `ComputeBudget111111111111111111111111111111`.
pub const COMPUTE_BUDGET_ID: [u8; 32] = [
    3,
    6,
    70,
    111,
    229,
    33,
    23,
    50,
    255,
    236,
    173,
    186,
    114,
    195,
    155,
    231,
    188,
    140,
    229,
    187,
    197,
    247,
    18,
    107,
    44,
    67,
    155,
    58,
    64,
    0,
    0,
    0,
];

/// The features that bear on compute budgets, and whether they are active.
#[derive(Clone, Copy, Debug, PartialEq, Eq, Structural)]
pub struct FeatureSet {
    pub enable_request_heap_frame_ix: bool,
    pub remove_deprecated_request_unit_ix: bool,
    pub add_set_tx_loaded_accounts_data_size_instruction: bool,
}

/// The cluster that a transaction is for.
#[derive(Clone, Copy, Debug, PartialEq, Eq, Structural)]
pub enum ClusterType {
    Testnet,
    MainnetBeta,
    Devnet,
    Development,
}

/// An instruction of a transaction, of which its data matters here.
#[derive(Clone, Debug)]
pub struct CompiledInstruction {
    pub program_id_index: u8,
    pub accounts: Vec<u8>,
    pub data: Vec<u8>,
}

/// Why the instructions of a transaction are not accepted.
#[derive(Clone, Copy, Debug, PartialEq, Eq, Structural)]
pub enum SanitizeError {
    /// The instruction of this index, counted modulo 256, is not a valid one.
    InstructionError(u8, InstructionError),
    /// The instruction of this index, counted modulo 256, asks for what was asked for already.
    DuplicateInstruction(u8),
}

/// The limits of a transaction.
#[derive(Clone, Copy, Debug, PartialEq, Eq, Structural)]
pub struct TransactionMeta {
    pub updated_heap_bytes: usize,
    pub compute_unit_limit: u32,
    pub compute_unit_price: u64,
    pub accounts_loaded_bytes: usize,
}

/// An instruction to the compute budget program.
#[derive(Clone, Copy, Debug, PartialEq, Eq, Structural)]
pub enum ComputeBudgetInstruction {
    RequestUnitsDeprecated { units: u32, additional_fee: u32 },
    RequestHeapFrame(u32),
    SetComputeUnitLimit(u32),
    SetComputeUnitPrice(u64),
    SetLoadedAccountsDataSizeLimit(u32),
}

/// The instruction that data begins with: a tag, then numbers with the least significant byte
/// first. What follows does not matter.
pub open spec fn decoded(data: Seq<u8>) -> Option<ComputeBudgetInstruction> {
    if data.len() == 0 {
        None
    } else if data[0] == 0 && data.len() >= 9 {
        Some(
            ComputeBudgetInstruction::RequestUnitsDeprecated {
                units: bytes::little_endian(data.subrange(1, 5)) as u32,
                additional_fee: bytes::little_endian(data.subrange(5, 9)) as u32,
            },
        )
    } else if data[0] == 1 && data.len() >= 5 {
        Some(
            ComputeBudgetInstruction::RequestHeapFrame(
                bytes::little_endian(data.subrange(1, 5)) as u32,
            ),
        )
    } else if data[0] == 2 && data.len() >= 5 {
        Some(
            ComputeBudgetInstruction::SetComputeUnitLimit(
                bytes::little_endian(data.subrange(1, 5)) as u32,
            ),
        )
    } else if data[0] == 3 && data.len() >= 9 {
        Some(
            ComputeBudgetInstruction::SetComputeUnitPrice(
                bytes::little_endian(data.subrange(1, 9)) as u64,
            ),
        )
    } else if data[0] == 4 && data.len() >= 5 {
        Some(
            ComputeBudgetInstruction::SetLoadedAccountsDataSizeLimit(
                bytes::little_endian(data.subrange(1, 5)) as u32,
            ),
        )
    } else {
        None
    }
}

/// Reads an instruction to the compute budget program.
pub fn try_from_slice_unchecked(data: &[u8]) -> (r: Option<ComputeBudgetInstruction>)
    ensures
        r == decoded(data@),
{
    let len: usize = data.len();
    if len == 0 {
        return None;
    }
    let tag: u8 = data[0];
    if tag == 0 && len >= 9 {
        Some(
            ComputeBudgetInstruction::RequestUnitsDeprecated {
                units: read_u32_le(data, 1),
                additional_fee: read_u32_le(data, 5),
            },
        )
    } else if tag == 1 && len >= 5 {
        Some(ComputeBudgetInstruction::RequestHeapFrame(read_u32_le(data, 1)))
    } else if tag == 2 && len >= 5 {
        Some(ComputeBudgetInstruction::SetComputeUnitLimit(read_u32_le(data, 1)))
    } else if tag == 3 && len >= 9 {
        Some(ComputeBudgetInstruction::SetComputeUnitPrice(read_u64_le(data, 1)))
    } else if tag == 4 && len >= 5 {
        Some(ComputeBudgetInstruction::SetLoadedAccountsDataSizeLimit(read_u32_le(data, 1)))
    } else {
        None
    }
}

/// A heap size that can be asked for: in the range, a multiple of 1024, and with the feature on.
pub open spec fn heap_size_ok(bytes: int, enable_request_heap_frame_ix: bool) -> bool {
    enable_request_heap_frame_ix && MIN_HEAP_FRAME_BYTES <= bytes <= MAX_HEAP_FRAME_BYTES && bytes
        % 1024 == 0
}

pub fn sanitize_updated_heap_size(bytes: usize, enable_request_heap_frame_ix: bool) -> (r: bool)
    ensures
        r == heap_size_ok(bytes as int, enable_request_heap_frame_ix),
{
    enable_request_heap_frame_ix && MIN_HEAP_FRAME_BYTES <= bytes && bytes <= MAX_HEAP_FRAME_BYTES
        && bytes % 1024 == 0
}

/// The price of a compute unit that a fee over all units amounts to, in millionths: there is none
/// for no units.
pub open spec fn deprecated_price(additional_fee: u32, compute_unit_limit: u32) -> Option<u64> {
    if compute_unit_limit == 0 {
        None
    } else {
        Some(
            (additional_fee as int * MICRO_LAMPORTS_PER_LAMPORT as int
                / compute_unit_limit as int) as u64,
        )
    }
}

pub fn support_deprecated_requested_units(additional_fee: u32, compute_unit_limit: u32) -> (r: Option<
    u64,
>)
    ensures
        r == deprecated_price(additional_fee, compute_unit_limit),
{
    if compute_unit_limit == 0 {
        None
    } else {
        let fee: u64 = additional_fee as u64 * MICRO_LAMPORTS_PER_LAMPORT;
        Some(fee / compute_unit_limit as u64)
    }
}

/// What the instructions of a transaction ask for.
#[derive(Clone, Copy, Debug, PartialEq, Eq, Structural)]
pub struct Requested {
    pub num_non_compute_budget_instructions: u32,
    pub updated_compute_unit_limit: Option<u32>,
    pub updated_compute_unit_price: Option<u64>,
    pub updated_heap_size: Option<usize>,
    pub updated_loaded_accounts_data_size_limit: Option<usize>,
}

/// Nothing is asked for.
pub open spec fn nothing_requested() -> Requested {
    Requested {
        num_non_compute_budget_instructions: 0,
        updated_compute_unit_limit: None,
        updated_compute_unit_price: None,
        updated_heap_size: None,
        updated_loaded_accounts_data_size_limit: None,
    }
}

/// Heap frames can be asked for: by the feature, and before that everywhere but on the main
/// cluster.
pub open spec fn heap_frames_enabled(
    feature_set: FeatureSet,
    maybe_cluster_type: Option<ClusterType>,
) -> bool {
    feature_set.enable_request_heap_frame_ix || (maybe_cluster_type is Some && maybe_cluster_type
        != Some(ClusterType::MainnetBeta))
}

/// What is asked for after the instruction of index `i`, whose data is `data`, to the compute
/// budget program.
pub open spec fn after_budget_instruction(
    before: Requested,
    i: int,
    data: Seq<u8>,
    feature_set: FeatureSet,
    heap_frames: bool,
) -> Result<Requested, SanitizeError> {
    let invalid = Err::<Requested, SanitizeError>(
        SanitizeError::InstructionError(
            (i % 256) as u8,
            InstructionError::InvalidInstructionData,
        ),
    );
    let duplicate = Err::<Requested, SanitizeError>(
        SanitizeError::DuplicateInstruction((i % 256) as u8),
    );
    match decoded(data) {
        Some(ComputeBudgetInstruction::RequestUnitsDeprecated { units, additional_fee }) => {
            if feature_set.remove_deprecated_request_unit_ix {
                invalid
            } else if before.updated_compute_unit_limit is Some || before.updated_compute_unit_price
                is Some {
                duplicate
            } else {
                Ok(
                    Requested {
                        updated_compute_unit_limit: Some(units),
                        updated_compute_unit_price: deprecated_price(additional_fee, units),
                        ..before
                    },
                )
            }
        },
        Some(ComputeBudgetInstruction::RequestHeapFrame(bytes)) => {
            if before.updated_heap_size is Some {
                duplicate
            } else if heap_size_ok(bytes as int, heap_frames) {
                Ok(Requested { updated_heap_size: Some(bytes as usize), ..before })
            } else {
                invalid
            }
        },
        Some(ComputeBudgetInstruction::SetComputeUnitLimit(limit)) => {
            if before.updated_compute_unit_limit is Some {
                duplicate
            } else {
                Ok(Requested { updated_compute_unit_limit: Some(limit), ..before })
            }
        },
        Some(ComputeBudgetInstruction::SetComputeUnitPrice(price)) => {
            if before.updated_compute_unit_price is Some {
                duplicate
            } else {
                Ok(Requested { updated_compute_unit_price: Some(price), ..before })
            }
        },
        Some(ComputeBudgetInstruction::SetLoadedAccountsDataSizeLimit(bytes)) => {
            if !feature_set.add_set_tx_loaded_accounts_data_size_instruction {
                invalid
            } else if before.updated_loaded_accounts_data_size_limit is Some {
                duplicate
            } else {
                Ok(
                    Requested {
                        updated_loaded_accounts_data_size_limit: Some(bytes as usize),
                        ..before
                    },
                )
            }
        },
        None => invalid,
    }
}

/// What the first `n` instructions ask for, or the first error among them.
pub open spec fn requested(
    instructions: Seq<(Pubkey, CompiledInstruction)>,
    feature_set: FeatureSet,
    heap_frames: bool,
    n: nat,
) -> Result<Requested, SanitizeError>
    decreases n,
{
    if n == 0 {
        Ok(nothing_requested())
    } else {
        match requested(instructions, feature_set, heap_frames, (n - 1) as nat) {
            Err(e) => Err(e),
            Ok(before) => {
                let (program_id, instruction) = instructions[n - 1];
                if program_id.0 == COMPUTE_BUDGET_ID {
                    after_budget_instruction(
                        before,
                        n - 1,
                        instruction.data@,
                        feature_set,
                        heap_frames,
                    )
                } else {
                    Ok(
                        Requested {
                            num_non_compute_budget_instructions: if before.num_non_compute_budget_instructions
                                == u32::MAX {
                                u32::MAX
                            } else {
                                (before.num_non_compute_budget_instructions + 1) as u32
                            },
                            ..before
                        },
                    )
                }
            },
        }
    }
}

/// The lesser of a number and a limit.
pub open spec fn at_most(n: int, limit: int) -> int {
    if n <= limit {
        n
    } else {
        limit
    }
}

/// The limits that a transaction has: what it asks for, or else the default, and never more than
/// the most.
pub open spec fn sanitized(r: Requested) -> TransactionMeta {
    TransactionMeta {
        updated_heap_bytes: match r.updated_heap_size {
            Some(bytes) => at_most(bytes as int, MAX_HEAP_FRAME_BYTES as int) as usize,
            None => MIN_HEAP_FRAME_BYTES,
        },
        compute_unit_limit: at_most(
            match r.updated_compute_unit_limit {
                Some(limit) => limit as int,
                None => r.num_non_compute_budget_instructions
                    * DEFAULT_INSTRUCTION_COMPUTE_UNIT_LIMIT,
            },
            MAX_COMPUTE_UNIT_LIMIT as int,
        ) as u32,
        compute_unit_price: match r.updated_compute_unit_price {
            Some(price) => price,
            None => 0,
        },
        accounts_loaded_bytes: match r.updated_loaded_accounts_data_size_limit {
            Some(bytes) => at_most(
                bytes as int,
                MAX_LOADED_ACCOUNTS_DATA_SIZE_BYTES as int,
            ) as usize,
            None => MAX_LOADED_ACCOUNTS_DATA_SIZE_BYTES,
        },
    }
}

/// The limits that the instructions of a transaction ask for, or the first error among them.
pub open spec fn limits(
    instructions: Seq<(Pubkey, CompiledInstruction)>,
    feature_set: FeatureSet,
    maybe_cluster_type: Option<ClusterType>,
) -> Result<TransactionMeta, SanitizeError> {
    match requested(
        instructions,
        feature_set,
        heap_frames_enabled(feature_set, maybe_cluster_type),
        instructions.len(),
    ) {
        Ok(r) => Ok(sanitized(r)),
        Err(e) => Err(e),
    }
}

fn sanitize(r: &Requested) -> (meta: TransactionMeta)
    ensures
        meta == sanitized(*r),
{
    let updated_heap_bytes: usize = match r.updated_heap_size {
        Some(bytes) => if bytes <= MAX_HEAP_FRAME_BYTES {
            bytes
        } else {
            MAX_HEAP_FRAME_BYTES
        },
        None => MIN_HEAP_FRAME_BYTES,
    };
    let units: u64 = match r.updated_compute_unit_limit {
        Some(limit) => limit as u64,
        None => r.num_non_compute_budget_instructions as u64
            * DEFAULT_INSTRUCTION_COMPUTE_UNIT_LIMIT as u64,
    };
    let compute_unit_limit: u32 = if units <= MAX_COMPUTE_UNIT_LIMIT as u64 {
        units as u32
    } else {
        MAX_COMPUTE_UNIT_LIMIT
    };
    let compute_unit_price: u64 = match r.updated_compute_unit_price {
        Some(price) => price,
        None => 0,
    };
    let accounts_loaded_bytes: usize = match r.updated_loaded_accounts_data_size_limit {
        Some(bytes) => if bytes <= MAX_LOADED_ACCOUNTS_DATA_SIZE_BYTES {
            bytes
        } else {
            MAX_LOADED_ACCOUNTS_DATA_SIZE_BYTES
        },
        None => MAX_LOADED_ACCOUNTS_DATA_SIZE_BYTES,
    };
    TransactionMeta {
        updated_heap_bytes,
        compute_unit_limit,
        compute_unit_price,
        accounts_loaded_bytes,
    }
}

/// Takes one instruction to the compute budget program in.
fn process_one(
    before: &Requested,
    i: usize,
    data: &[u8],
    feature_set: &FeatureSet,
    heap_frames: bool,
) -> (r: Result<Requested, SanitizeError>)
    ensures
        r == after_budget_instruction(*before, i as int, data@, *feature_set, heap_frames),
{
    let index: u8 = (i % 256) as u8;
    let invalid_instruction_data_error = SanitizeError::InstructionError(
        index,
        InstructionError::InvalidInstructionData,
    );
    let duplicate_instruction_error = SanitizeError::DuplicateInstruction(index);
    let mut updated = *before;
    match try_from_slice_unchecked(data) {
        Some(ComputeBudgetInstruction::RequestUnitsDeprecated { units, additional_fee }) => {
            if feature_set.remove_deprecated_request_unit_ix {
                return Err(invalid_instruction_data_error);
            }
            if before.updated_compute_unit_limit.is_some() {
                return Err(duplicate_instruction_error);
            }
            if before.updated_compute_unit_price.is_some() {
                return Err(duplicate_instruction_error);
            }
            updated.updated_compute_unit_limit = Some(units);
            updated.updated_compute_unit_price = support_deprecated_requested_units(
                additional_fee,
                units,
            );
        },
        Some(ComputeBudgetInstruction::RequestHeapFrame(bytes)) => {
            if before.updated_heap_size.is_some() {
                return Err(duplicate_instruction_error);
            }
            if sanitize_updated_heap_size(bytes as usize, heap_frames) {
                updated.updated_heap_size = Some(bytes as usize);
            } else {
                return Err(invalid_instruction_data_error);
            }
        },
        Some(ComputeBudgetInstruction::SetComputeUnitLimit(compute_unit_limit)) => {
            if before.updated_compute_unit_limit.is_some() {
                return Err(duplicate_instruction_error);
            }
            updated.updated_compute_unit_limit = Some(compute_unit_limit);
        },
        Some(ComputeBudgetInstruction::SetComputeUnitPrice(compute_unit_price)) => {
            if before.updated_compute_unit_price.is_some() {
                return Err(duplicate_instruction_error);
            }
            updated.updated_compute_unit_price = Some(compute_unit_price);
        },
        Some(ComputeBudgetInstruction::SetLoadedAccountsDataSizeLimit(bytes)) => {
            if !feature_set.add_set_tx_loaded_accounts_data_size_instruction {
                return Err(invalid_instruction_data_error);
            }
            if before.updated_loaded_accounts_data_size_limit.is_some() {
                return Err(duplicate_instruction_error);
            }
            updated.updated_loaded_accounts_data_size_limit = Some(bytes as usize);
        },
        None => {
            return Err(invalid_instruction_data_error);
        },
    }
    Ok(updated)
}

/// The limits that the instructions of a transaction ask for, sanitized, or why they are not
/// accepted.
///
/// Processing the compute budget can be part of sanitizing a transaction: a transaction on which it
/// fails would be dropped without execution anyway, and may as well fail early.
pub fn process_compute_budget_instruction(
    instructions: &Vec<(Pubkey, CompiledInstruction)>,
    feature_set: &FeatureSet,
    maybe_cluster_type: Option<ClusterType>,
) -> (r: Result<TransactionMeta, SanitizeError>)
    ensures
        r == limits(instructions@, *feature_set, maybe_cluster_type),
{
    let enable_request_heap_frame_ix = feature_set.enable_request_heap_frame_ix || (
    match maybe_cluster_type {
        Some(cluster_type) => cluster_type != ClusterType::MainnetBeta,
        None => false,
    });
    let id = Pubkey(COMPUTE_BUDGET_ID);
    let mut req = Requested {
        num_non_compute_budget_instructions: 0,
        updated_compute_unit_limit: None,
        updated_compute_unit_price: None,
        updated_heap_size: None,
        updated_loaded_accounts_data_size_limit: None,
    };
    let mut i: usize = 0;
    while i < instructions.len()
        invariant
            i <= instructions@.len(),
            id.0 == COMPUTE_BUDGET_ID,
            enable_request_heap_frame_ix == heap_frames_enabled(*feature_set, maybe_cluster_type),
            requested(instructions@, *feature_set, enable_request_heap_frame_ix, i as nat) == Ok::<
                Requested,
                SanitizeError,
            >(req),
        decreases instructions@.len() - i,
    {
        let ghost n = (i + 1) as nat;
        if same_address(&instructions[i].0, &id) {
            match process_one(
                &req,
                i,
                instructions[i].1.data.as_slice(),
                feature_set,
                enable_request_heap_frame_ix,
            ) {
                Ok(updated) => {
                    req = updated;
                },
                Err(e) => {
                    proof {
                        lemma_first_error(
                            instructions@,
                            *feature_set,
                            enable_request_heap_frame_ix,
                            n,
                            instructions@.len(),
                            e,
                        );
                    }
                    return Err(e);
                },
            }
        } else {
            req.num_non_compute_budget_instructions =
            req.num_non_compute_budget_instructions.saturating_add(1);
        }
        i = i + 1;
    }
    Ok(sanitize(&req))
}

/// The first error is the error.
proof fn lemma_first_error(
    instructions: Seq<(Pubkey, CompiledInstruction)>,
    feature_set: FeatureSet,
    heap_frames: bool,
    n: nat,
    m: nat,
    e: SanitizeError,
)
    requires
        n <= m,
        requested(instructions, feature_set, heap_frames, n) == Err::<Requested, SanitizeError>(e),
    ensures
        requested(instructions, feature_set, heap_frames, m) == Err::<Requested, SanitizeError>(e),
    decreases m - n,
{
    if n < m {
        lemma_first_error(instructions, feature_set, heap_frames, n, (m - 1) as nat, e);
    }
}

/// The first instructions ask for the same, whatever follows them.
proof fn lemma_requested_of_first(
    first: Seq<(Pubkey, CompiledInstruction)>,
    rest: Seq<(Pubkey, CompiledInstruction)>,
    feature_set: FeatureSet,
    heap_frames: bool,
    n: nat,
)
    requires
        n <= first.len(),
    ensures
        requested(first + rest, feature_set, heap_frames, n) == requested(
            first,
            feature_set,
            heap_frames,
            n,
        ),
    decreases n,
{
    if n > 0 {
        lemma_requested_of_first(first, rest, feature_set, heap_frames, (n - 1) as nat);
        assert((first + rest)[n - 1] == first[n - 1]);
    }
}

/// An error among the first instructions of a transaction is its error, whatever follows them.
pub proof fn law_first_error_decides(
    first: Seq<(Pubkey, CompiledInstruction)>,
    rest: Seq<(Pubkey, CompiledInstruction)>,
    feature_set: FeatureSet,
    maybe_cluster_type: Option<ClusterType>,
)
    ensures
        limits(first, feature_set, maybe_cluster_type) is Err ==> limits(
            first + rest,
            feature_set,
            maybe_cluster_type,
        ) == limits(first, feature_set, maybe_cluster_type),
{
    let heap_frames = heap_frames_enabled(feature_set, maybe_cluster_type);
    let n = first.len();
    lemma_requested_of_first(first, rest, feature_set, heap_frames, n);
    if let Err(e) = requested(first, feature_set, heap_frames, n) {
        lemma_first_error(
            first + rest,
            feature_set,
            heap_frames,
            n,
            (first + rest).len(),
            e,
        );
    }
}

/// What counts of an instruction: its data if it is to the compute budget program, and otherwise
/// nothing but that it is there.
pub open spec fn budget_data(instruction: (Pubkey, CompiledInstruction)) -> Option<Seq<u8>> {
    if instruction.0.0 == COMPUTE_BUDGET_ID {
        Some(instruction.1.data@)
    } else {
        None
    }
}

/// What counts of each instruction.
pub open spec fn all_budget_data(instructions: Seq<(Pubkey, CompiledInstruction)>) -> Seq<
    Option<Seq<u8>>,
> {
    instructions.map_values(|instruction: (Pubkey, CompiledInstruction)| budget_data(instruction))
}

/// Only the data of instructions to the compute budget program, and how many others there are at
/// which places, decides: the other programs, and the data and accounts of their instructions, do
/// not count, nor do the accounts of instructions to the compute budget program.
pub proof fn law_other_programs_do_not_count(
    xs: Seq<(Pubkey, CompiledInstruction)>,
    ys: Seq<(Pubkey, CompiledInstruction)>,
    feature_set: FeatureSet,
    maybe_cluster_type: Option<ClusterType>,
)
    requires
        all_budget_data(xs) == all_budget_data(ys),
    ensures
        limits(xs, feature_set, maybe_cluster_type) == limits(ys, feature_set, maybe_cluster_type),
{
    assert(all_budget_data(xs).len() == xs.len());
    assert(all_budget_data(ys).len() == ys.len());
    lemma_requested_by_data(
        xs,
        ys,
        feature_set,
        heap_frames_enabled(feature_set, maybe_cluster_type),
        xs.len(),
    );
}

proof fn lemma_requested_by_data(
    xs: Seq<(Pubkey, CompiledInstruction)>,
    ys: Seq<(Pubkey, CompiledInstruction)>,
    feature_set: FeatureSet,
    heap_frames: bool,
    n: nat,
)
    requires
        all_budget_data(xs) == all_budget_data(ys),
        n <= xs.len(),
    ensures
        requested(xs, feature_set, heap_frames, n) == requested(ys, feature_set, heap_frames, n),
    decreases n,
{
    if n > 0 {
        lemma_requested_by_data(xs, ys, feature_set, heap_frames, (n - 1) as nat);
        assert(all_budget_data(ys).len() == ys.len());
        assert(all_budget_data(xs)[n - 1] == budget_data(xs[n - 1]));
        assert(all_budget_data(ys)[n - 1] == budget_data(ys[n - 1]));
    }
}

/// The limit on compute units that an instruction asks for.
spec fn limit_in(data: Option<Seq<u8>>) -> Option<u32> {
    match data {
        Some(data) => match decoded(data) {
            Some(ComputeBudgetInstruction::RequestUnitsDeprecated { units, .. }) => Some(units),
            Some(ComputeBudgetInstruction::SetComputeUnitLimit(limit)) => Some(limit),
            _ => None,
        },
        None => None,
    }
}

/// The price of compute units that an instruction asks for.
spec fn price_in(data: Option<Seq<u8>>) -> Option<u64> {
    match data {
        Some(data) => match decoded(data) {
            Some(ComputeBudgetInstruction::RequestUnitsDeprecated { units, additional_fee }) => {
                deprecated_price(additional_fee, units)
            },
            Some(ComputeBudgetInstruction::SetComputeUnitPrice(price)) => Some(price),
            _ => None,
        },
        None => None,
    }
}

/// The heap that an instruction asks for.
spec fn heap_in(data: Option<Seq<u8>>) -> Option<usize> {
    match data {
        Some(data) => match decoded(data) {
            Some(ComputeBudgetInstruction::RequestHeapFrame(bytes)) => Some(bytes as usize),
            _ => None,
        },
        None => None,
    }
}

/// The limit on the data of accounts that an instruction asks for.
spec fn size_in(data: Option<Seq<u8>>) -> Option<usize> {
    match data {
        Some(data) => match decoded(data) {
            Some(ComputeBudgetInstruction::SetLoadedAccountsDataSizeLimit(bytes)) => Some(
                bytes as usize,
            ),
            _ => None,
        },
        None => None,
    }
}

/// What all ask for, `asks` being what each asks for: one of them asks for it, and whoever asks for
/// anything asks for that.
spec fn is_asked<T>(
    data: Seq<Option<Seq<u8>>>,
    asks: spec_fn(Option<Seq<u8>>) -> Option<T>,
    all: Option<T>,
) -> bool {
    &&& all is Some ==> exists|d: Option<Seq<u8>>| #[trigger] data.contains(d) && asks(d) == all
    &&& forall|d: Option<Seq<u8>>| #[trigger] data.contains(d) && asks(d) is Some ==> asks(d) == all
}

/// One more instruction: it asks for what nobody has asked for, or for nothing.
proof fn lemma_asked_push<T>(
    data: Seq<Option<Seq<u8>>>,
    asks: spec_fn(Option<Seq<u8>>) -> Option<T>,
    before: Option<T>,
    d: Option<Seq<u8>>,
    after: Option<T>,
)
    requires
        is_asked(data, asks, before),
        asks(d) is Some ==> before is None && after == asks(d),
        asks(d) is None ==> after == before,
    ensures
        is_asked(data.push(d), asks, after),
{
    let more = data.push(d);
    assert forall|c: Option<Seq<u8>>| #[trigger] more.contains(c) <==> data.contains(c) || c == d by {
        if data.contains(c) {
            let i = choose|i: int| 0 <= i < data.len() && data[i] == c;
            assert(more[i] == c);
        }
        assert(more[data.len() as int] == d);
    }
    if after is Some {
        if asks(d) is Some {
            assert(more.contains(d));
        } else {
            let c = choose|c: Option<Seq<u8>>| #[trigger] data.contains(c) && asks(c) == before;
            assert(more.contains(c));
        }
    }
}

/// The same is asked for in whichever order.
proof fn lemma_asked_same<T>(
    xs: Seq<Option<Seq<u8>>>,
    ys: Seq<Option<Seq<u8>>>,
    asks: spec_fn(Option<Seq<u8>>) -> Option<T>,
    x: Option<T>,
    y: Option<T>,
)
    requires
        xs.to_multiset() == ys.to_multiset(),
        is_asked(xs, asks, x),
        is_asked(ys, asks, y),
    ensures
        x == y,
{
    xs.to_multiset_ensures();
    ys.to_multiset_ensures();
    if x is Some {
        let d = choose|d: Option<Seq<u8>>| #[trigger] xs.contains(d) && asks(d) == x;
        assert(xs.to_multiset().count(d) > 0);
        assert(ys.contains(d));
    }
    if y is Some {
        let d = choose|d: Option<Seq<u8>>| #[trigger] ys.contains(d) && asks(d) == y;
        assert(ys.to_multiset().count(d) > 0);
        assert(xs.contains(d));
    }
}

/// What the first `n` instructions ask for, where there is no error among them, said without their
/// order.
proof fn lemma_requested_is_asked(
    instructions: Seq<(Pubkey, CompiledInstruction)>,
    feature_set: FeatureSet,
    heap_frames: bool,
    n: nat,
)
    requires
        n <= instructions.len(),
    ensures
        requested(instructions, feature_set, heap_frames, n) matches Ok(r) ==> {
            let data = all_budget_data(instructions).take(n as int);
            &&& is_asked(data, |d: Option<Seq<u8>>| limit_in(d), r.updated_compute_unit_limit)
            &&& is_asked(data, |d: Option<Seq<u8>>| price_in(d), r.updated_compute_unit_price)
            &&& is_asked(data, |d: Option<Seq<u8>>| heap_in(d), r.updated_heap_size)
            &&& is_asked(
                data,
                |d: Option<Seq<u8>>| size_in(d),
                r.updated_loaded_accounts_data_size_limit,
            )
            &&& r.num_non_compute_budget_instructions == at_most(
                data.to_multiset().count(None) as int,
                u32::MAX as int,
            )
        },
    decreases n,
{
    let data = all_budget_data(instructions).take(n as int);
    if n == 0 {
        data.to_multiset_ensures();
        assert(data.to_multiset().count(None) == 0);
    } else if let Ok(after) = requested(instructions, feature_set, heap_frames, n) {
        lemma_requested_is_asked(instructions, feature_set, heap_frames, (n - 1) as nat);
        let before = requested(instructions, feature_set, heap_frames, (n - 1) as nat)->Ok_0;
        let done = all_budget_data(instructions).take(n - 1);
        let d = budget_data(instructions[n - 1]);
        assert(data =~= done.push(d));
        done.to_multiset_ensures();
        lemma_asked_push(
            done,
            |d: Option<Seq<u8>>| limit_in(d),
            before.updated_compute_unit_limit,
            d,
            after.updated_compute_unit_limit,
        );
        lemma_asked_push(
            done,
            |d: Option<Seq<u8>>| price_in(d),
            before.updated_compute_unit_price,
            d,
            after.updated_compute_unit_price,
        );
        lemma_asked_push(
            done,
            |d: Option<Seq<u8>>| heap_in(d),
            before.updated_heap_size,
            d,
            after.updated_heap_size,
        );
        lemma_asked_push(
            done,
            |d: Option<Seq<u8>>| size_in(d),
            before.updated_loaded_accounts_data_size_limit,
            d,
            after.updated_loaded_accounts_data_size_limit,
        );
    }
}

/// The order of instructions does not matter: two orders that are both accepted give the same
/// limits. What counts of the instructions is said by `budget_data`, so other programs and their
/// data may differ too.
pub proof fn law_order_does_not_matter(
    xs: Seq<(Pubkey, CompiledInstruction)>,
    ys: Seq<(Pubkey, CompiledInstruction)>,
    feature_set: FeatureSet,
    maybe_cluster_type: Option<ClusterType>,
)
    requires
        all_budget_data(xs).to_multiset() == all_budget_data(ys).to_multiset(),
        limits(xs, feature_set, maybe_cluster_type) is Ok,
        limits(ys, feature_set, maybe_cluster_type) is Ok,
    ensures
        limits(xs, feature_set, maybe_cluster_type) == limits(ys, feature_set, maybe_cluster_type),
{
    let heap_frames = heap_frames_enabled(feature_set, maybe_cluster_type);
    let a = all_budget_data(xs);
    let b = all_budget_data(ys);
    assert(a.take(xs.len() as int) =~= a);
    assert(b.take(ys.len() as int) =~= b);
    lemma_requested_is_asked(xs, feature_set, heap_frames, xs.len());
    lemma_requested_is_asked(ys, feature_set, heap_frames, ys.len());
    let x = requested(xs, feature_set, heap_frames, xs.len())->Ok_0;
    let y = requested(ys, feature_set, heap_frames, ys.len())->Ok_0;
    lemma_asked_same(
        a,
        b,
        |d: Option<Seq<u8>>| limit_in(d),
        x.updated_compute_unit_limit,
        y.updated_compute_unit_limit,
    );
    lemma_asked_same(
        a,
        b,
        |d: Option<Seq<u8>>| price_in(d),
        x.updated_compute_unit_price,
        y.updated_compute_unit_price,
    );
    lemma_asked_same(
        a,
        b,
        |d: Option<Seq<u8>>| heap_in(d),
        x.updated_heap_size,
        y.updated_heap_size,
    );
    lemma_asked_same(
        a,
        b,
        |d: Option<Seq<u8>>| size_in(d),
        x.updated_loaded_accounts_data_size_limit,
        y.updated_loaded_accounts_data_size_limit,
    );
}

/// Two orders of the same instructions that are both accepted give the same limits.
pub proof fn law_accepted_permutations_agree(
    xs: Seq<(Pubkey, CompiledInstruction)>,
    ys: Seq<(Pubkey, CompiledInstruction)>,
    feature_set: FeatureSet,
    maybe_cluster_type: Option<ClusterType>,
)
    requires
        xs.to_multiset() == ys.to_multiset(),
        limits(xs, feature_set, maybe_cluster_type) is Ok,
        limits(ys, feature_set, maybe_cluster_type) is Ok,
    ensures
        limits(xs, feature_set, maybe_cluster_type) == limits(ys, feature_set, maybe_cluster_type),
{
    lemma_same_budget_data(xs, ys);
    law_order_does_not_matter(xs, ys, feature_set, maybe_cluster_type);
}

/// The same instructions in another order have the same data in another order.
proof fn lemma_same_budget_data(
    xs: Seq<(Pubkey, CompiledInstruction)>,
    ys: Seq<(Pubkey, CompiledInstruction)>,
)
    requires
        xs.to_multiset() == ys.to_multiset(),
    ensures
        all_budget_data(xs).to_multiset() == all_budget_data(ys).to_multiset(),
    decreases xs.len(),
{
    xs.to_multiset_ensures();
    ys.to_multiset_ensures();
    let a = all_budget_data(xs);
    let b = all_budget_data(ys);
    if xs.len() == 0 {
        assert(a =~= b);
    } else {
        let x = xs[0];
        assert(xs.to_multiset().count(x) > 0);
        let j = choose|j: int| 0 <= j < ys.len() && ys[j] == x;
        lemma_same_budget_data(xs.remove(0), ys.remove(j));
        assert(all_budget_data(xs.remove(0)) =~= a.remove(0));
        assert(all_budget_data(ys.remove(j)) =~= b.remove(j));
        a.to_multiset_ensures();
        b.to_multiset_ensures();
        assert(a.to_multiset() =~= a.remove(0).to_multiset().insert(a[0]));
        assert(b.to_multiset() =~= b.remove(j).to_multiset().insert(b[j]));
    }
}

/// Whatever the instructions of a transaction ask for, the limits that it gets are within bounds.
pub proof fn law_limits_are_bounded(
    instructions: Seq<(Pubkey, CompiledInstruction)>,
    feature_set: FeatureSet,
    heap_frames: bool,
)
    ensures
        requested(instructions, feature_set, heap_frames, instructions.len()) matches Ok(r) ==> {
            &&& MIN_HEAP_FRAME_BYTES <= sanitized(r).updated_heap_bytes <= MAX_HEAP_FRAME_BYTES
            &&& sanitized(r).compute_unit_limit <= MAX_COMPUTE_UNIT_LIMIT
            &&& sanitized(r).accounts_loaded_bytes <= MAX_LOADED_ACCOUNTS_DATA_SIZE_BYTES
        },
{
    law_accepted_heap_can_be_asked_for(
        instructions,
        feature_set,
        heap_frames,
        instructions.len(),
    );
}

/// A heap that is asked for with success has a size that can be asked for.
pub proof fn law_accepted_heap_can_be_asked_for(
    instructions: Seq<(Pubkey, CompiledInstruction)>,
    feature_set: FeatureSet,
    heap_frames: bool,
    n: nat,
)
    ensures
        requested(instructions, feature_set, heap_frames, n) matches Ok(r) ==> (
        r.updated_heap_size matches Some(bytes) ==> heap_size_ok(bytes as int, heap_frames)),
    decreases n,
{
    if n > 0 {
        law_accepted_heap_can_be_asked_for(instructions, feature_set, heap_frames, (n - 1) as nat);
    }
}

/// With heap frames enabled, asking for a heap frame does not get in the way of setting the price
/// of compute units, in either order.
pub proof fn law_heap_frame_and_price_can_coexist(
    before: Requested,
    i: int,
    j: int,
    heap: Seq<u8>,
    price: Seq<u8>,
    feature_set: FeatureSet,
    bytes: u32,
    units_price: u64,
)
    requires
        before.updated_heap_size is None,
        before.updated_compute_unit_price is None,
        decoded(heap) == Some(ComputeBudgetInstruction::RequestHeapFrame(bytes)),
        decoded(price) == Some(ComputeBudgetInstruction::SetComputeUnitPrice(units_price)),
        heap_size_ok(bytes as int, true),
    ensures
        ({
            let both = Ok::<Requested, SanitizeError>(
                Requested {
                    updated_heap_size: Some(bytes as usize),
                    updated_compute_unit_price: Some(units_price),
                    ..before
                },
            );
            &&& after_budget_instruction(before, i, heap, feature_set, true) matches Ok(one)
            &&& after_budget_instruction(one, j, price, feature_set, true) == both
            &&& after_budget_instruction(before, i, price, feature_set, true) matches Ok(other)
            &&& after_budget_instruction(other, j, heap, feature_set, true) == both
        }),
{
}

/// The number in the four bytes from `at` on, the least significant first.
pub open spec fn u32_at(data: Seq<u8>, at: int) -> int {
    data[at] + 0x100 * data[at + 1] + 0x1_0000 * data[at + 2] + 0x100_0000 * data[at + 3]
}

/// The number in the eight bytes from `at` on, the least significant first.
pub open spec fn u64_at(data: Seq<u8>, at: int) -> int {
    u32_at(data, at) + 0x1_0000_0000 * u32_at(data, at + 4)
}

proof fn lemma_u32_at(data: Seq<u8>, at: int)
    requires
        0 <= at,
        at + 4 <= data.len(),
    ensures
        bytes::little_endian(data.subrange(at, at + 4)) == u32_at(data, at),
        0 <= u32_at(data, at) <= u32::MAX,
{
    reveal_with_fuel(bytes::little_endian, 5);
    let s = data.subrange(at, at + 4);
    assert(s.skip(1).skip(1) =~= s.skip(2));
    assert(s.skip(2).skip(1) =~= s.skip(3));
    assert(s.skip(3).skip(1) =~= s.skip(4));
}

proof fn lemma_u64_at(data: Seq<u8>, at: int)
    requires
        0 <= at,
        at + 8 <= data.len(),
    ensures
        bytes::little_endian(data.subrange(at, at + 8)) == u64_at(data, at),
        0 <= u64_at(data, at) <= u64::MAX,
{
    lemma_u32_at(data, at);
    lemma_u32_at(data, at + 4);
    reveal_with_fuel(bytes::little_endian, 5);
    let s = data.subrange(at, at + 8);
    assert(s.skip(1).skip(1) =~= s.skip(2));
    assert(s.skip(2).skip(1) =~= s.skip(3));
    assert(s.skip(3).skip(1) =~= s.skip(4));
    assert(s.skip(4) =~= data.subrange(at + 4, at + 8));
}

/// What the bytes of an instruction ask for: the first byte says what, and the number after it how
/// much. Without all bytes of the number, or with another first byte, there is no instruction.
pub proof fn law_bytes_of_an_instruction(data: &[u8], r: Option<ComputeBudgetInstruction>)
    requires
        call_ensures(try_from_slice_unchecked, (data,), r),
    ensures
        match r {
            Some(ComputeBudgetInstruction::RequestUnitsDeprecated { units, additional_fee }) => {
                &&& data@.len() >= 9 && data@[0] == 0
                &&& units == u32_at(data@, 1)
                &&& additional_fee == u32_at(data@, 5)
            },
            Some(ComputeBudgetInstruction::RequestHeapFrame(n)) => data@.len() >= 5 && data@[0] == 1
                && n == u32_at(data@, 1),
            Some(ComputeBudgetInstruction::SetComputeUnitLimit(n)) => data@.len() >= 5 && data@[0]
                == 2 && n == u32_at(data@, 1),
            Some(ComputeBudgetInstruction::SetComputeUnitPrice(n)) => data@.len() >= 9 && data@[0]
                == 3 && n == u64_at(data@, 1),
            Some(ComputeBudgetInstruction::SetLoadedAccountsDataSizeLimit(n)) => data@.len() >= 5
                && data@[0] == 4 && n == u32_at(data@, 1),
            None => {
                ||| data@.len() < 5
                ||| data@[0] > 4
                ||| data@.len() < 9 && (data@[0] == 0 || data@[0] == 3)
            },
        },
{
    lemma_decoded_numbers(data@);
}

proof fn lemma_decoded_numbers(data: Seq<u8>)
    ensures
        data.len() >= 5 ==> bytes::little_endian(data.subrange(1, 5)) == u32_at(data, 1) && 0
            <= u32_at(data, 1) <= u32::MAX,
        data.len() >= 9 ==> bytes::little_endian(data.subrange(5, 9)) == u32_at(data, 5) && 0
            <= u32_at(data, 5) <= u32::MAX,
        data.len() >= 9 ==> bytes::little_endian(data.subrange(1, 9)) == u64_at(data, 1) && 0
            <= u64_at(data, 1) <= u64::MAX,
{
    if data.len() >= 5 {
        lemma_u32_at(data, 1);
    }
    if data.len() >= 9 {
        lemma_u32_at(data, 5);
        lemma_u64_at(data, 1);
    }
}

/// A transaction that is accepted gets what each of its instructions to the compute budget program
/// asks for, up to the most that there is of it.
pub proof fn law_what_is_asked_for_is_granted(
    instructions: &Vec<(Pubkey, CompiledInstruction)>,
    feature_set: &FeatureSet,
    maybe_cluster_type: Option<ClusterType>,
    meta: TransactionMeta,
    i: int,
)
    requires
        call_ensures(
            process_compute_budget_instruction,
            (instructions, feature_set, maybe_cluster_type),
            Ok(meta),
        ),
        0 <= i < instructions@.len(),
        instructions@[i].0.0 == COMPUTE_BUDGET_ID,
    ensures
        ({
            let data = instructions@[i].1.data@;
            &&& data.len() >= 5 && data[0] <= 4
            &&& data[0] == 0 || data[0] == 3 ==> data.len() >= 9
            &&& data[0] == 0 ==> {
                &&& !feature_set.remove_deprecated_request_unit_ix
                &&& meta.compute_unit_limit == vstd::math::min(u32_at(data, 1), 1_400_000)
                &&& u32_at(data, 1) > 0 ==> meta.compute_unit_price == u32_at(data, 5) * 1_000_000
                    / u32_at(data, 1)
            }
            &&& data[0] == 1 ==> {
                &&& meta.updated_heap_bytes == u32_at(data, 1)
                &&& 32 * 1024 <= u32_at(data, 1) <= 256 * 1024
                &&& u32_at(data, 1) % 1024 == 0
                &&& feature_set.enable_request_heap_frame_ix || (maybe_cluster_type is Some
                    && maybe_cluster_type != Some(ClusterType::MainnetBeta))
            }
            &&& data[0] == 2 ==> meta.compute_unit_limit == vstd::math::min(u32_at(data, 1), 1_400_000)
            &&& data[0] == 3 ==> meta.compute_unit_price == u64_at(data, 1)
            &&& data[0] == 4 ==> {
                &&& feature_set.add_set_tx_loaded_accounts_data_size_instruction
                &&& meta.accounts_loaded_bytes == vstd::math::min(u32_at(data, 1), 0x400_0000)
            }
        }),
{
    let xs = instructions@;
    let heap_frames = heap_frames_enabled(*feature_set, maybe_cluster_type);
    let all = all_budget_data(xs);
    let n = xs.len();
    let r = requested(xs, *feature_set, heap_frames, n)->Ok_0;
    let data = xs[i].1.data@;
    lemma_requested_is_asked(xs, *feature_set, heap_frames, n);
    assert(all.take(n as int) =~= all);
    assert(all[i] == Some(data));
    assert(all.contains(Some(data)));
    lemma_each_is_accepted(xs, *feature_set, heap_frames, n, i);
    lemma_decoded_numbers(data);
    let asked = Some(data);
    let limit = |d: Option<Seq<u8>>| limit_in(d);
    let price = |d: Option<Seq<u8>>| price_in(d);
    let heap = |d: Option<Seq<u8>>| heap_in(d);
    let size = |d: Option<Seq<u8>>| size_in(d);
    assert(limit(asked) is Some ==> limit(asked) == r.updated_compute_unit_limit);
    assert(price(asked) is Some ==> price(asked) == r.updated_compute_unit_price);
    assert(heap(asked) is Some ==> heap(asked) == r.updated_heap_size);
    assert(size(asked) is Some ==> size(asked) == r.updated_loaded_accounts_data_size_limit);
    if data[0] == 0 && u32_at(data, 1) > 0 {
        let fee = u32_at(data, 5);
        let units = u32_at(data, 1);
        assert(0 <= fee * 1_000_000 / units <= u64::MAX) by (nonlinear_arith)
            requires
                0 <= fee <= u32::MAX,
                units > 0,
        ;
    }
}

/// Where all instructions are accepted, each of them is.
proof fn lemma_each_is_accepted(
    instructions: Seq<(Pubkey, CompiledInstruction)>,
    feature_set: FeatureSet,
    heap_frames: bool,
    n: nat,
    i: int,
)
    requires
        0 <= i < n <= instructions.len(),
        requested(instructions, feature_set, heap_frames, n) is Ok,
    ensures
        requested(instructions, feature_set, heap_frames, i as nat) is Ok,
        requested(instructions, feature_set, heap_frames, (i + 1) as nat) is Ok,
    decreases n,
{
    if i + 1 < n {
        lemma_each_is_accepted(instructions, feature_set, heap_frames, (n - 1) as nat, i);
    }
}

/// A transaction that asks for something twice is not accepted. Asking for units with a fee is asking
/// for a limit, in either order, and for a price, where a price was asked for before.
pub proof fn law_nothing_is_asked_for_twice(
    instructions: &Vec<(Pubkey, CompiledInstruction)>,
    feature_set: &FeatureSet,
    maybe_cluster_type: Option<ClusterType>,
    r: Result<TransactionMeta, SanitizeError>,
    i: int,
    j: int,
)
    requires
        call_ensures(
            process_compute_budget_instruction,
            (instructions, feature_set, maybe_cluster_type),
            r,
        ),
        0 <= i < j < instructions@.len(),
        instructions@[i].0.0 == COMPUTE_BUDGET_ID,
        instructions@[j].0.0 == COMPUTE_BUDGET_ID,
        instructions@[i].1.data@.len() > 0,
        instructions@[j].1.data@.len() > 0,
        ({
            let a = instructions@[i].1.data@[0];
            let b = instructions@[j].1.data@[0];
            a == b || (a == 0 && b == 2) || (a == 2 && b == 0) || (a == 3 && b == 0)
        }),
    ensures
        r is Err,
{
    if r is Ok {
        let xs = instructions@;
        let heap_frames = heap_frames_enabled(*feature_set, maybe_cluster_type);
        let all = all_budget_data(xs);
        lemma_each_is_accepted(xs, *feature_set, heap_frames, xs.len(), i);
        lemma_each_is_accepted(xs, *feature_set, heap_frames, xs.len(), j);
        lemma_requested_is_asked(xs, *feature_set, heap_frames, j as nat);
        let before = all.take(j);
        assert(before[i] == Some(xs[i].1.data@));
        assert(before.contains(Some(xs[i].1.data@)));
        let asked = Some(xs[i].1.data@);
        let limit = |d: Option<Seq<u8>>| limit_in(d);
        let price = |d: Option<Seq<u8>>| price_in(d);
        let heap = |d: Option<Seq<u8>>| heap_in(d);
        let size = |d: Option<Seq<u8>>| size_in(d);
        let so_far = requested(xs, *feature_set, heap_frames, j as nat)->Ok_0;
        assert(limit(asked) is Some ==> so_far.updated_compute_unit_limit is Some);
        assert(price(asked) is Some ==> so_far.updated_compute_unit_price is Some);
        assert(heap(asked) is Some ==> so_far.updated_heap_size is Some);
        assert(size(asked) is Some ==> so_far.updated_loaded_accounts_data_size_limit is Some);
    }
}

/// What a transaction does not ask for it has the default of: a price of nothing, the least heap, the
/// most account data, and so many compute units for each instruction to another program.
pub proof fn law_defaults_for_what_is_not_asked_for(
    instructions: &Vec<(Pubkey, CompiledInstruction)>,
    feature_set: &FeatureSet,
    maybe_cluster_type: Option<ClusterType>,
    meta: TransactionMeta,
)
    requires
        call_ensures(
            process_compute_budget_instruction,
            (instructions, feature_set, maybe_cluster_type),
            Ok(meta),
        ),
        instructions@.len() <= u32::MAX,
    ensures
        ({
            let asks = |tag: u8|
                exists|i: int|
                    {
                        &&& 0 <= i < instructions@.len()
                        &&& (#[trigger] instructions@[i]).0.0 == COMPUTE_BUDGET_ID
                        &&& instructions@[i].1.data@.len() > 0
                        &&& instructions@[i].1.data@[0] == tag
                    };
            let others = instructions@.filter(
                |instruction: (Pubkey, CompiledInstruction)| instruction.0.0 != COMPUTE_BUDGET_ID,
            ).len();
            &&& !asks(0) && !asks(2) ==> meta.compute_unit_limit == vstd::math::min(
                others as int * 200_000,
                1_400_000,
            )
            &&& !asks(0) && !asks(3) ==> meta.compute_unit_price == 0
            &&& !asks(1) ==> meta.updated_heap_bytes == 32 * 1024
            &&& !asks(4) ==> meta.accounts_loaded_bytes == 64 * 1024 * 1024
        }),
{
    let xs = instructions@;
    let heap_frames = heap_frames_enabled(*feature_set, maybe_cluster_type);
    let all = all_budget_data(xs);
    let n = xs.len();
    let r = requested(xs, *feature_set, heap_frames, n)->Ok_0;
    lemma_requested_is_asked(xs, *feature_set, heap_frames, n);
    assert(all.take(n as int) =~= all);
    lemma_others_are_counted(xs, n);
    assert(xs.take(n as int) =~= xs);
    let limit = |d: Option<Seq<u8>>| limit_in(d);
    let price = |d: Option<Seq<u8>>| price_in(d);
    let heap = |d: Option<Seq<u8>>| heap_in(d);
    let size = |d: Option<Seq<u8>>| size_in(d);
    if r.updated_compute_unit_limit is Some {
        let d = choose|d: Option<Seq<u8>>| #[trigger]
            all.contains(d) && limit(d) == r.updated_compute_unit_limit;
        let i = choose|i: int| 0 <= i < all.len() && all[i] == d;
        assert(xs[i].0.0 == COMPUTE_BUDGET_ID);
    }
    if r.updated_compute_unit_price is Some {
        let d = choose|d: Option<Seq<u8>>| #[trigger]
            all.contains(d) && price(d) == r.updated_compute_unit_price;
        let i = choose|i: int| 0 <= i < all.len() && all[i] == d;
        assert(xs[i].0.0 == COMPUTE_BUDGET_ID);
    }
    if r.updated_heap_size is Some {
        let d = choose|d: Option<Seq<u8>>| #[trigger]
            all.contains(d) && heap(d) == r.updated_heap_size;
        let i = choose|i: int| 0 <= i < all.len() && all[i] == d;
        assert(xs[i].0.0 == COMPUTE_BUDGET_ID);
    }
    if r.updated_loaded_accounts_data_size_limit is Some {
        let d = choose|d: Option<Seq<u8>>| #[trigger]
            all.contains(d) && size(d) == r.updated_loaded_accounts_data_size_limit;
        let i = choose|i: int| 0 <= i < all.len() && all[i] == d;
        assert(xs[i].0.0 == COMPUTE_BUDGET_ID);
    }
}

proof fn lemma_others_are_counted(xs: Seq<(Pubkey, CompiledInstruction)>, n: nat)
    requires
        n <= xs.len(),
    ensures
        all_budget_data(xs).take(n as int).to_multiset().count(None) == xs.take(n as int).filter(
            |instruction: (Pubkey, CompiledInstruction)| instruction.0.0 != COMPUTE_BUDGET_ID,
        ).len(),
        xs.take(n as int).filter(
            |instruction: (Pubkey, CompiledInstruction)| instruction.0.0 != COMPUTE_BUDGET_ID,
        ).len() <= n,
    decreases n,
{
    reveal(Seq::filter);
    let data = all_budget_data(xs).take(n as int);
    data.to_multiset_ensures();
    if n > 0 {
        lemma_others_are_counted(xs, (n - 1) as nat);
        let done = all_budget_data(xs).take(n - 1);
        done.to_multiset_ensures();
        assert(data =~= done.push(budget_data(xs[n - 1])));
        assert(xs.take(n as int).drop_last() =~= xs.take(n - 1));
        assert(xs.take(n as int).last() == xs[n - 1]);
    } else {
        assert(data.to_multiset().count(None) == 0);
    }
}

/// The instruction is a complete one to the compute budget program, of a kind that is accepted.
pub open spec fn is_proper(
    data: Seq<u8>,
    feature_set: FeatureSet,
    maybe_cluster_type: Option<ClusterType>,
) -> bool {
    &&& data.len() >= 5
    &&& {
        ||| data[0] == 0 && data.len() >= 9 && !feature_set.remove_deprecated_request_unit_ix
        ||| {
            &&& data[0] == 1
            &&& 32 * 1024 <= u32_at(data, 1) <= 256 * 1024
            &&& u32_at(data, 1) % 1024 == 0
            &&& feature_set.enable_request_heap_frame_ix || (maybe_cluster_type is Some
                && maybe_cluster_type != Some(ClusterType::MainnetBeta))
        }
        ||| data[0] == 2
        ||| data[0] == 3 && data.len() >= 9
        ||| data[0] == 4 && feature_set.add_set_tx_loaded_accounts_data_size_instruction
    }
}

/// A transaction is accepted if its instructions to the compute budget program are all proper and no
/// two of them ask for the same.
pub proof fn law_proper_requests_are_accepted(
    instructions: &Vec<(Pubkey, CompiledInstruction)>,
    feature_set: &FeatureSet,
    maybe_cluster_type: Option<ClusterType>,
    r: Result<TransactionMeta, SanitizeError>,
)
    requires
        call_ensures(
            process_compute_budget_instruction,
            (instructions, feature_set, maybe_cluster_type),
            r,
        ),
        forall|i: int|
            0 <= i < instructions@.len() && (#[trigger] instructions@[i]).0.0 == COMPUTE_BUDGET_ID
                ==> is_proper(instructions@[i].1.data@, *feature_set, maybe_cluster_type),
        forall|i: int, j: int|
            0 <= i < j < instructions@.len() && (#[trigger] instructions@[i]).0.0
                == COMPUTE_BUDGET_ID && (#[trigger] instructions@[j]).0.0 == COMPUTE_BUDGET_ID ==> {
                let a = instructions@[i].1.data@[0];
                let b = instructions@[j].1.data@[0];
                a != b && !(a == 0 && (b == 2 || b == 3)) && !(b == 0 && (a == 2 || a == 3))
            },
    ensures
        r is Ok,
{
    lemma_proper_is_accepted(
        instructions@,
        *feature_set,
        maybe_cluster_type,
        instructions@.len(),
    );
}

proof fn lemma_proper_is_accepted(
    xs: Seq<(Pubkey, CompiledInstruction)>,
    feature_set: FeatureSet,
    maybe_cluster_type: Option<ClusterType>,
    n: nat,
)
    requires
        n <= xs.len(),
        forall|i: int|
            0 <= i < xs.len() && (#[trigger] xs[i]).0.0 == COMPUTE_BUDGET_ID ==> is_proper(
                xs[i].1.data@,
                feature_set,
                maybe_cluster_type,
            ),
        forall|i: int, j: int|
            0 <= i < j < xs.len() && (#[trigger] xs[i]).0.0 == COMPUTE_BUDGET_ID && (
            #[trigger] xs[j]).0.0 == COMPUTE_BUDGET_ID ==> {
                let a = xs[i].1.data@[0];
                let b = xs[j].1.data@[0];
                a != b && !(a == 0 && (b == 2 || b == 3)) && !(b == 0 && (a == 2 || a == 3))
            },
    ensures
        requested(
            xs,
            feature_set,
            heap_frames_enabled(feature_set, maybe_cluster_type),
            n,
        ) is Ok,
    decreases n,
{
    if n > 0 {
        let heap_frames = heap_frames_enabled(feature_set, maybe_cluster_type);
        let m = (n - 1) as nat;
        lemma_proper_is_accepted(xs, feature_set, maybe_cluster_type, m);
        lemma_requested_is_asked(xs, feature_set, heap_frames, m);
        let r = requested(xs, feature_set, heap_frames, m)->Ok_0;
        let before = all_budget_data(xs).take(m as int);
        if xs[m as int].0.0 == COMPUTE_BUDGET_ID {
            let data = xs[m as int].1.data@;
            lemma_decoded_numbers(data);
            let limit = |d: Option<Seq<u8>>| limit_in(d);
            let price = |d: Option<Seq<u8>>| price_in(d);
            let heap = |d: Option<Seq<u8>>| heap_in(d);
            let size = |d: Option<Seq<u8>>| size_in(d);
            if r.updated_compute_unit_limit is Some {
                let d = choose|d: Option<Seq<u8>>| #[trigger]
                    before.contains(d) && limit(d) == r.updated_compute_unit_limit;
                let i = choose|i: int| 0 <= i < before.len() && before[i] == d;
                assert(xs[i].0.0 == COMPUTE_BUDGET_ID);
                assert(data[0] != 0 && data[0] != 2);
            }
            if r.updated_compute_unit_price is Some {
                let d = choose|d: Option<Seq<u8>>| #[trigger]
                    before.contains(d) && price(d) == r.updated_compute_unit_price;
                let i = choose|i: int| 0 <= i < before.len() && before[i] == d;
                assert(xs[i].0.0 == COMPUTE_BUDGET_ID);
                assert(data[0] != 0 && data[0] != 3);
            }
            if r.updated_heap_size is Some {
                let d = choose|d: Option<Seq<u8>>| #[trigger]
                    before.contains(d) && heap(d) == r.updated_heap_size;
                let i = choose|i: int| 0 <= i < before.len() && before[i] == d;
                assert(xs[i].0.0 == COMPUTE_BUDGET_ID);
                assert(data[0] != 1);
            }
            if r.updated_loaded_accounts_data_size_limit is Some {
                let d = choose|d: Option<Seq<u8>>| #[trigger]
                    before.contains(d) && size(d) == r.updated_loaded_accounts_data_size_limit;
                let i = choose|i: int| 0 <= i < before.len() && before[i] == d;
                assert(xs[i].0.0 == COMPUTE_BUDGET_ID);
                assert(data[0] != 4);
            }
        }
    }
}

/// An error tells its instruction: the first of those that are not proper, or that ask for what an
/// earlier one has asked for.
#[verifier::rlimit(60)]
pub proof fn law_an_error_tells_its_instruction(
    instructions: &Vec<(Pubkey, CompiledInstruction)>,
    feature_set: &FeatureSet,
    maybe_cluster_type: Option<ClusterType>,
    e: SanitizeError,
)
    requires
        call_ensures(
            process_compute_budget_instruction,
            (instructions, feature_set, maybe_cluster_type),
            Err(e),
        ),
    ensures
        exists|i: int|
            {
                &&& 0 <= i < instructions@.len()
                &&& (#[trigger] instructions@[i]).0.0 == COMPUTE_BUDGET_ID
                &&& limits(instructions@.take(i), *feature_set, maybe_cluster_type) is Ok
                &&& match e {
                    SanitizeError::InstructionError(index, _) => index == i % 256 && !is_proper(
                        instructions@[i].1.data@,
                        *feature_set,
                        maybe_cluster_type,
                    ),
                    SanitizeError::DuplicateInstruction(index) => index == i % 256 && exists|j: int|
                        {
                            &&& 0 <= j < i
                            &&& (#[trigger] instructions@[j]).0.0 == COMPUTE_BUDGET_ID
                            &&& ({
                                let a = instructions@[j].1.data@[0];
                                let b = instructions@[i].1.data@[0];
                                a == b || (a == 0 && (b == 2 || b == 3)) || (b == 0 && (a == 2 || a
                                    == 3))
                            })
                        },
                }
            },
{
    let xs = instructions@;
    let heap_frames = heap_frames_enabled(*feature_set, maybe_cluster_type);
    let n = lemma_first_refused(xs, *feature_set, heap_frames, xs.len());
    let i = n - 1;
    let first = xs.take(i);
    lemma_requested_of_first(first, xs.skip(i), *feature_set, heap_frames, i as nat);
    assert(first + xs.skip(i) =~= xs);
    let r = requested(xs, *feature_set, heap_frames, i as nat)->Ok_0;
    lemma_first_error(
        xs,
        *feature_set,
        heap_frames,
        n,
        xs.len(),
        requested(xs, *feature_set, heap_frames, n)->Err_0,
    );
    let data = xs[i].1.data@;
    lemma_decoded_numbers(data);
    lemma_requested_is_asked(xs, *feature_set, heap_frames, i as nat);
    let before = all_budget_data(xs).take(i);
    let limit = |d: Option<Seq<u8>>| limit_in(d);
    let price = |d: Option<Seq<u8>>| price_in(d);
    let heap = |d: Option<Seq<u8>>| heap_in(d);
    let size = |d: Option<Seq<u8>>| size_in(d);
    if e is DuplicateInstruction {
        let d = if (data[0] == 0 || data[0] == 2) && r.updated_compute_unit_limit is Some {
            choose|d: Option<Seq<u8>>| #[trigger]
                before.contains(d) && limit(d) == r.updated_compute_unit_limit
        } else if data[0] == 0 || data[0] == 3 {
            choose|d: Option<Seq<u8>>| #[trigger]
                before.contains(d) && price(d) == r.updated_compute_unit_price
        } else if data[0] == 1 {
            choose|d: Option<Seq<u8>>| #[trigger]
                before.contains(d) && heap(d) == r.updated_heap_size
        } else {
            choose|d: Option<Seq<u8>>| #[trigger]
                before.contains(d) && size(d) == r.updated_loaded_accounts_data_size_limit
        };
        let j = choose|j: int| 0 <= j < before.len() && before[j] == d;
        assert(xs[j].0.0 == COMPUTE_BUDGET_ID);
    }
    assert(xs[i].0.0 == COMPUTE_BUDGET_ID);
}

/// The first instruction that is refused.
proof fn lemma_first_refused(
    instructions: Seq<(Pubkey, CompiledInstruction)>,
    feature_set: FeatureSet,
    heap_frames: bool,
    n: nat,
) -> (r: nat)
    requires
        n <= instructions.len(),
        requested(instructions, feature_set, heap_frames, n) is Err,
    ensures
        0 < r <= n,
        requested(instructions, feature_set, heap_frames, r) is Err,
        requested(instructions, feature_set, heap_frames, (r - 1) as nat) is Ok,
    decreases n,
{
    if requested(instructions, feature_set, heap_frames, (n - 1) as nat) is Ok {
        n
    } else {
        lemma_first_refused(instructions, feature_set, heap_frames, (n - 1) as nat)
    }
}

} // verus!
