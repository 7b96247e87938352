use solana_validator::compute_budget_processor::{
    process_compute_budget_instruction, sanitize_updated_heap_size,
    support_deprecated_requested_units, try_from_slice_unchecked, ClusterType, CompiledInstruction,
    ComputeBudgetInstruction, FeatureSet, SanitizeError, TransactionMeta, COMPUTE_BUDGET_ID,
};
use solana_validator::types::{InstructionError, Pubkey};

fn all_features() -> FeatureSet {
    FeatureSet {
        enable_request_heap_frame_ix: true,
        remove_deprecated_request_unit_ix: true,
        add_set_tx_loaded_accounts_data_size_instruction: true,
    }
}

fn no_features() -> FeatureSet {
    FeatureSet {
        enable_request_heap_frame_ix: false,
        remove_deprecated_request_unit_ix: false,
        add_set_tx_loaded_accounts_data_size_instruction: false,
    }
}

fn to(program: [u8; 32], data: &[u8]) -> (Pubkey, CompiledInstruction) {
    (
        Pubkey(program),
        CompiledInstruction {
            program_id_index: 0,
            accounts: vec![],
            data: data.to_vec(),
        },
    )
}

fn budget(tag: u8, value: &[u8]) -> (Pubkey, CompiledInstruction) {
    let mut data = vec![tag];
    data.extend_from_slice(value);
    to(COMPUTE_BUDGET_ID, &data)
}

fn other() -> (Pubkey, CompiledInstruction) {
    to([7; 32], &[1, 2, 3])
}

fn defaults() -> TransactionMeta {
    TransactionMeta {
        updated_heap_bytes: 32 * 1024,
        compute_unit_limit: 0,
        compute_unit_price: 0,
        accounts_loaded_bytes: 64 * 1024 * 1024,
    }
}

#[test]
fn a_transaction_that_asks_for_nothing_gets_the_defaults() {
    assert_eq!(
        process_compute_budget_instruction(&vec![], &all_features(), None),
        Ok(defaults())
    );
    assert_eq!(
        process_compute_budget_instruction(&vec![other(), other()], &all_features(), None),
        Ok(TransactionMeta { compute_unit_limit: 400_000, ..defaults() })
    );
    let many: Vec<(Pubkey, CompiledInstruction)> = (0..8).map(|_| other()).collect();
    assert_eq!(
        process_compute_budget_instruction(&many, &all_features(), None),
        Ok(TransactionMeta { compute_unit_limit: 1_400_000, ..defaults() })
    );
}

#[test]
fn what_is_asked_for_is_granted_up_to_the_limits() {
    let instructions = vec![
        budget(1, &(64 * 1024u32).to_le_bytes()),
        budget(2, &2_000_000u32.to_le_bytes()),
        budget(3, &77u64.to_le_bytes()),
        budget(4, &(65 * 1024 * 1024u32).to_le_bytes()),
        other(),
    ];
    assert_eq!(
        process_compute_budget_instruction(&instructions, &all_features(), None),
        Ok(TransactionMeta {
            updated_heap_bytes: 64 * 1024,
            compute_unit_limit: 1_400_000,
            compute_unit_price: 77,
            accounts_loaded_bytes: 64 * 1024 * 1024,
        })
    );
}

#[test]
fn heap_frames_depend_on_the_feature_and_the_cluster() {
    let instructions = vec![budget(1, &(40 * 1024u32).to_le_bytes()), budget(3, &1u64.to_le_bytes())];
    let refused = Err(SanitizeError::InstructionError(
        0,
        InstructionError::InvalidInstructionData,
    ));
    assert_eq!(
        process_compute_budget_instruction(&instructions, &no_features(), None),
        refused
    );
    assert_eq!(
        process_compute_budget_instruction(
            &instructions,
            &no_features(),
            Some(ClusterType::MainnetBeta)
        ),
        refused
    );
    assert_eq!(
        process_compute_budget_instruction(&instructions, &no_features(), Some(ClusterType::Devnet))
            .map(|meta| (meta.updated_heap_bytes, meta.compute_unit_price)),
        Ok((40 * 1024, 1))
    );
    assert!(sanitize_updated_heap_size(32 * 1024, true));
    assert!(sanitize_updated_heap_size(256 * 1024, true));
    assert!(!sanitize_updated_heap_size(32 * 1024, false));
    assert!(!sanitize_updated_heap_size(31 * 1024, true));
    assert!(!sanitize_updated_heap_size(257 * 1024, true));
    assert!(!sanitize_updated_heap_size(32 * 1024 + 1, true));
}

#[test]
fn each_kind_of_instruction_may_come_once() {
    for (tag, value) in [
        (1, (40 * 1024u32).to_le_bytes().to_vec()),
        (2, 5u32.to_le_bytes().to_vec()),
        (3, 5u64.to_le_bytes().to_vec()),
        (4, 5u32.to_le_bytes().to_vec()),
    ] {
        let instructions = vec![other(), budget(tag, &value), budget(tag, &value)];
        assert_eq!(
            process_compute_budget_instruction(&instructions, &all_features(), None),
            Err(SanitizeError::DuplicateInstruction(2))
        );
    }
}

#[test]
fn deprecated_requests_set_limit_and_price_while_supported() {
    let mut value = 1_000u32.to_le_bytes().to_vec();
    value.extend_from_slice(&3u32.to_le_bytes());
    let request = budget(0, &value);
    assert_eq!(
        process_compute_budget_instruction(&vec![request.clone()], &no_features(), None)
            .map(|meta| (meta.compute_unit_limit, meta.compute_unit_price)),
        Ok((1_000, 3_000))
    );
    assert_eq!(
        process_compute_budget_instruction(&vec![request.clone()], &all_features(), None),
        Err(SanitizeError::InstructionError(0, InstructionError::InvalidInstructionData))
    );
    let price = budget(3, &5u64.to_le_bytes());
    assert_eq!(
        process_compute_budget_instruction(&vec![price, request], &no_features(), None),
        Err(SanitizeError::DuplicateInstruction(1))
    );
    assert_eq!(support_deprecated_requested_units(3, 1_000), Some(3_000));
    assert_eq!(support_deprecated_requested_units(1, 3), Some(333_333));
    assert_eq!(support_deprecated_requested_units(1, 0), None);
    assert_eq!(
        support_deprecated_requested_units(u32::MAX, 1),
        Some(u32::MAX as u64 * 1_000_000)
    );
}

#[test]
fn data_that_is_no_instruction_is_refused() {
    for data in [vec![], vec![5, 0, 0, 0, 0], vec![2, 0, 0, 0], vec![3, 0, 0, 0, 0]] {
        assert_eq!(try_from_slice_unchecked(&data), None);
        let instructions = vec![to(COMPUTE_BUDGET_ID, &data)];
        assert_eq!(
            process_compute_budget_instruction(&instructions, &all_features(), None),
            Err(SanitizeError::InstructionError(0, InstructionError::InvalidInstructionData))
        );
    }
    let refused = vec![budget(4, &5u32.to_le_bytes())];
    assert_eq!(
        process_compute_budget_instruction(&refused, &no_features(), None),
        Err(SanitizeError::InstructionError(0, InstructionError::InvalidInstructionData))
    );
    assert_eq!(
        try_from_slice_unchecked(&[2, 1, 2, 0, 0, 99]),
        Some(ComputeBudgetInstruction::SetComputeUnitLimit(513))
    );
}

#[test]
fn accepted_orders_give_the_same_limits() {
    let heap = || budget(1, &(64 * 1024u32).to_le_bytes());
    let units = || budget(2, &300u32.to_le_bytes());
    let price = || budget(3, &77u64.to_le_bytes());
    let expected = Ok(TransactionMeta {
        updated_heap_bytes: 64 * 1024,
        compute_unit_limit: 300,
        compute_unit_price: 77,
        ..defaults()
    });
    let orders = vec![
        vec![heap(), units(), other(), price()],
        vec![price(), other(), units(), heap()],
        vec![other(), price(), heap(), units()],
    ];
    for order in &orders {
        assert_eq!(process_compute_budget_instruction(order, &all_features(), None), expected);
    }
    let mut elsewhere = to([9; 32], &[2, 1, 0, 0, 0]);
    elsewhere.1.accounts = vec![4];
    let other_data = vec![elsewhere, price(), heap(), units()];
    assert_eq!(process_compute_budget_instruction(&other_data, &all_features(), None), expected);
    // A fee over no units sets no price, so a price can follow it, but not come before it.
    let no_units = || budget(0, &[0, 0, 0, 0, 5, 0, 0, 0]);
    assert_eq!(
        process_compute_budget_instruction(&vec![no_units(), price()], &no_features(), None),
        Ok(TransactionMeta { compute_unit_price: 77, ..defaults() })
    );
    assert_eq!(
        process_compute_budget_instruction(&vec![price(), no_units()], &no_features(), None),
        Err(SanitizeError::DuplicateInstruction(1))
    );
}

#[test]
fn the_first_error_decides() {
    let invalid = || budget(9, &[]);
    let units = || budget(2, &300u32.to_le_bytes());
    let expected = Err(SanitizeError::InstructionError(
        1,
        InstructionError::InvalidInstructionData,
    ));
    let first = vec![units(), invalid()];
    assert_eq!(process_compute_budget_instruction(&first, &all_features(), None), expected);
    let more = vec![units(), invalid(), units(), invalid(), other()];
    assert_eq!(process_compute_budget_instruction(&more, &all_features(), None), expected);
}
