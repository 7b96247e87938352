use solana_validator::transaction_scheduler::{
    BankPacketProcessingDecision, BankingProcessingInstruction, ScheduledPacketBatchId,
    ScheduledPacketBatchIdGenerator,
};

#[test]
fn ids_count_up_and_begin_again() {
    let mut generator = ScheduledPacketBatchIdGenerator::default();
    assert_eq!(generator.generate_id(), ScheduledPacketBatchId::new(0));
    assert_eq!(generator.generate_id(), ScheduledPacketBatchId::new(1));
    let mut last = ScheduledPacketBatchIdGenerator { next_id: u64::MAX };
    assert_eq!(last.generate_id(), ScheduledPacketBatchId::new(u64::MAX));
    assert_eq!(last.generate_id(), ScheduledPacketBatchId::new(0));
}

#[test]
fn decisions_become_instructions() {
    for (decision, instruction) in [
        (
            BankPacketProcessingDecision::Consume(9),
            BankingProcessingInstruction::Consume,
        ),
        (
            BankPacketProcessingDecision::Forward,
            BankingProcessingInstruction::Forward,
        ),
        (
            BankPacketProcessingDecision::ForwardAndHold,
            BankingProcessingInstruction::Forward,
        ),
    ] {
        assert_eq!(BankingProcessingInstruction::from(decision), instruction);
    }
}
