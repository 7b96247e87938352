use solana_validator::sigverify_stage::excess::discard_excess_packets;
use solana_validator::sigverify_stage::stats::{
    NinetiethPercentiles, Round, SigVerifierStats, MAX_SAMPLE,
};
use solana_validator::sigverify_stage::{
    bloom_expired, limit_round, on_error, report_due, DisabledSigVerifier, ErrorAction, Meta, Packet,
    PacketBatch, RecvTimeoutError, SigVerifyServiceError, StreamerError, MAX_SIGVERIFY_BATCH,
};

fn packet(addr: u128) -> Packet {
    Packet { meta: Meta { addr, discard: false } }
}

fn count_non_discard(packet_batches: &[PacketBatch]) -> usize {
    packet_batches
        .iter()
        .map(|batch| {
            batch
                .packets
                .iter()
                .map(|p| if p.meta.discard { 0 } else { 1 })
                .sum::<usize>()
        })
        .sum::<usize>()
}

#[test]
fn test_packet_discard() {
    let mut batch = PacketBatch { packets: vec![] };
    batch.packets.resize(10, packet(0));
    batch.packets[3].meta.addr = 0x0001_0001_0001_0001_0001_0001_0001_0001;
    let mut batches = vec![batch];
    let max = 3;
    discard_excess_packets(&mut batches, max);
    assert_eq!(count_non_discard(&batches), max);
    assert!(!batches[0].packets[0].meta.discard);
    assert!(!batches[0].packets[3].meta.discard);
}

#[test]
fn senders_take_turns_over_batches() {
    // One sender sends much, two send little.
    let mut batches = vec![
        PacketBatch { packets: vec![packet(1), packet(1), packet(1), packet(1)] },
        PacketBatch { packets: vec![packet(2), packet(1), packet(3)] },
        PacketBatch { packets: vec![packet(3), packet(2), packet(1)] },
    ];
    assert_eq!(discard_excess_packets(&mut batches, 6), 4);
    let discards: Vec<Vec<bool>> = batches
        .iter()
        .map(|batch| batch.packets.iter().map(|p| p.meta.discard).collect())
        .collect();
    assert_eq!(
        discards,
        vec![
            vec![false, false, true, true],
            vec![false, true, false],
            vec![false, false, true],
        ]
    );
}

#[test]
fn nothing_is_kept_where_nothing_may_be() {
    let mut batches = vec![PacketBatch { packets: vec![packet(1), packet(2)] }];
    assert_eq!(discard_excess_packets(&mut batches, 0), 2);
    assert_eq!(count_non_discard(&batches), 0);
    let mut all = vec![PacketBatch { packets: vec![packet(1), packet(1)] }];
    assert_eq!(discard_excess_packets(&mut all, 2), 0);
    assert_eq!(count_non_discard(&all), 2);
}

#[test]
fn what_was_discarded_before_stays_discarded() {
    let mut batches = vec![PacketBatch { packets: vec![packet(1), packet(2), packet(1)] }];
    batches[0].packets[0].meta.discard = true;
    assert_eq!(discard_excess_packets(&mut batches, 2), 1);
    assert!(batches[0].packets[0].meta.discard);
    assert!(!batches[0].packets[1].meta.discard);
    assert!(batches[0].packets[2].meta.discard);
}

#[test]
fn a_round_is_limited_only_when_it_is_too_large() {
    let mut batches = vec![PacketBatch { packets: vec![packet(1); MAX_SIGVERIFY_BATCH] }];
    assert_eq!(limit_round(&mut batches, MAX_SIGVERIFY_BATCH), 0);
    assert_eq!(count_non_discard(&batches), MAX_SIGVERIFY_BATCH);
    batches.push(PacketBatch { packets: vec![packet(2); 5] });
    assert_eq!(limit_round(&mut batches, MAX_SIGVERIFY_BATCH + 5), 5);
    assert_eq!(count_non_discard(&batches), MAX_SIGVERIFY_BATCH);
    assert_eq!(count_non_discard(&batches[1..]), 5);
}

#[test]
fn errors_stop_the_stage_or_not() {
    assert_eq!(on_error(SigVerifyServiceError::Send), ErrorAction::Stop);
    assert_eq!(
        on_error(SigVerifyServiceError::Streamer(StreamerError::RecvTimeout(
            RecvTimeoutError::Disconnected
        ))),
        ErrorAction::Stop
    );
    assert_eq!(
        on_error(SigVerifyServiceError::Streamer(StreamerError::RecvTimeout(
            RecvTimeoutError::Timeout
        ))),
        ErrorAction::Continue
    );
    assert_eq!(
        on_error(SigVerifyServiceError::Streamer(StreamerError::Other)),
        ErrorAction::Log
    );
    assert!(!bloom_expired(2_000, 0));
    assert!(bloom_expired(2_001, 0));
    assert!(!report_due(2));
    assert!(report_due(3));
    let _ = DisabledSigVerifier::default();
}

fn round(num_packets: usize) -> Round {
    Round {
        recv_time: 7,
        verify_time: 90,
        discard_time: 60,
        dedup_time: 30,
        batches_len: 2,
        num_packets,
        dedup_fail: 1,
        excess_fail: 4,
    }
}

fn no_percentiles() -> NinetiethPercentiles {
    NinetiethPercentiles {
        recv_batches_us: None,
        verify_batches_pp_us: None,
        discard_packets_pp_us: None,
        dedup_packets_pp_us: None,
        batches: None,
        packets: None,
    }
}

#[test]
fn rounds_add_up_in_a_report() {
    let mut stats = SigVerifierStats::default();
    let empty = stats.report(&no_percentiles());
    assert_eq!(empty.len(), 28);
    assert!(empty.iter().all(|field| field.value == 0));
    let first = round(10);
    assert!(stats.is_recordable(&first));
    stats.record(&first);
    stats.record(&Round { recv_time: 9, num_packets: 30, ..first });
    assert_eq!(stats.recv_batches_us_hist.percentile(90.0), Ok(9));
    let report = stats.report(&NinetiethPercentiles {
        recv_batches_us: stats.recv_batches_us_hist.percentile(90.0).ok(),
        ..no_percentiles()
    });
    let value = |name: &str| report.iter().find(|field| field.name == name).unwrap().value;
    assert_eq!(report[0].name, "recv_batches_us_90pct");
    assert_eq!(value("recv_batches_us_90pct"), 9);
    assert_eq!(value("recv_batches_us_min"), 7);
    assert_eq!(value("recv_batches_us_max"), 9);
    assert_eq!(value("recv_batches_us_mean"), 8);
    assert_eq!(value("verify_batches_pp_us_min"), 3);
    assert_eq!(value("verify_batches_pp_us_max"), 9);
    assert_eq!(value("discard_packets_pp_us_max"), 6);
    assert_eq!(value("dedup_packets_pp_us_min"), 1);
    assert_eq!(value("batches_mean"), 2);
    assert_eq!(value("packets_max"), 30);
    assert_eq!(value("total_batches"), 4);
    assert_eq!(value("total_packets"), 40);
    assert_eq!(value("total_dedup"), 2);
    assert_eq!(value("total_excess_fail"), 8);
    assert_eq!(report[27].name, "total_excess_fail");
}

#[test]
fn some_rounds_cannot_be_counted() {
    let stats = SigVerifierStats::default();
    assert!(!stats.is_recordable(&round(0)));
    assert!(!stats.is_recordable(&Round { recv_time: MAX_SAMPLE + 1, ..round(1) }));
    assert!(stats.is_recordable(&Round { recv_time: MAX_SAMPLE, ..round(1) }));
    assert!(!stats.is_recordable(&Round { verify_time: 2 * MAX_SAMPLE + 2, ..round(2) }));
    let full = SigVerifierStats { total_packets: usize::MAX, ..SigVerifierStats::default() };
    assert!(!full.is_recordable(&round(1)));
}

#[test]
fn large_samples_fall_into_buckets() {
    let mut stats = SigVerifierStats::default();
    stats.record(&Round { recv_time: MAX_SAMPLE, ..round(1) });
    stats.record(&Round { recv_time: 5_000_000, ..round(1) });
    let report = stats.report(&no_percentiles());
    assert_eq!(report[2].value, MAX_SAMPLE);
    let min = report[1].value as i64;
    assert!((min - 5_000_000).abs() < 10_000);
}
