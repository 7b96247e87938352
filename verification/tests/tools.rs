use solana_validator::bank_metrics::{bank_metrics, Clock, MetricValue};
use solana_validator::bpf_tracer_plugin_interface::BpfTracerPluginError;
use solana_validator::fee_payer::{fee_payer_arg, FEE_PAYER_VALUE_NAME};
use solana_validator::network_tool::{frame_log, map_address, unique_latest_logs, LogLine};
use solana_validator::programs::{spl_program_ids, spl_programs, ProgramElf};
use solana_validator::rpc_slot_services::{
    waits, Received, RpcCompletedSlotsService, RpcOptimisticDistributionSlotService, ServiceStep,
    SlotUpdate,
};
use solana_validator::text::{push_decimal, push_decimal_u128, push_hexadecimal};
use solana_validator::types::Pubkey;
use solana_validator::zk_keygen::{
    choose_outfile, elgamal_message, generate_seed, is_seed_phrase, output_to, shown,
    symmetric_message, unable_to_write_message, wrote_message, KeyType, Language, Output,
};

fn line(a: &str, b: &str, a_to_b: &str, b_to_a: &str) -> LogLine {
    LogLine {
        a: a.to_string(),
        b: b.to_string(),
        a_to_b: a_to_b.to_string(),
        b_to_a: b_to_a.to_string(),
    }
}

#[test]
fn a_log_is_framed_up_to_its_last_complete_line() {
    assert_eq!(frame_log("{a},{b},{c"), Some("[{a},{b}]".to_string()));
    assert_eq!(frame_log("{\u{e9}},"), Some("[{\u{e9}}]".to_string()));
    assert_eq!(frame_log("}"), Some("[}]".to_string()));
    assert_eq!(frame_log("{a"), None);
    assert_eq!(frame_log(""), None);
}

#[test]
fn the_latest_line_of_each_pair_of_hosts_counts() {
    let lines = vec![
        line("x", "y", "1B", "1B"),
        line("y", "x", "2B", "2B"),
        line("x", "y", "3B", "3B"),
        line("x", "z", "4B", "4B"),
    ];
    let latest: Vec<(String, String, String)> = unique_latest_logs(lines)
        .into_iter()
        .map(|l| (l.a, l.b, l.a_to_b))
        .collect();
    let expected = [("x", "z", "4B"), ("x", "y", "3B"), ("y", "x", "2B")];
    assert_eq!(
        latest,
        expected
            .iter()
            .map(|(a, b, n)| (a.to_string(), b.to_string(), n.to_string()))
            .collect::<Vec<_>>()
    );
    assert!(unique_latest_logs(vec![]).is_empty());
}

#[test]
fn lines_are_shown_in_bytes() {
    assert_eq!(
        line("10.0.0.1", "b", "123KiB", "50.84 MB").show(),
        Some("{ \"10.0.0.1\", \"b\", 125952, 50840000 }".to_string())
    );
    assert_eq!(line("a", "b", "0", "8 k").show(), Some("{ \"a\", \"b\", 0, 8000 }".to_string()));
    assert_eq!(line("a", "b", "many", "1B").show(), None);
    assert_eq!(line("a", "b", "1B", "").show(), None);
}

#[test]
fn private_addresses_become_public() {
    let mapped = map_address(line("10.0.0.1:80", "x10.0.0.110.0.0.1", "1B", "2B"), "10.0.0.1", "8.8.8.8");
    assert_eq!(mapped.a, "8.8.8.8:80");
    assert_eq!(mapped.b, "x8.8.8.88.8.8.8");
    assert_eq!((mapped.a_to_b.as_str(), mapped.b_to_a.as_str()), ("1B", "2B"));
    let overlapping = map_address(line("aaa", "none", "1B", "1B"), "aa", "b");
    assert_eq!(overlapping.a, "ba");
    assert_eq!(overlapping.b, "none");
    let everywhere = map_address(line("ab\u{e9}", "", "1B", "1B"), "", "-");
    assert_eq!(everywhere.a, "-a-b-\u{e9}-");
    assert_eq!(everywhere.b, "-");
}

#[test]
fn keys_have_files() {
    assert_eq!(KeyType::parse(&"elgamal".to_string()), Some(KeyType::ElGamal));
    assert_eq!(KeyType::parse(&"symmetric".to_string()), Some(KeyType::Symmetric));
    assert_eq!(KeyType::parse(&"rsa".to_string()), None);
    assert_eq!(KeyType::ElGamal.default_file_name(), "elgamal.json");
    assert_eq!(KeyType::Symmetric.default_file_name(), "symmetric.json");
    assert_eq!(
        choose_outfile(None, false, "/home/me", KeyType::ElGamal),
        Some("/home/me/.config/solana/elgamal.json".to_string())
    );
    assert_eq!(
        choose_outfile(None, false, "/", KeyType::Symmetric),
        Some("/.config/solana/symmetric.json".to_string())
    );
    assert_eq!(choose_outfile(None, true, "/home/me", KeyType::ElGamal), None);
    assert_eq!(
        choose_outfile(Some("key".to_string()), false, "/home/me", KeyType::ElGamal),
        Some("key".to_string())
    );
    assert_eq!(output_to(&None), Output::Nowhere);
    assert_eq!(output_to(&Some("-".to_string())), Output::Stdout);
    assert_eq!(output_to(&Some("key".to_string())), Output::File);
}

#[test]
fn keys_are_talked_about() {
    assert_eq!(KeyType::ElGamal.announcement(), "Generating a new ElGamal keypair");
    assert_eq!(
        KeyType::Symmetric.announcement(),
        "Generating a new symmetric encryption key"
    );
    assert_eq!(
        wrote_message(KeyType::Symmetric, "f.json"),
        "Wrote new symmetric key to f.json"
    );
    assert_eq!(
        unable_to_write_message("f.json", "full"),
        "Unable to write f.json: full"
    );
    assert_eq!(
        elgamal_message("one two", "PUB", " and your BIP39 passphrase"),
        "=======\npubkey: PUB\n=======\nSave this seed phrase and your BIP39 passphrase to \
         recover your new ElGamal keypair:\none two\n======="
    );
    assert_eq!(
        symmetric_message("\u{e9}", ""),
        "==\nSave this seed phrase to recover your new symmetric key:\n\u{e9}\n=="
    );
}

#[test]
fn seeds_follow_from_phrases() {
    let languages = [
        (Language::English, bip39::Language::English),
        (Language::ChineseSimplified, bip39::Language::ChineseSimplified),
        (Language::ChineseTraditional, bip39::Language::ChineseTraditional),
        (Language::French, bip39::Language::French),
        (Language::Italian, bip39::Language::Italian),
        (Language::Japanese, bip39::Language::Japanese),
        (Language::Korean, bip39::Language::Korean),
        (Language::Spanish, bip39::Language::Spanish),
    ];
    for (language, of_phrase) in languages {
        for word_count in [12, 15, 18, 21, 24] {
            let generated = generate_seed(word_count, language, "secret").unwrap();
            assert_eq!(generated.phrase.split(' ').count(), word_count);
            assert_eq!(generated.seed.len(), 64);
            assert!(is_seed_phrase(&generated.phrase, language));
            let mnemonic = bip39::Mnemonic::from_phrase(&generated.phrase, of_phrase).unwrap();
            assert_eq!(bip39::Seed::new(&mnemonic, "secret").as_bytes(), &generated.seed[..]);
        }
    }
    assert_eq!(
        generate_seed(13, Language::English, "").err(),
        Some("invalid number of words in phrase: 13".to_string())
    );
    assert_eq!(
        bip39::MnemonicType::for_word_count(13).err().unwrap().to_string(),
        "invalid number of words in phrase: 13"
    );
}

#[test]
fn a_seed_phrase_is_of_its_language() {
    let phrase = "park remain person kitchen mule spell knee armed position rail grid ankle";
    assert!(is_seed_phrase(phrase, Language::English));
    assert!(!is_seed_phrase(phrase, Language::French));
    assert!(!is_seed_phrase("park remain person", Language::English));
    assert!(!is_seed_phrase("", Language::English));
}

#[test]
fn silence_shows_nothing() {
    assert_eq!(shown(true, "phrase".to_string()), None);
    assert_eq!(shown(false, "phrase".to_string()), Some("phrase".to_string()));
}

#[test]
fn services_tell_of_slots() {
    assert!(waits(false));
    assert!(!waits(true));
    assert!(matches!(
        RpcCompletedSlotsService::step(Received::Timeout),
        ServiceStep::Wait
    ));
    assert!(matches!(
        RpcCompletedSlotsService::step(Received::Disconnected),
        ServiceStep::Stop
    ));
    match RpcCompletedSlotsService::step(Received::News(vec![4, 5])) {
        ServiceStep::Notify(slots) => assert_eq!(slots, vec![4, 5]),
        _ => panic!("no news"),
    }
    assert_eq!(
        RpcCompletedSlotsService::update(4, 99),
        SlotUpdate::Completed { slot: 4, timestamp: 99 }
    );
    assert!(matches!(
        RpcOptimisticDistributionSlotService::step(Received::News(6)),
        ServiceStep::Notify(6)
    ));
    assert_eq!(
        RpcOptimisticDistributionSlotService::update(6, 98),
        SlotUpdate::OptimisticDistribution { slot: 6, timestamp: 98 }
    );
}

#[test]
fn a_bank_has_five_metrics() {
    let clock = Clock { slot: 1, epoch: 2, unix_timestamp: -3 };
    let metrics = bank_metrics(&clock, 4, 5);
    let shown: Vec<(&str, MetricValue)> = metrics.iter().map(|m| (m.name, m.metric)).collect();
    assert_eq!(
        shown,
        vec![
            ("solana_block_slot", MetricValue::Unsigned(1)),
            ("solana_block_epoch", MetricValue::Unsigned(2)),
            ("solana_block_successful_transaction_count", MetricValue::Unsigned(4)),
            ("solana_block_error_transaction_count", MetricValue::Unsigned(5)),
            ("solana_block_timestamp_seconds", MetricValue::Signed(-3)),
        ]
    );
    assert!(metrics.iter().all(|m| m.type_ == "gauge"));
    assert_eq!(metrics[4].help, "The block's timestamp");
}

fn base58(text: &str) -> Vec<u8> {
    let alphabet = "123456789ABCDEFGHJKLMNPQRSTUVWXYZabcdefghijkmnopqrstuvwxyz";
    let mut bytes = vec![0u8; 32];
    for c in text.chars() {
        let mut carry = alphabet.find(c).unwrap();
        for byte in bytes.iter_mut().rev() {
            carry += *byte as usize * 58;
            *byte = (carry % 256) as u8;
            carry /= 256;
        }
    }
    bytes
}

#[test]
fn programs_have_their_addresses() {
    let ids = spl_program_ids();
    for (id, text) in ids.iter().zip([
        "TokenkegQfeZyiNwAJbNbGKPFXCWuBvf9Ss623VQ5DA",
        "Memo1UhkJRfHyvLMcVucJwxXeuD728EqVDDwQDxFMNo",
        "MemoSq4gqABAXKb96qnH8TysNcWxMyWCqXgDLGmfcHr",
        "ATokenGPvbdGVxr1b2hvZbsiqW5xWH25efTNsLJA8knL",
    ]) {
        assert_eq!(id.0.to_vec(), base58(text));
    }
    let programs = [
        ProgramElf { elf: vec![1], minimum_balance: 900 },
        ProgramElf { elf: vec![2, 2], minimum_balance: 1 },
        ProgramElf { elf: vec![3], minimum_balance: 0 },
        ProgramElf { elf: vec![], minimum_balance: 5 },
    ];
    let accounts = spl_programs(&programs, &Pubkey([6; 32]));
    let lamports: Vec<u64> = accounts.iter().map(|(_, account)| account.lamports).collect();
    assert_eq!(lamports, vec![1, 1, 0, 1]);
    assert_eq!(accounts[1].0, ids[1]);
    assert_eq!(accounts[1].1.data, vec![2, 2]);
    assert!(accounts.iter().all(|(_, account)| account.executable
        && account.owner == Pubkey([6; 32])
        && account.rent_epoch == 0));
}

#[test]
fn the_fee_payer_is_an_argument() {
    let arg = fee_payer_arg();
    assert_eq!((arg.name, arg.long), ("fee_payer", "fee-payer"));
    assert!(arg.help.starts_with("Specify the fee-payer account. This may be"));
    assert!(arg.help.ends_with("is also passed. Defaults to the client keypair."));
    assert_eq!(FEE_PAYER_VALUE_NAME, "KEYPAIR");
}

#[test]
fn plugin_errors_are_shown() {
    assert_eq!(
        BpfTracerPluginError::ConfigFileOpenError("gone".to_string()).message(),
        "Error opening config file. Error detail: (gone)."
    );
    assert_eq!(
        BpfTracerPluginError::ConfigFileReadError { msg: "bad".to_string() }.message(),
        "Error reading config file. Error message: (bad)"
    );
    assert_eq!(
        BpfTracerPluginError::Custom("mine".to_string()).message(),
        "Plugin-defined custom error. Error message: (mine)"
    );
}

#[test]
fn numbers_are_written_out() {
    let mut text = String::new();
    push_decimal(&mut text, 0);
    text.push(' ');
    push_decimal(&mut text, u64::MAX);
    text.push(' ');
    push_decimal_u128(&mut text, u128::MAX);
    text.push(' ');
    push_hexadecimal(&mut text, 0xdead_beef, 6);
    assert_eq!(
        text,
        "0 18446744073709551615 340282366920938463463374607431768211455 adbeef"
    );
}
