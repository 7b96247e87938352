use solana_validator::blocktree_db::columns::{
    Column, ColumnName, DeadSlots, ErasureMeta, Index, Orphans, Root, ShredCode, ShredData, SlotMeta,
};
use solana_validator::blocktree_db::{
    columns, delete_slot, delete_start, get_cf_options, get_db_options, iter_from, opened_columns,
    BlocktreeError, IteratorDirection, IteratorMode, WriteBatch,
};

fn slot_round_trip<C: Column<Index = u64>>(name: &str) {
    assert_eq!(C::id().name(), name);
    for slot in [0, 1, 255, 256, 0x0102_0304_0506_0708, u64::MAX] {
        let key = C::key(slot);
        assert_eq!(key, slot.to_be_bytes().to_vec());
        assert_eq!(C::index(&key), slot);
        assert_eq!(C::slot(slot), slot);
        assert_eq!(C::as_index(slot), slot);
    }
    assert!(C::key(255) < C::key(256));
    let key: Vec<u8> = (3..11).collect();
    assert_eq!(C::key(C::index(&key)), key);
}

fn pair_round_trip<C: Column<Index = (u64, u64)>>(name: &str) {
    assert_eq!(C::id().name(), name);
    for index in [(0, 0), (1, 2), (u64::MAX, 5), (0x0102_0304_0506_0708, u64::MAX)] {
        let key = C::key(index);
        let mut expected = index.0.to_be_bytes().to_vec();
        expected.extend_from_slice(&index.1.to_be_bytes());
        assert_eq!(key, expected);
        assert_eq!(C::index(&key), index);
        assert_eq!(C::slot(index), index.0);
        assert_eq!(C::as_index(index.0), (index.0, 0));
    }
    assert!(C::key((255, u64::MAX)) < C::key((256, 0)));
    assert!(C::key((256, 255)) < C::key((256, 256)));
    let key: Vec<u8> = (3..19).collect();
    assert_eq!(C::key(C::index(&key)), key);
}

#[test]
fn keys_tell_their_index() {
    slot_round_trip::<SlotMeta>("meta");
    slot_round_trip::<DeadSlots>("dead_slots");
    slot_round_trip::<Orphans>("orphans");
    slot_round_trip::<Root>("root");
    slot_round_trip::<Index>("index");
    pair_round_trip::<ErasureMeta>("erasure_meta");
    pair_round_trip::<ShredData>("data_shred");
    pair_round_trip::<ShredCode>("code_shred");
}

#[test]
fn columns_are_listed() {
    let names: Vec<&str> = columns().into_iter().map(|column| column.name()).collect();
    assert_eq!(
        names,
        vec![
            "erasure_meta",
            "dead_slots",
            "index",
            "orphans",
            "root",
            "meta",
            "data_shred",
            "code_shred"
        ]
    );
    let mut opened: Vec<&str> = opened_columns().into_iter().map(|column| column.name()).collect();
    assert_eq!(opened[0], "meta");
    opened.sort();
    let mut sorted = names.clone();
    sorted.sort();
    assert_eq!(opened, sorted);
}

#[test]
fn large_columns_buffer_more() {
    let large = get_cf_options(ColumnName::DataShred);
    assert_eq!(large.max_write_buffer_number, Some(8));
    assert_eq!(large.write_buffer_size, 268_435_456);
    assert_eq!(large.target_file_size_base, 26_843_545);
    assert_eq!(large.level_zero_file_num_compaction_trigger, None);
    for name in [ColumnName::CodeShred, ColumnName::Index, ColumnName::ErasureMeta] {
        assert_eq!(get_cf_options(name), large);
    }
    let small = get_cf_options(ColumnName::Root);
    assert_eq!(small.max_write_buffer_number, None);
    assert_eq!(small.write_buffer_size, 65_536);
    assert_eq!(small.level_zero_file_num_compaction_trigger, Some(1));
    for name in [ColumnName::Meta, ColumnName::DeadSlots, ColumnName::Orphans] {
        assert_eq!(get_cf_options(name), small);
    }
    let db = get_db_options();
    assert!(db.create_if_missing && db.create_missing_column_families);
    assert_eq!((db.parallelism, db.max_background_flushes), (8, 4));
    assert_eq!(db.max_background_compactions, 4);
}

#[test]
fn slots_are_deleted_up_to_the_last() {
    let indexes = vec![(3, 0), (3, 1), (4, 0), (6, 0)];
    let mut batch = WriteBatch::new();
    assert!(!delete_slot::<ShredData>(&mut batch, &indexes, Some(4)));
    let keys: Vec<Vec<u8>> = batch.ops.iter().map(|op| op.key.clone()).collect();
    assert_eq!(
        keys,
        vec![ShredData::key((3, 0)), ShredData::key((3, 1)), ShredData::key((4, 0))]
    );
    assert!(batch
        .ops
        .iter()
        .all(|op| op.column == ColumnName::DataShred && op.value.is_none()));
    let mut all = WriteBatch::new();
    assert!(delete_slot::<ShredData>(&mut all, &indexes, None));
    assert_eq!(all.ops.len(), 4);
    assert!(delete_slot::<ShredData>(&mut all, &indexes, Some(6)));
    assert!(delete_slot::<Root>(&mut all, &vec![], Some(6)));
}

#[test]
fn a_batch_keeps_its_order() {
    let mut batch = WriteBatch::new();
    batch.put_bytes::<Root>(7, vec![1, 2]);
    batch.delete::<Root>(7);
    assert_eq!(batch.ops[0].value, Some(vec![1, 2]));
    assert_eq!(batch.ops[0].key, Root::key(7));
    assert_eq!(batch.ops[1].value, None);
    assert_eq!(batch.ops[1].column, ColumnName::Root);
}

#[test]
fn walks_begin_where_they_are_told() {
    assert!(matches!(delete_start::<ShredData>(None), IteratorMode::Start));
    assert!(matches!(
        delete_start::<ShredData>(Some(9)),
        IteratorMode::From((9, 0), IteratorDirection::Forward)
    ));
    match iter_from::<ShredCode>(IteratorMode::From((1, 2), IteratorDirection::Reverse)) {
        IteratorMode::From(key, direction) => {
            assert_eq!(key, ShredCode::key((1, 2)));
            assert_eq!(direction, IteratorDirection::Reverse);
        }
        _ => panic!("not from a key"),
    }
    assert!(matches!(iter_from::<Root>(IteratorMode::Start), IteratorMode::Start));
    assert!(matches!(iter_from::<Root>(IteratorMode::End), IteratorMode::End));
    assert_eq!(BlocktreeError::SlotNotRooted.message(), "blocktree error");
}
