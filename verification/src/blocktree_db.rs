//! How the ledger is laid out in its database.

pub mod columns;

use crate::blocktree_db::columns::{Column, ColumnName};
use crate::types::Slot;
use vstd::prelude::*;

verus! {

/// How many threads the database may use. A good value is the number of cores on the machine.
pub const TOTAL_THREADS: i32 = 8;

/// 256 MB.
pub const MAX_WRITE_BUFFER_SIZE: u64 = 256 * 1024 * 1024;

/// 64 KB.
pub const MIN_WRITE_BUFFER_SIZE: u64 = 64 * 1024;

/// What can go wrong with the ledger. Errors from below are kept as text.
#[derive(Debug)]
pub enum BlocktreeError {
    ShredForIndexExists,
    InvalidShredData(String),
    RocksDb(String),
    SlotNotRooted,
    IO(String),
    Serialize(String),
}

impl BlocktreeError {
    /// The error as it is shown.
    pub fn message(&self) -> (r: &'static str)
        ensures
            r@ == "blocktree error"@,
    {
        "blocktree error"
    }
}

/// From where a column is walked.
#[derive(Clone, Copy, Debug)]
pub enum IteratorMode<Index> {
    Start,
    End,
    From(Index, IteratorDirection),
}

#[derive(Clone, Copy, Debug, PartialEq, Eq, Structural)]
pub enum IteratorDirection {
    Forward,
    Reverse,
}

/// How the database keeps a column. What is `None` keeps the database's default.
#[derive(Clone, Copy, Debug, PartialEq, Eq, Structural)]
pub struct CfOptions {
    pub max_write_buffer_number: Option<i32>,
    pub write_buffer_size: u64,
    pub target_file_size_base: u64,
    pub max_bytes_for_level_base: u64,
    pub level_zero_file_num_compaction_trigger: Option<i32>,
}

/// How the database works as a whole.
#[derive(Clone, Copy, Debug, PartialEq, Eq, Structural)]
pub struct DbOptions {
    pub create_if_missing: bool,
    pub create_missing_column_families: bool,
    pub parallelism: i32,
    pub max_background_flushes: i32,
    pub max_background_compactions: i32,
}

/// Columns that hold much.
pub open spec fn is_large(name: ColumnName) -> bool {
    name == ColumnName::CodeShred || name == ColumnName::DataShred || name == ColumnName::Index
        || name == ColumnName::ErasureMeta
}

/// Large columns buffer much, up to eight buffers of 256 MB. Small ones flush early, which makes
/// for more but smaller logs.
pub fn get_cf_options(name: ColumnName) -> (r: CfOptions)
    ensures
        is_large(name) ==> r == (CfOptions {
            max_write_buffer_number: Some(8),
            write_buffer_size: MAX_WRITE_BUFFER_SIZE,
            target_file_size_base: MAX_WRITE_BUFFER_SIZE / 10,
            max_bytes_for_level_base: MAX_WRITE_BUFFER_SIZE,
            level_zero_file_num_compaction_trigger: None,
        }),
        !is_large(name) ==> r == (CfOptions {
            max_write_buffer_number: None,
            write_buffer_size: MIN_WRITE_BUFFER_SIZE,
            target_file_size_base: MIN_WRITE_BUFFER_SIZE,
            max_bytes_for_level_base: MIN_WRITE_BUFFER_SIZE,
            level_zero_file_num_compaction_trigger: Some(1),
        }),
{
    match name {
        ColumnName::CodeShred | ColumnName::DataShred | ColumnName::Index
        | ColumnName::ErasureMeta => CfOptions {
            max_write_buffer_number: Some(8),
            write_buffer_size: MAX_WRITE_BUFFER_SIZE,
            target_file_size_base: MAX_WRITE_BUFFER_SIZE / 10,
            max_bytes_for_level_base: MAX_WRITE_BUFFER_SIZE,
            level_zero_file_num_compaction_trigger: None,
        },
        _ => CfOptions {
            max_write_buffer_number: None,
            write_buffer_size: MIN_WRITE_BUFFER_SIZE,
            target_file_size_base: MIN_WRITE_BUFFER_SIZE,
            max_bytes_for_level_base: MIN_WRITE_BUFFER_SIZE,
            level_zero_file_num_compaction_trigger: Some(1),
        },
    }
}

pub fn get_db_options() -> (r: DbOptions)
    ensures
        r == (DbOptions {
            create_if_missing: true,
            create_missing_column_families: true,
            parallelism: TOTAL_THREADS,
            max_background_flushes: 4,
            max_background_compactions: 4,
        }),
{
    DbOptions {
        create_if_missing: true,
        create_missing_column_families: true,
        parallelism: TOTAL_THREADS,
        max_background_flushes: 4,
        max_background_compactions: 4,
    }
}

/// The columns in the order in which they are opened.
pub fn opened_columns() -> (r: Vec<ColumnName>)
    ensures
        r@ == seq![
            ColumnName::Meta,
            ColumnName::DeadSlots,
            ColumnName::ErasureMeta,
            ColumnName::Orphans,
            ColumnName::Root,
            ColumnName::Index,
            ColumnName::DataShred,
            ColumnName::CodeShred,
        ],
{
    let r: Vec<ColumnName> = vec![
        ColumnName::Meta,
        ColumnName::DeadSlots,
        ColumnName::ErasureMeta,
        ColumnName::Orphans,
        ColumnName::Root,
        ColumnName::Index,
        ColumnName::DataShred,
        ColumnName::CodeShred,
    ];
    assert(r@ =~= seq![
        ColumnName::Meta,
        ColumnName::DeadSlots,
        ColumnName::ErasureMeta,
        ColumnName::Orphans,
        ColumnName::Root,
        ColumnName::Index,
        ColumnName::DataShred,
        ColumnName::CodeShred,
    ]);
    r
}

/// The columns that can be written to.
pub fn columns() -> (r: Vec<ColumnName>)
    ensures
        r@ == seq![
            ColumnName::ErasureMeta,
            ColumnName::DeadSlots,
            ColumnName::Index,
            ColumnName::Orphans,
            ColumnName::Root,
            ColumnName::Meta,
            ColumnName::DataShred,
            ColumnName::CodeShred,
        ],
{
    let r: Vec<ColumnName> = vec![
        ColumnName::ErasureMeta,
        ColumnName::DeadSlots,
        ColumnName::Index,
        ColumnName::Orphans,
        ColumnName::Root,
        ColumnName::Meta,
        ColumnName::DataShred,
        ColumnName::CodeShred,
    ];
    assert(r@ =~= seq![
        ColumnName::ErasureMeta,
        ColumnName::DeadSlots,
        ColumnName::Index,
        ColumnName::Orphans,
        ColumnName::Root,
        ColumnName::Meta,
        ColumnName::DataShred,
        ColumnName::CodeShred,
    ]);
    r
}

/// Where the database begins to walk a column.
pub fn iter_from<C: Column>(mode: IteratorMode<C::Index>) -> (r: IteratorMode<Vec<u8>>)
    ensures
        match mode {
            IteratorMode::Start => r is Start,
            IteratorMode::End => r is End,
            IteratorMode::From(index, direction) => {
                &&& r is From
                &&& r->From_0@ == C::spec_key(index)
                &&& r->From_1 == direction
            },
        },
{
    match mode {
        IteratorMode::Start => IteratorMode::Start,
        IteratorMode::End => IteratorMode::End,
        IteratorMode::From(index, direction) => IteratorMode::From(C::key(index), direction),
    }
}

/// A change to a column: what is to be put under a key, or `None` to delete it.
#[derive(Debug)]
pub struct BatchOp {
    pub column: ColumnName,
    pub key: Vec<u8>,
    pub value: Option<Vec<u8>>,
}

/// A change as it is described.
pub struct BatchOpView {
    pub column: ColumnName,
    pub key: Seq<u8>,
    pub value: Option<Seq<u8>>,
}

impl View for BatchOp {
    type V = BatchOpView;

    open spec fn view(&self) -> BatchOpView {
        BatchOpView {
            column: self.column,
            key: self.key@,
            value: match self.value {
                Some(value) => Some(value@),
                None => None,
            },
        }
    }
}

/// Changes that take effect together.
#[derive(Debug)]
pub struct WriteBatch {
    pub ops: Vec<BatchOp>,
}

impl View for WriteBatch {
    type V = Seq<BatchOpView>;

    open spec fn view(&self) -> Seq<BatchOpView> {
        Seq::new(self.ops@.len(), |i: int| self.ops@[i]@)
    }
}

/// The change that deletes an index.
pub open spec fn deletion<C: Column>(index: C::Index) -> BatchOpView {
    BatchOpView { column: C::spec_id(), key: C::spec_key(index), value: None }
}

impl WriteBatch {
    pub fn new() -> (r: Self)
        ensures
            r@ == Seq::<BatchOpView>::empty(),
    {
        let r = WriteBatch { ops: Vec::new() };
        assert(r@ =~= Seq::<BatchOpView>::empty());
        r
    }

    pub fn put_bytes<C: Column>(&mut self, index: C::Index, bytes: Vec<u8>)
        ensures
            final(self)@ == old(self)@.push(
                BatchOpView {
                    column: C::spec_id(),
                    key: C::spec_key(index),
                    value: Some(bytes@),
                },
            ),
    {
        let op = BatchOp { column: C::id(), key: C::key(index), value: Some(bytes) };
        let ghost before = self@;
        let ghost added = op@;
        self.ops.push(op);
        assert(self@ =~= before.push(added));
    }

    pub fn delete<C: Column>(&mut self, index: C::Index)
        ensures
            final(self)@ == old(self)@.push(deletion::<C>(index)),
    {
        let op = BatchOp { column: C::id(), key: C::key(index), value: None };
        let ghost before = self@;
        let ghost added = op@;
        self.ops.push(op);
        assert(self@ =~= before.push(added));
    }
}

/// Where to begin deleting from a column.
pub fn delete_start<C: Column>(from: Option<Slot>) -> (r: IteratorMode<C::Index>)
    ensures
        r == (match from {
            Some(slot) => IteratorMode::From(C::spec_as_index(slot), IteratorDirection::Forward),
            None => IteratorMode::Start,
        }),
{
    match from {
        Some(slot) => IteratorMode::From(C::as_index(slot), IteratorDirection::Forward),
        None => IteratorMode::Start,
    }
}

/// The index belongs to a slot that is deleted.
pub open spec fn within<C: Column>(index: C::Index, to: Option<Slot>) -> bool {
    match to {
        Some(to) => C::spec_slot(index) <= to,
        None => true,
    }
}

/// Deletes what a walk through a column yields, up to and with slot `to`, and says whether the walk
/// came to its end.
pub fn delete_slot<C: Column>(
    batch: &mut WriteBatch,
    indexes: &Vec<C::Index>,
    to: Option<Slot>,
) -> (end: bool) where C::Index: Copy
    ensures
        end <==> forall|i: int| 0 <= i < indexes@.len() ==> within::<C>(#[trigger] indexes@[i], to),
        exists|n: int| #[trigger]
            stops_at::<C>(indexes@, to, n) && final(batch)@ == old(batch)@ + Seq::new(
                n as nat,
                |i: int| deletion::<C>(indexes@[i]),
            ),
{
    let mut i: usize = 0;
    while i < indexes.len()
        invariant
            i <= indexes@.len(),
            forall|j: int| 0 <= j < i ==> within::<C>(#[trigger] indexes@[j], to),
            batch@ == old(batch)@ + Seq::new(i as nat, |j: int| deletion::<C>(indexes@[j])),
        decreases indexes@.len() - i,
    {
        let index = indexes[i];
        if let Some(to_slot) = to {
            if C::slot(index) > to_slot {
                assert(!within::<C>(indexes@[i as int], to));
                assert(stops_at::<C>(indexes@, to, i as int));
                return false;
            }
        }
        batch.delete::<C>(index);
        i = i + 1;
        assert(batch@ =~= old(batch)@ + Seq::new(i as nat, |j: int| deletion::<C>(indexes@[j])));
    }
    assert(stops_at::<C>(indexes@, to, i as int));
    true
}

/// The first index of the walk that is not deleted is number `n`, or the walk has so many.
pub open spec fn stops_at<C: Column>(indexes: Seq<C::Index>, to: Option<Slot>, n: int) -> bool {
    &&& 0 <= n <= indexes.len()
    &&& forall|i: int| 0 <= i < n ==> within::<C>(#[trigger] indexes[i], to)
    &&& n < indexes.len() ==> !within::<C>(indexes[n], to)
}

/// A walk through a column yields what it holds in the order of the keys. So whatever is beyond
/// where deleting stops is of a later slot too: nothing is left that should have been deleted.
pub proof fn law_nothing_within_is_left<C: Column>(
    indexes: Seq<C::Index>,
    to: Option<Slot>,
    n: int,
    i: int,
)
    requires
        stops_at::<C>(indexes, to, n),
        forall|a: int, b: int|
            #![trigger indexes[a], indexes[b]]
            0 <= a < b < indexes.len() ==> !crate::bytes::comes_before(
                C::spec_key(indexes[b]),
                C::spec_key(indexes[a]),
            ),
        n <= i < indexes.len(),
    ensures
        !within::<C>(indexes[i], to),
{
    if i > n && within::<C>(indexes[i], to) {
        C::law_keys_are_ordered_by_slot(indexes[i], indexes[n]);
    }
}

/// Deleting takes what is of the slots up to `to`, from the front of the walk, and nothing that comes
/// after the first index of a later slot. Other changes of the batch stay, in their order.
pub proof fn law_deleting_takes_the_slots_asked_for<C: Column>(
    batch: &mut WriteBatch,
    indexes: &Vec<C::Index>,
    to: Slot,
    end: bool,
    i: int,
) where C::Index: Copy
    requires
        call_ensures(delete_slot::<C>, (batch, indexes, Some(to)), end),
        forall|a: int, b: int|
            #![trigger indexes@[a], indexes@[b]]
            0 <= a < b < indexes@.len() ==> C::spec_slot(indexes@[a]) <= C::spec_slot(indexes@[b]),
    ensures
        ({
            let before = old(batch).ops@.len();
            let after = final(batch).ops@;
            &&& after.len() >= before
            &&& 0 <= i < before ==> after[i]@ == old(batch).ops@[i]@
            &&& before <= i < after.len() ==> {
                let index = indexes@[i - before];
                &&& i - before < indexes@.len()
                &&& C::spec_slot(index) <= to
                &&& after[i].column == C::spec_id()
                &&& after[i].key@ == C::spec_key(index)
                &&& after[i].value is None
            }
            &&& 0 <= i < indexes@.len() && C::spec_slot(indexes@[i]) <= to ==> i + before
                < after.len()
            &&& end <==> forall|j: int|
                0 <= j < indexes@.len() ==> C::spec_slot(#[trigger] indexes@[j]) <= to
        }),
{
    let n = choose|n: int| #[trigger]
        stops_at::<C>(indexes@, Some(to), n) && final(batch)@ == old(batch)@ + Seq::new(
            n as nat,
            |i: int| deletion::<C>(indexes@[i]),
        );
    let before = old(batch).ops@.len() as int;
    let after = final(batch).ops@;
    assert(final(batch)@.len() == after.len());
    assert(old(batch)@.len() == before);
    if 0 <= i < before {
        assert(final(batch)@[i] == old(batch)@[i]);
    }
    if before <= i < after.len() {
        assert(final(batch)@[i] == deletion::<C>(indexes@[i - before]));
        assert(final(batch)@[i] == after[i]@);
        assert(within::<C>(indexes@[i - before], Some(to)));
    }
    if 0 <= i < indexes@.len() && C::spec_slot(indexes@[i]) <= to {
        if n <= i {
            assert(!within::<C>(indexes@[n], Some(to)));
            if n < i {
                assert(C::spec_slot(indexes@[n]) <= C::spec_slot(indexes@[i]));
            }
        }
    }
    if end {
        assert forall|j: int| 0 <= j < indexes@.len() implies C::spec_slot(
            #[trigger] indexes@[j],
        ) <= to by {
            assert(within::<C>(indexes@[j], Some(to)));
        }
    }
}

/// What is put into a batch comes last, under the key of its index and in its column, and what was
/// there stays; the index can be told from the key.
pub proof fn law_what_is_put_comes_last<C: Column>(
    batch: &mut WriteBatch,
    index: C::Index,
    bytes: Vec<u8>,
    i: int,
)
    requires
        call_ensures(WriteBatch::put_bytes::<C>, (batch, index, bytes), ()),
    ensures
        ({
            let after = final(batch).ops@;
            &&& after.len() == old(batch).ops@.len() + 1
            &&& 0 <= i < old(batch).ops@.len() ==> after[i]@ == old(batch).ops@[i]@
            &&& after.last().column == C::spec_id()
            &&& C::spec_index(after.last().key@) == index
            &&& after.last().value matches Some(value) && value@ == bytes@
        }),
{
    let after = final(batch).ops@;
    let n = old(batch).ops@.len() as int;
    assert(final(batch)@.len() == after.len());
    assert(old(batch)@.len() == n);
    assert(final(batch)@[n] == after[n]@);
    if 0 <= i < n {
        assert(final(batch)@[i] == old(batch)@[i]);
    }
    C::law_key_reads_back(index);
}

/// A walk that is to begin at a slot begins at its first index, and goes forward: it misses nothing
/// that is of the slot or of a later one.
pub proof fn law_a_walk_begins_at_its_slot<C: Column>(
    from: Option<Slot>,
    start: IteratorMode<C::Index>,
    r: IteratorMode<Vec<u8>>,
    index: C::Index,
)
    requires
        call_ensures(delete_start::<C>, (from,), start),
        call_ensures(iter_from::<C>, (start,), r),
    ensures
        from is None ==> r is Start,
        from matches Some(slot) ==> {
            &&& r is From
            &&& r->From_1 == IteratorDirection::Forward
            &&& C::spec_slot(C::spec_index(r->From_0@)) == slot
            &&& slot <= C::spec_slot(index) ==> !crate::bytes::comes_before(
                C::spec_key(index),
                r->From_0@,
            )
        },
{
    if let Some(slot) = from {
        C::law_key_reads_back(C::spec_as_index(slot));
        C::law_as_index_is_of_slot(slot);
        if slot <= C::spec_slot(index) {
            C::law_as_index_comes_first(slot, index);
        }
    }
}

/// Every column is opened, and every column can be written to, each once.
pub proof fn law_every_column_is_there(
    opened: Vec<ColumnName>,
    written: Vec<ColumnName>,
    name: ColumnName,
)
    requires
        call_ensures(opened_columns, (), opened),
        call_ensures(columns, (), written),
    ensures
        opened@.contains(name),
        written@.contains(name),
        opened@.no_duplicates(),
        written@.no_duplicates(),
{
    assert(opened@[0] == ColumnName::Meta && opened@[1] == ColumnName::DeadSlots && opened@[2]
        == ColumnName::ErasureMeta && opened@[3] == ColumnName::Orphans && opened@[4]
        == ColumnName::Root && opened@[5] == ColumnName::Index && opened@[6]
        == ColumnName::DataShred && opened@[7] == ColumnName::CodeShred);
    assert(written@[0] == ColumnName::ErasureMeta && written@[1] == ColumnName::DeadSlots
        && written@[2] == ColumnName::Index && written@[3] == ColumnName::Orphans && written@[4]
        == ColumnName::Root && written@[5] == ColumnName::Meta && written@[6]
        == ColumnName::DataShred && written@[7] == ColumnName::CodeShred);
}

/// Where no last slot is given, all that the walk yields is deleted.
pub proof fn law_everything_can_be_deleted<C: Column>(
    batch: &mut WriteBatch,
    indexes: &Vec<C::Index>,
    end: bool,
    i: int,
) where C::Index: Copy
    requires
        call_ensures(delete_slot::<C>, (batch, indexes, None), end),
        0 <= i < indexes@.len(),
    ensures
        end,
        ({
            let before = old(batch).ops@.len() as int;
            let after = final(batch).ops@;
            &&& after.len() == before + indexes@.len()
            &&& after[before + i].column == C::spec_id()
            &&& C::spec_index(after[before + i].key@) == indexes@[i]
            &&& after[before + i].value is None
        }),
{
    let n = choose|n: int| #[trigger]
        stops_at::<C>(indexes@, None, n) && final(batch)@ == old(batch)@ + Seq::new(
            n as nat,
            |i: int| deletion::<C>(indexes@[i]),
        );
    let before = old(batch).ops@.len() as int;
    assert(final(batch)@.len() == final(batch).ops@.len());
    assert(old(batch)@.len() == before);
    assert(n == indexes@.len()) by {
        if n < indexes@.len() {
            assert(!within::<C>(indexes@[n], None));
        }
    }
    assert(final(batch)@[before + i] == deletion::<C>(indexes@[i]));
    assert(final(batch)@[before + i] == final(batch).ops@[before + i]@);
    C::law_key_reads_back(indexes@[i]);
}

/// Shreds, and what is kept of each slot about them, fill buffers of 256 MB; what else there is does
/// with 64 KB.
pub proof fn law_columns_of_shreds_buffer_more(name: ColumnName, r: CfOptions)
    requires
        call_ensures(get_cf_options, (name,), r),
    ensures
        ({
            let of_shreds = name == ColumnName::DataShred || name == ColumnName::CodeShred || name
                == ColumnName::Index || name == ColumnName::ErasureMeta;
            &&& of_shreds ==> r.write_buffer_size == 268_435_456 && r.max_write_buffer_number
                == Some(8i32) && r.max_bytes_for_level_base == r.write_buffer_size
                && r.target_file_size_base * 10 <= r.write_buffer_size
                && r.write_buffer_size < (r.target_file_size_base + 1) * 10
            &&& !of_shreds ==> r.write_buffer_size == 65_536 && r.max_bytes_for_level_base
                == r.write_buffer_size && r.target_file_size_base == r.write_buffer_size
                && r.level_zero_file_num_compaction_trigger == Some(1i32)
        }),
{
}

} // verus!
