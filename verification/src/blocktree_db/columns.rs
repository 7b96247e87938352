//! The columns of the ledger's database, and the keys of what they hold.
//!
//! Keys are slots, or slots with an index, the most significant byte first, so that what the
//! database holds is ordered by slot.

use crate::bytes;
use crate::bytes::{read_u64_be, write_u64_be};
use crate::types::Slot;
use vstd::prelude::*;

verus! {

/// A column, by its name.
#[derive(Clone, Copy, Debug, PartialEq, Eq, Structural)]
pub enum ColumnName {
    /// Metadata about a slot.
    Meta,
    /// Slots that have been marked as dead.
    DeadSlots,
    ErasureMeta,
    Orphans,
    Root,
    Index,
    DataShred,
    CodeShred,
}

impl ColumnName {
    /// How the database knows the column.
    pub open spec fn spec_name(self) -> Seq<char> {
        match self {
            ColumnName::Meta => "meta"@,
            ColumnName::DeadSlots => "dead_slots"@,
            ColumnName::ErasureMeta => "erasure_meta"@,
            ColumnName::Orphans => "orphans"@,
            ColumnName::Root => "root"@,
            ColumnName::Index => "index"@,
            ColumnName::DataShred => "data_shred"@,
            ColumnName::CodeShred => "code_shred"@,
        }
    }

    pub fn name(self) -> (r: &'static str)
        ensures
            r@ == self.spec_name(),
    {
        match self {
            ColumnName::Meta => "meta",
            ColumnName::DeadSlots => "dead_slots",
            ColumnName::ErasureMeta => "erasure_meta",
            ColumnName::Orphans => "orphans",
            ColumnName::Root => "root",
            ColumnName::Index => "index",
            ColumnName::DataShred => "data_shred",
            ColumnName::CodeShred => "code_shred",
        }
    }
}

/// A column of the ledger's database.
pub trait Column {
    /// What entries of the column are found by.
    type Index;

    /// Which column it is.
    spec fn spec_id() -> ColumnName;

    /// The key of an index.
    spec fn spec_key(index: Self::Index) -> Seq<u8>;

    /// The bytes of every key.
    spec fn spec_key_len() -> nat;

    /// The index of a key.
    spec fn spec_index(key: Seq<u8>) -> Self::Index;

    /// The slot of an index.
    spec fn spec_slot(index: Self::Index) -> Slot;

    /// The first index of a slot.
    spec fn spec_as_index(slot: Slot) -> Self::Index;

    /// The index comes before the other: that of an earlier slot does, and within a slot the lower
    /// one.
    spec fn spec_before(a: Self::Index, b: Self::Index) -> bool;

    fn id() -> (r: ColumnName)
        ensures
            r == Self::spec_id(),
    ;

    fn key(index: Self::Index) -> (r: Vec<u8>)
        ensures
            r@ == Self::spec_key(index),
    ;

    fn index(key: &[u8]) -> (r: Self::Index)
        requires
            key@.len() >= Self::spec_key_len(),
        ensures
            r == Self::spec_index(key@),
    ;

    fn slot(index: Self::Index) -> (r: Slot)
        ensures
            r == Self::spec_slot(index),
    ;

    fn as_index(slot: Slot) -> (r: Self::Index)
        ensures
            r == Self::spec_as_index(slot),
    ;

    /// What was put under an index is found under its key, and the key tells the index.
    proof fn law_key_reads_back(index: Self::Index)
        ensures
            Self::spec_key(index).len() == Self::spec_key_len(),
            Self::spec_index(Self::spec_key(index)) == index,
    ;

    /// The key of the index that a key tells is that key.
    proof fn law_index_writes_back(key: Seq<u8>)
        requires
            key.len() == Self::spec_key_len(),
        ensures
            Self::spec_key(Self::spec_index(key)) == key,
    ;

    /// The order of keys is that of the indices.
    proof fn law_keys_are_ordered(a: Self::Index, b: Self::Index)
        ensures
            bytes::comes_before(Self::spec_key(a), Self::spec_key(b)) <==> Self::spec_before(a, b),
    ;

    /// The first index of a slot belongs to that slot.
    proof fn law_as_index_is_of_slot(slot: Slot)
        ensures
            Self::spec_slot(Self::spec_as_index(slot)) == slot,
    ;

    /// The first index of a slot comes before all others of that slot and of later ones.
    proof fn law_as_index_comes_first(slot: Slot, index: Self::Index)
        requires
            slot <= Self::spec_slot(index),
        ensures
            !bytes::comes_before(Self::spec_key(index), Self::spec_key(Self::spec_as_index(slot))),
    ;

    /// What belongs to an earlier slot comes first in the order of keys.
    proof fn law_keys_are_ordered_by_slot(a: Self::Index, b: Self::Index)
        requires
            Self::spec_slot(a) < Self::spec_slot(b),
        ensures
            bytes::comes_before(Self::spec_key(a), Self::spec_key(b)),
    ;
}

/// The key of a slot.
pub open spec fn slot_key(slot: u64) -> Seq<u8> {
    bytes::big_endian_bytes(slot as nat, 8)
}

/// The slot of a key.
pub open spec fn key_slot(key: Seq<u8>) -> u64 {
    bytes::big_endian(key.take(8)) as u64
}

/// The key of an index within a slot.
pub open spec fn pair_key(index: (u64, u64)) -> Seq<u8> {
    slot_key(index.0) + slot_key(index.1)
}

/// The slot, and the index within it, of a key.
pub open spec fn key_pair(key: Seq<u8>) -> (u64, u64) {
    (key_slot(key), key_slot(key.skip(8)))
}

fn make_slot_key(slot: u64) -> (r: Vec<u8>)
    ensures
        r@ == slot_key(slot),
{
    let written: [u8; 8] = write_u64_be(slot);
    let mut key: Vec<u8> = Vec::new();
    let mut i: usize = 0;
    while i < 8
        invariant
            i <= 8,
            key@ == written@.take(i as int),
        decreases 8 - i,
    {
        key.push(written[i]);
        i = i + 1;
        assert(key@ =~= written@.take(i as int));
    }
    assert(written@.take(8) =~= written@);
    key
}

fn make_pair_key(slot: u64, index: u64) -> (r: Vec<u8>)
    ensures
        r@ == pair_key((slot, index)),
{
    let mut key = make_slot_key(slot);
    let mut rest = make_slot_key(index);
    key.append(&mut rest);
    key
}

fn read_slot(key: &[u8]) -> (r: u64)
    requires
        key@.len() >= 8,
    ensures
        r == key_slot(key@),
{
    read_u64_be(key)
}

fn read_pair(key: &[u8]) -> (r: (u64, u64))
    requires
        key@.len() >= 16,
    ensures
        r == key_pair(key@),
{
    let slot: u64 = read_u64_be(key);
    let rest = vstd::slice::slice_subrange(key, 8, 16);
    let index: u64 = read_u64_be(rest);
    assert(rest@.take(8) =~= key@.skip(8).take(8));
    (slot, index)
}

proof fn lemma_slot_key_reads_back(slot: u64, rest: Seq<u8>)
    ensures
        slot_key(slot).len() == 8,
        key_slot(slot_key(slot) + rest) == slot,
{
    reveal_with_fuel(bytes::power_of_256, 9);
    bytes::law_big_endian_reads_back(slot as nat, 8);
    assert((slot_key(slot) + rest).take(8) =~= slot_key(slot));
}

proof fn lemma_pair_key_reads_back(index: (u64, u64))
    ensures
        pair_key(index).len() == 16,
        key_pair(pair_key(index)) == index,
{
    lemma_slot_key_reads_back(index.0, slot_key(index.1));
    lemma_slot_key_reads_back(index.1, Seq::empty());
    assert(pair_key(index).skip(8) =~= slot_key(index.1) + Seq::<u8>::empty());
}

proof fn lemma_slot_keys_are_ordered(a: u64, b: u64, rest_a: Seq<u8>, rest_b: Seq<u8>)
    requires
        a < b,
    ensures
        bytes::comes_before(slot_key(a) + rest_a, slot_key(b) + rest_b),
{
    reveal_with_fuel(bytes::power_of_256, 9);
    bytes::law_big_endian_keeps_order(a as nat, b as nat, 8);
    let s = slot_key(a);
    let t = slot_key(b);
    let i = choose|i: int| #[trigger] bytes::differ_at(s, t, i);
    assert((s + rest_a).take(i) =~= s.take(i));
    assert((t + rest_b).take(i) =~= t.take(i));
    assert(bytes::differ_at(s + rest_a, t + rest_b, i));
}

proof fn lemma_slot_key_writes_back(key: Seq<u8>)
    requires
        key.len() >= 8,
    ensures
        slot_key(key_slot(key)) == key.take(8),
{
    reveal_with_fuel(bytes::power_of_256, 9);
    bytes::law_big_endian_writes_back(key.take(8));
}

proof fn lemma_pair_key_writes_back(key: Seq<u8>)
    requires
        key.len() == 16,
    ensures
        pair_key(key_pair(key)) == key,
{
    lemma_slot_key_writes_back(key);
    lemma_slot_key_writes_back(key.skip(8));
    assert(key.take(8) + key.skip(8).take(8) =~= key);
}

proof fn lemma_slot_keys_in_order(a: u64, b: u64)
    ensures
        bytes::comes_before(slot_key(a), slot_key(b)) <==> a < b,
{
    reveal_with_fuel(bytes::power_of_256, 9);
    if a < b {
        bytes::law_big_endian_keeps_order(a as nat, b as nat, 8);
    } else if bytes::comes_before(slot_key(a), slot_key(b)) {
        bytes::law_one_comes_before(slot_key(a), slot_key(b));
        if b < a {
            bytes::law_big_endian_keeps_order(b as nat, a as nat, 8);
        }
    }
}

/// One index comes before the other: that of an earlier slot, or else the lower one.
pub open spec fn pair_before(a: (u64, u64), b: (u64, u64)) -> bool {
    a.0 < b.0 || (a.0 == b.0 && a.1 < b.1)
}

proof fn lemma_pair_key_comes_before(a: (u64, u64), b: (u64, u64))
    requires
        pair_before(a, b),
    ensures
        bytes::comes_before(pair_key(a), pair_key(b)),
{
    if a.0 < b.0 {
        lemma_slot_keys_are_ordered(a.0, b.0, slot_key(a.1), slot_key(b.1));
    } else {
        lemma_slot_keys_in_order(a.1, b.1);
        lemma_slot_key_reads_back(a.0, Seq::empty());
        let s = slot_key(a.1);
        let t = slot_key(b.1);
        let i = choose|i: int| #[trigger] bytes::differ_at(s, t, i);
        assert(pair_key(a).take(8 + i) =~= slot_key(a.0) + s.take(i));
        assert(pair_key(b).take(8 + i) =~= slot_key(b.0) + t.take(i));
        assert(bytes::differ_at(pair_key(a), pair_key(b), 8 + i));
    }
}

proof fn lemma_pair_keys_in_order(a: (u64, u64), b: (u64, u64))
    ensures
        bytes::comes_before(pair_key(a), pair_key(b)) <==> pair_before(a, b),
{
    if pair_before(a, b) {
        lemma_pair_key_comes_before(a, b);
    } else if bytes::comes_before(pair_key(a), pair_key(b)) {
        bytes::law_one_comes_before(pair_key(a), pair_key(b));
        if pair_before(b, a) {
            lemma_pair_key_comes_before(b, a);
        } else {
            assert(a == b);
        }
    }
}

/// Metadata about slots.
#[derive(Clone, Copy, Debug)]
pub struct SlotMeta;

impl Column for SlotMeta {
    type Index = u64;

    open spec fn spec_id() -> ColumnName {
        ColumnName::Meta
    }

    open spec fn spec_key(index: u64) -> Seq<u8> {
        slot_key(index)
    }

    open spec fn spec_key_len() -> nat {
        8
    }

    open spec fn spec_index(key: Seq<u8>) -> u64 {
        key_slot(key)
    }

    open spec fn spec_slot(index: u64) -> Slot {
        index
    }

    open spec fn spec_as_index(slot: Slot) -> u64 {
        slot
    }

    open spec fn spec_before(a: u64, b: u64) -> bool {
        a < b
    }

    fn id() -> ColumnName {
        ColumnName::Meta
    }

    fn key(index: u64) -> Vec<u8> {
        make_slot_key(index)
    }

    fn index(key: &[u8]) -> u64 {
        read_slot(key)
    }

    fn slot(index: u64) -> Slot {
        index
    }

    fn as_index(slot: Slot) -> u64 {
        slot
    }

    proof fn law_key_reads_back(index: u64) {
        lemma_slot_key_reads_back(index, Seq::empty());
        assert(slot_key(index) + Seq::<u8>::empty() =~= slot_key(index));
    }

    proof fn law_index_writes_back(key: Seq<u8>) {
        lemma_slot_key_writes_back(key);
        assert(key.take(8) =~= key);
    }

    proof fn law_keys_are_ordered(a: u64, b: u64) {
        lemma_slot_keys_in_order(a, b);
    }

    proof fn law_as_index_is_of_slot(slot: Slot) {
    }

    proof fn law_as_index_comes_first(slot: Slot, index: u64) {
        Self::law_keys_are_ordered(index, Self::spec_as_index(slot));
    }

    proof fn law_keys_are_ordered_by_slot(a: u64, b: u64) {
        lemma_slot_keys_are_ordered(a, b, Seq::empty(), Seq::empty());
        assert(slot_key(a) + Seq::<u8>::empty() =~= slot_key(a));
        assert(slot_key(b) + Seq::<u8>::empty() =~= slot_key(b));
    }
}

/// Slots whose parents are missing.
#[derive(Clone, Copy, Debug)]
pub struct Orphans;

impl Column for Orphans {
    type Index = u64;

    open spec fn spec_id() -> ColumnName {
        ColumnName::Orphans
    }

    open spec fn spec_key(index: u64) -> Seq<u8> {
        slot_key(index)
    }

    open spec fn spec_key_len() -> nat {
        8
    }

    open spec fn spec_index(key: Seq<u8>) -> u64 {
        key_slot(key)
    }

    open spec fn spec_slot(index: u64) -> Slot {
        index
    }

    open spec fn spec_as_index(slot: Slot) -> u64 {
        slot
    }

    open spec fn spec_before(a: u64, b: u64) -> bool {
        a < b
    }

    fn id() -> ColumnName {
        ColumnName::Orphans
    }

    fn key(index: u64) -> Vec<u8> {
        make_slot_key(index)
    }

    fn index(key: &[u8]) -> u64 {
        read_slot(key)
    }

    fn slot(index: u64) -> Slot {
        index
    }

    fn as_index(slot: Slot) -> u64 {
        slot
    }

    proof fn law_key_reads_back(index: u64) {
        lemma_slot_key_reads_back(index, Seq::empty());
        assert(slot_key(index) + Seq::<u8>::empty() =~= slot_key(index));
    }

    proof fn law_index_writes_back(key: Seq<u8>) {
        lemma_slot_key_writes_back(key);
        assert(key.take(8) =~= key);
    }

    proof fn law_keys_are_ordered(a: u64, b: u64) {
        lemma_slot_keys_in_order(a, b);
    }

    proof fn law_as_index_is_of_slot(slot: Slot) {
    }

    proof fn law_as_index_comes_first(slot: Slot, index: u64) {
        Self::law_keys_are_ordered(index, Self::spec_as_index(slot));
    }

    proof fn law_keys_are_ordered_by_slot(a: u64, b: u64) {
        lemma_slot_keys_are_ordered(a, b, Seq::empty(), Seq::empty());
        assert(slot_key(a) + Seq::<u8>::empty() =~= slot_key(a));
        assert(slot_key(b) + Seq::<u8>::empty() =~= slot_key(b));
    }
}

/// Slots that have been marked as dead.
#[derive(Clone, Copy, Debug)]
pub struct DeadSlots;

impl Column for DeadSlots {
    type Index = u64;

    open spec fn spec_id() -> ColumnName {
        ColumnName::DeadSlots
    }

    open spec fn spec_key(index: u64) -> Seq<u8> {
        slot_key(index)
    }

    open spec fn spec_key_len() -> nat {
        8
    }

    open spec fn spec_index(key: Seq<u8>) -> u64 {
        key_slot(key)
    }

    open spec fn spec_slot(index: u64) -> Slot {
        index
    }

    open spec fn spec_as_index(slot: Slot) -> u64 {
        slot
    }

    open spec fn spec_before(a: u64, b: u64) -> bool {
        a < b
    }

    fn id() -> ColumnName {
        ColumnName::DeadSlots
    }

    fn key(index: u64) -> Vec<u8> {
        make_slot_key(index)
    }

    fn index(key: &[u8]) -> u64 {
        read_slot(key)
    }

    fn slot(index: u64) -> Slot {
        index
    }

    fn as_index(slot: Slot) -> u64 {
        slot
    }

    proof fn law_key_reads_back(index: u64) {
        lemma_slot_key_reads_back(index, Seq::empty());
        assert(slot_key(index) + Seq::<u8>::empty() =~= slot_key(index));
    }

    proof fn law_index_writes_back(key: Seq<u8>) {
        lemma_slot_key_writes_back(key);
        assert(key.take(8) =~= key);
    }

    proof fn law_keys_are_ordered(a: u64, b: u64) {
        lemma_slot_keys_in_order(a, b);
    }

    proof fn law_as_index_is_of_slot(slot: Slot) {
    }

    proof fn law_as_index_comes_first(slot: Slot, index: u64) {
        Self::law_keys_are_ordered(index, Self::spec_as_index(slot));
    }

    proof fn law_keys_are_ordered_by_slot(a: u64, b: u64) {
        lemma_slot_keys_are_ordered(a, b, Seq::empty(), Seq::empty());
        assert(slot_key(a) + Seq::<u8>::empty() =~= slot_key(a));
        assert(slot_key(b) + Seq::<u8>::empty() =~= slot_key(b));
    }
}

/// Slots that are rooted.
#[derive(Clone, Copy, Debug)]
pub struct Root;

impl Column for Root {
    type Index = u64;

    open spec fn spec_id() -> ColumnName {
        ColumnName::Root
    }

    open spec fn spec_key(index: u64) -> Seq<u8> {
        slot_key(index)
    }

    open spec fn spec_key_len() -> nat {
        8
    }

    open spec fn spec_index(key: Seq<u8>) -> u64 {
        key_slot(key)
    }

    open spec fn spec_slot(index: u64) -> Slot {
        index
    }

    open spec fn spec_as_index(slot: Slot) -> u64 {
        slot
    }

    open spec fn spec_before(a: u64, b: u64) -> bool {
        a < b
    }

    fn id() -> ColumnName {
        ColumnName::Root
    }

    fn key(index: u64) -> Vec<u8> {
        make_slot_key(index)
    }

    fn index(key: &[u8]) -> u64 {
        read_slot(key)
    }

    fn slot(index: u64) -> Slot {
        index
    }

    fn as_index(slot: Slot) -> u64 {
        slot
    }

    proof fn law_key_reads_back(index: u64) {
        lemma_slot_key_reads_back(index, Seq::empty());
        assert(slot_key(index) + Seq::<u8>::empty() =~= slot_key(index));
    }

    proof fn law_index_writes_back(key: Seq<u8>) {
        lemma_slot_key_writes_back(key);
        assert(key.take(8) =~= key);
    }

    proof fn law_keys_are_ordered(a: u64, b: u64) {
        lemma_slot_keys_in_order(a, b);
    }

    proof fn law_as_index_is_of_slot(slot: Slot) {
    }

    proof fn law_as_index_comes_first(slot: Slot, index: u64) {
        Self::law_keys_are_ordered(index, Self::spec_as_index(slot));
    }

    proof fn law_keys_are_ordered_by_slot(a: u64, b: u64) {
        lemma_slot_keys_are_ordered(a, b, Seq::empty(), Seq::empty());
        assert(slot_key(a) + Seq::<u8>::empty() =~= slot_key(a));
        assert(slot_key(b) + Seq::<u8>::empty() =~= slot_key(b));
    }
}

/// Which shreds of a slot have come in.
#[derive(Clone, Copy, Debug)]
pub struct Index;

impl Column for Index {
    type Index = u64;

    open spec fn spec_id() -> ColumnName {
        ColumnName::Index
    }

    open spec fn spec_key(index: u64) -> Seq<u8> {
        slot_key(index)
    }

    open spec fn spec_key_len() -> nat {
        8
    }

    open spec fn spec_index(key: Seq<u8>) -> u64 {
        key_slot(key)
    }

    open spec fn spec_slot(index: u64) -> Slot {
        index
    }

    open spec fn spec_as_index(slot: Slot) -> u64 {
        slot
    }

    open spec fn spec_before(a: u64, b: u64) -> bool {
        a < b
    }

    fn id() -> ColumnName {
        ColumnName::Index
    }

    fn key(index: u64) -> Vec<u8> {
        make_slot_key(index)
    }

    fn index(key: &[u8]) -> u64 {
        read_slot(key)
    }

    fn slot(index: u64) -> Slot {
        index
    }

    fn as_index(slot: Slot) -> u64 {
        slot
    }

    proof fn law_key_reads_back(index: u64) {
        lemma_slot_key_reads_back(index, Seq::empty());
        assert(slot_key(index) + Seq::<u8>::empty() =~= slot_key(index));
    }

    proof fn law_index_writes_back(key: Seq<u8>) {
        lemma_slot_key_writes_back(key);
        assert(key.take(8) =~= key);
    }

    proof fn law_keys_are_ordered(a: u64, b: u64) {
        lemma_slot_keys_in_order(a, b);
    }

    proof fn law_as_index_is_of_slot(slot: Slot) {
    }

    proof fn law_as_index_comes_first(slot: Slot, index: u64) {
        Self::law_keys_are_ordered(index, Self::spec_as_index(slot));
    }

    proof fn law_keys_are_ordered_by_slot(a: u64, b: u64) {
        lemma_slot_keys_are_ordered(a, b, Seq::empty(), Seq::empty());
        assert(slot_key(a) + Seq::<u8>::empty() =~= slot_key(a));
        assert(slot_key(b) + Seq::<u8>::empty() =~= slot_key(b));
    }
}

/// Metadata about erasure sets.
#[derive(Clone, Copy, Debug)]
pub struct ErasureMeta;

impl Column for ErasureMeta {
    type Index = (u64, u64);

    open spec fn spec_id() -> ColumnName {
        ColumnName::ErasureMeta
    }

    open spec fn spec_key(index: (u64, u64)) -> Seq<u8> {
        pair_key(index)
    }

    open spec fn spec_key_len() -> nat {
        16
    }

    open spec fn spec_index(key: Seq<u8>) -> (u64, u64) {
        key_pair(key)
    }

    open spec fn spec_slot(index: (u64, u64)) -> Slot {
        index.0
    }

    open spec fn spec_as_index(slot: Slot) -> (u64, u64) {
        (slot, 0)
    }

    open spec fn spec_before(a: (u64, u64), b: (u64, u64)) -> bool {
        pair_before(a, b)
    }

    fn id() -> ColumnName {
        ColumnName::ErasureMeta
    }

    fn key(index: (u64, u64)) -> Vec<u8> {
        make_pair_key(index.0, index.1)
    }

    fn index(key: &[u8]) -> (u64, u64) {
        read_pair(key)
    }

    fn slot(index: (u64, u64)) -> Slot {
        index.0
    }

    fn as_index(slot: Slot) -> (u64, u64) {
        (slot, 0)
    }

    proof fn law_key_reads_back(index: (u64, u64)) {
        lemma_pair_key_reads_back(index);
    }

    proof fn law_index_writes_back(key: Seq<u8>) {
        lemma_pair_key_writes_back(key);
    }

    proof fn law_keys_are_ordered(a: (u64, u64), b: (u64, u64)) {
        lemma_pair_keys_in_order(a, b);
    }

    proof fn law_as_index_is_of_slot(slot: Slot) {
    }

    proof fn law_as_index_comes_first(slot: Slot, index: (u64, u64)) {
        Self::law_keys_are_ordered(index, Self::spec_as_index(slot));
    }

    proof fn law_keys_are_ordered_by_slot(a: (u64, u64), b: (u64, u64)) {
        lemma_slot_keys_are_ordered(a.0, b.0, slot_key(a.1), slot_key(b.1));
    }
}

/// Shreds with data.
#[derive(Clone, Copy, Debug)]
pub struct ShredData;

impl Column for ShredData {
    type Index = (u64, u64);

    open spec fn spec_id() -> ColumnName {
        ColumnName::DataShred
    }

    open spec fn spec_key(index: (u64, u64)) -> Seq<u8> {
        pair_key(index)
    }

    open spec fn spec_key_len() -> nat {
        16
    }

    open spec fn spec_index(key: Seq<u8>) -> (u64, u64) {
        key_pair(key)
    }

    open spec fn spec_slot(index: (u64, u64)) -> Slot {
        index.0
    }

    open spec fn spec_as_index(slot: Slot) -> (u64, u64) {
        (slot, 0)
    }

    open spec fn spec_before(a: (u64, u64), b: (u64, u64)) -> bool {
        pair_before(a, b)
    }

    fn id() -> ColumnName {
        ColumnName::DataShred
    }

    fn key(index: (u64, u64)) -> Vec<u8> {
        make_pair_key(index.0, index.1)
    }

    fn index(key: &[u8]) -> (u64, u64) {
        read_pair(key)
    }

    fn slot(index: (u64, u64)) -> Slot {
        index.0
    }

    fn as_index(slot: Slot) -> (u64, u64) {
        (slot, 0)
    }

    proof fn law_key_reads_back(index: (u64, u64)) {
        lemma_pair_key_reads_back(index);
    }

    proof fn law_index_writes_back(key: Seq<u8>) {
        lemma_pair_key_writes_back(key);
    }

    proof fn law_keys_are_ordered(a: (u64, u64), b: (u64, u64)) {
        lemma_pair_keys_in_order(a, b);
    }

    proof fn law_as_index_is_of_slot(slot: Slot) {
    }

    proof fn law_as_index_comes_first(slot: Slot, index: (u64, u64)) {
        Self::law_keys_are_ordered(index, Self::spec_as_index(slot));
    }

    proof fn law_keys_are_ordered_by_slot(a: (u64, u64), b: (u64, u64)) {
        lemma_slot_keys_are_ordered(a.0, b.0, slot_key(a.1), slot_key(b.1));
    }
}

/// Shreds with erasure code.
#[derive(Clone, Copy, Debug)]
pub struct ShredCode;

impl Column for ShredCode {
    type Index = (u64, u64);

    open spec fn spec_id() -> ColumnName {
        ColumnName::CodeShred
    }

    open spec fn spec_key(index: (u64, u64)) -> Seq<u8> {
        pair_key(index)
    }

    open spec fn spec_key_len() -> nat {
        16
    }

    open spec fn spec_index(key: Seq<u8>) -> (u64, u64) {
        key_pair(key)
    }

    open spec fn spec_slot(index: (u64, u64)) -> Slot {
        index.0
    }

    open spec fn spec_as_index(slot: Slot) -> (u64, u64) {
        (slot, 0)
    }

    open spec fn spec_before(a: (u64, u64), b: (u64, u64)) -> bool {
        pair_before(a, b)
    }

    fn id() -> ColumnName {
        ColumnName::CodeShred
    }

    fn key(index: (u64, u64)) -> Vec<u8> {
        make_pair_key(index.0, index.1)
    }

    fn index(key: &[u8]) -> (u64, u64) {
        read_pair(key)
    }

    fn slot(index: (u64, u64)) -> Slot {
        index.0
    }

    fn as_index(slot: Slot) -> (u64, u64) {
        (slot, 0)
    }

    proof fn law_key_reads_back(index: (u64, u64)) {
        lemma_pair_key_reads_back(index);
    }

    proof fn law_index_writes_back(key: Seq<u8>) {
        lemma_pair_key_writes_back(key);
    }

    proof fn law_keys_are_ordered(a: (u64, u64), b: (u64, u64)) {
        lemma_pair_keys_in_order(a, b);
    }

    proof fn law_as_index_is_of_slot(slot: Slot) {
    }

    proof fn law_as_index_comes_first(slot: Slot, index: (u64, u64)) {
        Self::law_keys_are_ordered(index, Self::spec_as_index(slot));
    }

    proof fn law_keys_are_ordered_by_slot(a: (u64, u64), b: (u64, u64)) {
        lemma_slot_keys_are_ordered(a.0, b.0, slot_key(a.1), slot_key(b.1));
    }
}

/// Each column is kept under a name of its own.
pub proof fn law_columns_have_their_own_names(
    first: ColumnName,
    second: ColumnName,
    first_name: &'static str,
    second_name: &'static str,
)
    requires
        call_ensures(ColumnName::name, (first,), first_name),
        call_ensures(ColumnName::name, (second,), second_name),
        first_name@ == second_name@,
    ensures
        first == second,
{
    reveal_strlit("meta");
    reveal_strlit("dead_slots");
    reveal_strlit("erasure_meta");
    reveal_strlit("orphans");
    reveal_strlit("root");
    reveal_strlit("index");
    reveal_strlit("data_shred");
    reveal_strlit("code_shred");
    let a = first_name@;
    let b = second_name@;
    assert(a.len() == b.len() && a[0] == b[0] && a[1] == b[1]);
}

} // verus!
