//! Numbers in bytes.

use byteorder::{BigEndian, ByteOrder};
use vstd::prelude::*;

verus! {

/// The number that bytes stand for, the least significant first.
pub open spec fn little_endian(s: Seq<u8>) -> nat
    decreases s.len(),
{
    if s.len() == 0 {
        0
    } else {
        s[0] as nat + 256 * little_endian(s.skip(1))
    }
}

/// The number in the 4 bytes from `at` on, the least significant first.
pub fn read_u32_le(data: &[u8], at: usize) -> (r: u32)
    requires
        at + 4 <= data@.len(),
    ensures
        r == little_endian(data@.subrange(at as int, at + 4)),
{
    proof {
        reveal_with_fuel(little_endian, 5);
        let s = data@.subrange(at as int, at + 4);
        assert(s.skip(1).skip(1) =~= s.skip(2));
        assert(s.skip(2).skip(1) =~= s.skip(3));
        assert(s.skip(3).skip(1) =~= s.skip(4));
    }
    data[at] as u32 + 0x100 * (data[at + 1] as u32) + 0x1_0000 * (data[at + 2] as u32) + 0x100_0000
        * (data[at + 3] as u32)
}

/// The number in the 8 bytes from `at` on, the least significant first.
pub fn read_u64_le(data: &[u8], at: usize) -> (r: u64)
    requires
        at + 8 <= data@.len(),
    ensures
        r == little_endian(data@.subrange(at as int, at + 8)),
{
    assert(data@.len() == data.len());
    let low: u32 = read_u32_le(data, at);
    let high: u32 = read_u32_le(data, at + 4);
    proof {
        let s = data@.subrange(at as int, at + 8);
        lemma_little_endian_split(s, 4);
        assert(s.take(4) =~= data@.subrange(at as int, at + 4));
        assert(s.skip(4) =~= data@.subrange(at + 4, at + 8));
    }
    low as u64 + 0x1_0000_0000 * (high as u64)
}

/// The number of the first four bytes and of the rest.
proof fn lemma_little_endian_split(s: Seq<u8>, n: nat)
    requires
        n == 4,
        n <= s.len(),
    ensures
        little_endian(s) == little_endian(s.take(4)) + 0x1_0000_0000 * little_endian(s.skip(4)),
{
    reveal_with_fuel(little_endian, 5);
    assert(s.skip(1).skip(1) =~= s.skip(2));
    assert(s.skip(2).skip(1) =~= s.skip(3));
    assert(s.skip(3).skip(1) =~= s.skip(4));
    let t = s.take(4);
    assert(t.skip(1).skip(1) =~= t.skip(2));
    assert(t.skip(2).skip(1) =~= t.skip(3));
    assert(t.skip(3).skip(1) =~= t.skip(4));
    assert(t.skip(4).len() == 0);
}

/// The number that bytes stand for, the most significant first.
pub open spec fn big_endian(s: Seq<u8>) -> nat
    decreases s.len(),
{
    if s.len() == 0 {
        0
    } else {
        256 * big_endian(s.drop_last()) + s.last() as nat
    }
}

/// The last `width` bytes of a number, the most significant first.
pub open spec fn big_endian_bytes(n: nat, width: nat) -> Seq<u8>
    decreases width,
{
    if width == 0 {
        Seq::empty()
    } else {
        big_endian_bytes(n / 256, (width - 1) as nat).push((n % 256) as u8)
    }
}

/// `BigEndian::read_u64`: the number in the first 8 bytes.
#[verifier::external_body]
pub(crate) fn read_u64_be(bytes: &[u8]) -> (r: u64)
    requires
        bytes@.len() >= 8,
    ensures
        r == big_endian(bytes@.take(8)),
{
    BigEndian::read_u64(bytes)
}

/// `BigEndian::write_u64`: the 8 bytes of a number.
#[verifier::external_body]
pub(crate) fn write_u64_be(n: u64) -> (r: [u8; 8])
    ensures
        r@ == big_endian_bytes(n as nat, 8),
{
    let mut bytes: [u8; 8] = [0; 8];
    BigEndian::write_u64(&mut bytes, n);
    bytes
}

/// `256` to that power.
pub open spec fn power_of_256(width: nat) -> nat
    decreases width,
{
    if width == 0 {
        1
    } else {
        256 * power_of_256((width - 1) as nat)
    }
}

/// A number that fits into `width` bytes is read back from the bytes that it was written to.
pub proof fn law_big_endian_reads_back(n: nat, width: nat)
    requires
        n < power_of_256(width),
    ensures
        big_endian_bytes(n, width).len() == width,
        big_endian(big_endian_bytes(n, width)) == n,
    decreases width,
{
    if width > 0 {
        law_big_endian_reads_back(n / 256, (width - 1) as nat);
        assert(big_endian_bytes(n, width).drop_last() =~= big_endian_bytes(
            n / 256,
            (width - 1) as nat,
        ));
    }
}

/// The bytes of the number that bytes stand for are those bytes.
pub proof fn law_big_endian_writes_back(s: Seq<u8>)
    ensures
        big_endian(s) < power_of_256(s.len()),
        big_endian_bytes(big_endian(s), s.len()) == s,
    decreases s.len(),
{
    if s.len() > 0 {
        let front = s.drop_last();
        law_big_endian_writes_back(front);
        assert(big_endian(s) / 256 == big_endian(front));
        assert(big_endian(s) % 256 == s.last() as nat);
        assert(front.push(s.last()) =~= s);
    } else {
        assert(s =~= Seq::empty());
    }
}

/// Bytes that come before others in the order of dictionaries.
pub open spec fn comes_before(s: Seq<u8>, t: Seq<u8>) -> bool {
    exists|i: int| #[trigger] differ_at(s, t, i)
}

/// The first difference is at `i`, and is a smaller byte.
pub open spec fn differ_at(s: Seq<u8>, t: Seq<u8>, i: int) -> bool {
    &&& 0 <= i < s.len()
    &&& i < t.len()
    &&& s.take(i) == t.take(i)
    &&& s[i] < t[i]
}

/// Of two keys no more than one comes before the other.
pub proof fn law_one_comes_before(s: Seq<u8>, t: Seq<u8>)
    requires
        comes_before(s, t),
    ensures
        !comes_before(t, s),
        s != t,
{
    let i = choose|i: int| #[trigger] differ_at(s, t, i);
    if comes_before(t, s) {
        let j = choose|j: int| #[trigger] differ_at(t, s, j);
        if i < j {
            assert(s.take(j)[i] == t.take(j)[i]);
        } else if j < i {
            assert(s.take(i)[j] == t.take(i)[j]);
        }
    }
}

/// Written with the most significant byte first, smaller numbers come first.
pub proof fn law_big_endian_keeps_order(n: nat, m: nat, width: nat)
    requires
        n < m < power_of_256(width),
    ensures
        comes_before(big_endian_bytes(n, width), big_endian_bytes(m, width)),
    decreases width,
{
    let s = big_endian_bytes(n, width);
    let t = big_endian_bytes(m, width);
    if width > 0 {
        law_big_endian_reads_back(n, width);
        law_big_endian_reads_back(m, width);
        let front_s = big_endian_bytes(n / 256, (width - 1) as nat);
        let front_t = big_endian_bytes(m / 256, (width - 1) as nat);
        law_big_endian_reads_back(n / 256, (width - 1) as nat);
        law_big_endian_reads_back(m / 256, (width - 1) as nat);
        if n / 256 < m / 256 {
            law_big_endian_keeps_order(n / 256, m / 256, (width - 1) as nat);
            let i = choose|i: int| #[trigger] differ_at(front_s, front_t, i);
            assert(s.take(i) =~= front_s.take(i));
            assert(t.take(i) =~= front_t.take(i));
            assert(differ_at(s, t, i));
        } else {
            let i = width - 1;
            assert(s.take(i) =~= front_s);
            assert(t.take(i) =~= front_t);
            assert(differ_at(s, t, i));
        }
    }
}

} // verus!
