//! The two framed containers that HDT sections are built from: arrays of
//! integers and sequences of bits.

use crate::checksum::{
    crc32_iscsi, crc8_smbus, lemma_u32_le_round_trip, u32_from_le, u32_le, with_crc32, with_crc8,
    write_u32_le, write_with_crc32, write_with_crc8,
};
use crate::vbyte::{lemma_vbyte_round_trip, vbyte, vbyte_value, vbyte_width, write_vbyte};
use vstd::prelude::*;

verus! {

/// The data region of an integer array: every entry as four little-endian
/// bytes, in order.
pub open spec fn u32_entries_le(entries: Seq<u32>) -> Seq<u8>
    decreases entries.len(),
{
    if entries.len() == 0 {
        Seq::empty()
    } else {
        u32_entries_le(entries.drop_last()) + u32_le(entries.last())
    }
}

/// The header region of an integer array: the type tag 1, the entry width of
/// 32 bits, and the number of entries as a variable-byte integer.
pub open spec fn u32_array_header(entries: Seq<u32>) -> Seq<u8> {
    seq![1u8, 32u8] + vbyte(entries.len())
}

/// The serialized form of an array of 32-bit integers: header region, its
/// CRC-8, data region, its CRC-32C.
pub open spec fn u32_array_section(entries: Seq<u32>) -> Seq<u8> {
    with_crc8(u32_array_header(entries)) + with_crc32(u32_entries_le(entries))
}

/// The data region of an array holds four bytes per entry.
pub proof fn lemma_u32_entries_le_len(entries: Seq<u32>)
    ensures
        u32_entries_le(entries).len() == 4 * entries.len(),
    decreases entries.len(),
{
    if entries.len() > 0 {
        lemma_u32_entries_le_len(entries.drop_last());
    }
}

/// Entry `i` of an array occupies bytes `4 * i` to `4 * i + 3` of its data
/// region, least significant byte first.
pub proof fn lemma_u32_entries_le_index(entries: Seq<u32>, i: int)
    requires
        0 <= i < entries.len(),
    ensures
        u32_entries_le(entries).len() == 4 * entries.len(),
        u32_entries_le(entries).subrange(4 * i, 4 * i + 4) == u32_le(entries[i]),
    decreases entries.len(),
{
    lemma_u32_entries_le_len(entries);
    lemma_u32_entries_le_len(entries.drop_last());
    let all = u32_entries_le(entries);
    if i == entries.len() - 1 {
        assert(all.subrange(4 * i, 4 * i + 4) =~= u32_le(entries.last()));
    } else {
        lemma_u32_entries_le_index(entries.drop_last(), i);
        assert(all.subrange(4 * i, 4 * i + 4) =~= u32_entries_le(entries.drop_last()).subrange(
            4 * i,
            4 * i + 4,
        ));
    }
}

/// Appends the serialized form of `entries` to `dest`.
pub fn save_u32_vec(entries: &Vec<u32>, dest: &mut Vec<u8>)
    ensures
        final(dest)@ == old(dest)@ + u32_array_section(entries@),
{
    let mut header: Vec<u8> = Vec::new();
    header.push(1u8);
    header.push(32u8);
    write_vbyte(entries.len(), &mut header);
    assert(header@ =~= u32_array_header(entries@));
    write_with_crc8(&header, dest);

    let mut data: Vec<u8> = Vec::new();
    let n = entries.len();
    let mut i: usize = 0;
    while i < n
        invariant
            n == entries.len(),
            i <= n,
            data@ == u32_entries_le(entries@.take(i as int)),
        decreases n - i,
    {
        write_u32_le(entries[i], &mut data);
        i += 1;
        assert(entries@.take(i as int).drop_last() =~= entries@.take(i - 1));
    }
    assert(entries@.take(n as int) =~= entries@);
    write_with_crc32(&data, dest);
    assert(dest@ =~= old(dest)@ + u32_array_section(entries@));
}

/// Bit `i` of a bit sequence as a number; positions past the end count as 0.
pub open spec fn bit_at(bits: Seq<bool>, i: int) -> nat {
    if 0 <= i < bits.len() && bits[i] {
        1
    } else {
        0
    }
}

/// Byte `j` of the packed form of `bits`: bit `8 * j + k` of the sequence is
/// bit `k` of the byte, and the positions past the end are zero.
pub open spec fn packed_byte(bits: Seq<bool>, j: int) -> u8 {
    (bit_at(bits, 8 * j) + 2 * bit_at(bits, 8 * j + 1) + 4 * bit_at(bits, 8 * j + 2) + 8 * bit_at(
        bits,
        8 * j + 3,
    ) + 16 * bit_at(bits, 8 * j + 4) + 32 * bit_at(bits, 8 * j + 5) + 64 * bit_at(bits, 8 * j + 6)
        + 128 * bit_at(bits, 8 * j + 7)) as u8
}

/// The data region of a bit sequence: the bits packed eight to a byte, as
/// many bytes as the bits need.
pub open spec fn packed_bits(bits: Seq<bool>) -> Seq<u8> {
    Seq::new(((bits.len() + 7) / 8) as nat, |j: int| packed_byte(bits, j))
}

/// The header region of a bit sequence: the type tag 1 and the number of bits
/// as a variable-byte integer.
pub open spec fn bitmap_header(bits: Seq<bool>) -> Seq<u8> {
    seq![1u8] + vbyte(bits.len())
}

/// The serialized form of a bit sequence: header region, its CRC-8, data
/// region, its CRC-32C.
pub open spec fn bitmap_section(bits: Seq<bool>) -> Seq<u8> {
    with_crc8(bitmap_header(bits)) + with_crc32(packed_bits(bits))
}

/// Two to the power `k`, for the eight places within a byte.
pub open spec fn place_value(k: int) -> int {
    if k == 0 {
        1
    } else if k == 1 {
        2
    } else if k == 2 {
        4
    } else if k == 3 {
        8
    } else if k == 4 {
        16
    } else if k == 5 {
        32
    } else if k == 6 {
        64
    } else {
        128
    }
}

proof fn lemma_quotient(x: int, d: int, q: int, r: int)
    by (nonlinear_arith)
    requires
        d > 0,
        0 <= r < d,
        x == d * q + r,
    ensures
        x / d == q,
        x % d == r,
{
}

proof fn lemma_byte_places(b0: nat, b1: nat, b2: nat, b3: nat, b4: nat, b5: nat, b6: nat, b7: nat)
    requires
        b0 <= 1,
        b1 <= 1,
        b2 <= 1,
        b3 <= 1,
        b4 <= 1,
        b5 <= 1,
        b6 <= 1,
        b7 <= 1,
    ensures
        ({
            let byte = (b0 + 2 * b1 + 4 * b2 + 8 * b3 + 16 * b4 + 32 * b5 + 64 * b6 + 128 * b7) as int;
            &&& byte < 256
            &&& (byte / 1) % 2 == b0
            &&& (byte / 2) % 2 == b1
            &&& (byte / 4) % 2 == b2
            &&& (byte / 8) % 2 == b3
            &&& (byte / 16) % 2 == b4
            &&& (byte / 32) % 2 == b5
            &&& (byte / 64) % 2 == b6
            &&& (byte / 128) % 2 == b7
        }),
{
    let byte = (b0 + 2 * b1 + 4 * b2 + 8 * b3 + 16 * b4 + 32 * b5 + 64 * b6 + 128 * b7) as int;
    let q1 = (b1 + 2 * b2 + 4 * b3 + 8 * b4 + 16 * b5 + 32 * b6 + 64 * b7) as int;
    let q2 = (b2 + 2 * b3 + 4 * b4 + 8 * b5 + 16 * b6 + 32 * b7) as int;
    let q3 = (b3 + 2 * b4 + 4 * b5 + 8 * b6 + 16 * b7) as int;
    let q4 = (b4 + 2 * b5 + 4 * b6 + 8 * b7) as int;
    let q5 = (b5 + 2 * b6 + 4 * b7) as int;
    let q6 = (b6 + 2 * b7) as int;
    let q7 = b7 as int;
    lemma_quotient(byte, 1, byte, 0);
    lemma_quotient(byte, 2, q1, b0 as int);
    lemma_quotient(byte, 4, q2, (b0 + 2 * b1) as int);
    lemma_quotient(byte, 8, q3, (b0 + 2 * b1 + 4 * b2) as int);
    lemma_quotient(byte, 16, q4, (b0 + 2 * b1 + 4 * b2 + 8 * b3) as int);
    lemma_quotient(byte, 32, q5, (b0 + 2 * b1 + 4 * b2 + 8 * b3 + 16 * b4) as int);
    lemma_quotient(byte, 64, q6, (b0 + 2 * b1 + 4 * b2 + 8 * b3 + 16 * b4 + 32 * b5) as int);
    lemma_quotient(
        byte,
        128,
        q7,
        (b0 + 2 * b1 + 4 * b2 + 8 * b3 + 16 * b4 + 32 * b5 + 64 * b6) as int,
    );
    lemma_quotient(byte, 2, q1, b0 as int);
    lemma_quotient(q1, 2, q2, b1 as int);
    lemma_quotient(q2, 2, q3, b2 as int);
    lemma_quotient(q3, 2, q4, b3 as int);
    lemma_quotient(q4, 2, q5, b4 as int);
    lemma_quotient(q5, 2, q6, b5 as int);
    lemma_quotient(q6, 2, q7, b6 as int);
    lemma_quotient(q7, 2, 0, b7 as int);
}

/// The bits that a data region of packed bits stands for: bit `i` is bit
/// `i % 8` of byte `i / 8`.
pub open spec fn unpacked_bits(data: Seq<u8>, count: nat) -> Seq<bool> {
    Seq::new(count, |i: int| (data[i / 8] as int / place_value(i % 8)) % 2 == 1)
}

/// Packed bits can be read back.
pub proof fn lemma_packed_bits_round_trip(bits: Seq<bool>)
    ensures
        packed_bits(bits).len() == (bits.len() + 7) / 8,
        unpacked_bits(packed_bits(bits), bits.len()) == bits,
{
    let data = packed_bits(bits);
    assert forall|i: int| 0 <= i < bits.len() implies (data[i / 8] as int / place_value(i % 8)) % 2
        == 1 <==> bits[i] by {
        let j = i / 8;
        lemma_byte_places(
            bit_at(bits, 8 * j),
            bit_at(bits, 8 * j + 1),
            bit_at(bits, 8 * j + 2),
            bit_at(bits, 8 * j + 3),
            bit_at(bits, 8 * j + 4),
            bit_at(bits, 8 * j + 5),
            bit_at(bits, 8 * j + 6),
            bit_at(bits, 8 * j + 7),
        );
        assert(data[j] == packed_byte(bits, j));
        assert(i == 8 * j + i % 8);
    }
    assert(unpacked_bits(data, bits.len()) =~= bits);
}

fn bit_value(bits: &Vec<bool>, i: usize) -> (b: u8)
    ensures
        b == bit_at(bits@, i as int),
{
    if i < bits.len() && bits[i] {
        1
    } else {
        0
    }
}

/// Appends the serialized form of `bits` to `dest`.
pub fn save_bitmap(bits: &Vec<bool>, dest: &mut Vec<u8>)
    ensures
        final(dest)@ == old(dest)@ + bitmap_section(bits@),
{
    let mut header: Vec<u8> = Vec::new();
    header.push(1u8);
    write_vbyte(bits.len(), &mut header);
    assert(header@ =~= bitmap_header(bits@));
    write_with_crc8(&header, dest);

    let n = bits.len();
    let count: usize = n / 8 + (if n % 8 == 0 { 0usize } else { 1usize });
    assert(count == (n + 7) / 8);
    let mut data: Vec<u8> = Vec::new();
    let mut j: usize = 0;
    while j < count
        invariant
            n == bits.len(),
            count == (n + 7) / 8,
            j <= count,
            data@.len() == j,
            forall|m: int| 0 <= m < j ==> data@[m] == packed_byte(bits@, m),
        decreases count - j,
    {
        let base: usize = 8 * j;
        let b0 = bit_value(bits, base);
        let b1 = bit_value(bits, base + 1);
        let b2 = bit_value(bits, base + 2);
        let b3 = bit_value(bits, base + 3);
        let b4 = bit_value(bits, base + 4);
        let b5 = bit_value(bits, base + 5);
        let b6 = bit_value(bits, base + 6);
        let b7 = bit_value(bits, base + 7);
        let byte: u8 = b0 + 2 * b1 + 4 * b2 + 8 * b3 + 16 * b4 + 32 * b5 + 64 * b6 + 128 * b7;
        data.push(byte);
        j += 1;
    }
    assert(data@ =~= packed_bits(bits@));
    write_with_crc32(&data, dest);
    assert(dest@ =~= old(dest)@ + bitmap_section(bits@));
}

/// The number of bytes before the first zero byte.
pub open spec fn until_zero(bytes: Seq<u8>) -> nat
    decreases bytes.len(),
{
    if bytes.len() == 0 || bytes[0] == 0 {
        0
    } else {
        1 + until_zero(bytes.drop_first())
    }
}

/// Bytes without a zero, then a zero byte, then anything: the first zero is
/// where the bytes without one end.
pub proof fn lemma_until_zero(text: Seq<u8>, rest: Seq<u8>)
    requires
        forall|k: int| 0 <= k < text.len() ==> #[trigger] text[k] != 0,
    ensures
        until_zero(text + seq![0u8] + rest) == text.len(),
    decreases text.len(),
{
    let all = text + seq![0u8] + rest;
    if text.len() == 0 {
        assert(all[0] == 0);
    } else {
        assert(all[0] == text[0]);
        assert(all.drop_first() =~= text.drop_first() + seq![0u8] + rest);
        assert forall|k: int| 0 <= k < text.drop_first().len() implies #[trigger] text.drop_first()[k]
            != 0 by {
            assert(text.drop_first()[k] == text[k + 1]);
        }
        lemma_until_zero(text.drop_first(), rest);
    }
}

/// What reading a framed part of a container gives: what the part holds,
/// and the number of bytes that it takes.
pub struct Framed<T> {
    /// What the part holds.
    pub content: T,
    /// The number of bytes of the part.
    pub len: nat,
}

/// The entries that a data region of `count` little-endian integers stands
/// for.
pub open spec fn u32_entries_from_le(data: Seq<u8>, count: nat) -> Seq<u32> {
    Seq::new(count, |i: int| u32_from_le(data.subrange(4 * i, 4 * i + 4)) as u32)
}

/// Reads an integer array from the start of `bytes`. The array is accepted
/// where the type tag and the entry width are those of a 32-bit array, the
/// byte after the header is the CRC-8 of the header, and the four bytes
/// after the data are the CRC-32C of the data.
#[verifier::opaque]
pub open spec fn read_u32_array(bytes: Seq<u8>) -> Option<Framed<Seq<u32>>> {
    let count = vbyte_value(bytes.skip(2));
    let header_len = 2 + vbyte_width(bytes.skip(2));
    let data_start = header_len + 1;
    let data_end = data_start + 4 * count;
    let data = bytes.subrange(data_start as int, data_end as int);
    if bytes.len() >= data_end + 4 && bytes[0] == 1 && bytes[1] == 32 && bytes[header_len as int]
        == crc8_smbus(bytes.take(header_len as int)) && u32_from_le(
        bytes.subrange(data_end as int, data_end as int + 4),
    ) == crc32_iscsi(data) {
        Some(Framed { content: u32_entries_from_le(data, count), len: (data_end + 4) as nat })
    } else {
        None
    }
}

/// The parts of a framed section lie where a reader looks for them: the
/// header at the start, its CRC-8 in the byte after it, then the data, then
/// the CRC-32C of the data in four bytes.
pub proof fn lemma_section_parts(header: Seq<u8>, data: Seq<u8>, rest: Seq<u8>, skipped: int)
    requires
        0 <= skipped <= header.len(),
    ensures
        ({
            let bytes = with_crc8(header) + with_crc32(data) + rest;
            let data_start = header.len() + 1;
            let data_end = data_start + data.len();
            &&& bytes.len() == data_end + 4 + rest.len()
            &&& bytes.take(header.len() as int) == header
            &&& bytes[header.len() as int] == crc8_smbus(header)
            &&& bytes.subrange(data_start as int, data_end as int) == data
            &&& u32_from_le(bytes.subrange(data_end as int, data_end as int + 4)) == crc32_iscsi(
                data,
            )
            &&& bytes.skip(skipped) == header.skip(skipped) + (seq![crc8_smbus(header)]
                + with_crc32(data) + rest)
            &&& forall|k: int| 0 <= k < header.len() ==> bytes[k] == header[k]
        }),
{
    let bytes = with_crc8(header) + with_crc32(data) + rest;
    let data_start = header.len() + 1;
    let data_end = data_start + data.len();
    let sum32 = u32_le(crc32_iscsi(data));
    lemma_u32_le_round_trip(crc32_iscsi(data));
    assert(bytes.take(header.len() as int) =~= header);
    assert(bytes.subrange(data_start as int, data_end as int) =~= data);
    assert(bytes.subrange(data_end as int, data_end as int + 4) =~= sum32);
    assert(bytes.skip(skipped) =~= header.skip(skipped) + (seq![crc8_smbus(header)] + with_crc32(
        data,
    ) + rest));
}

/// A stored integer array validates and reads back: both checksums hold,
/// the entries are those that were stored, and reading stops where the
/// array ends, whatever follows it.
pub proof fn lemma_u32_array_reads_back(entries: Seq<u32>, rest: Seq<u8>)
    ensures
        read_u32_array(u32_array_section(entries) + rest) == Some(
            Framed { content: entries, len: u32_array_section(entries).len() },
        ),
{
    reveal(read_u32_array);
    let header = u32_array_header(entries);
    let data = u32_entries_le(entries);
    let count = entries.len();
    lemma_u32_entries_le_len(entries);
    lemma_section_parts(header, data, rest, 2);
    assert(header.skip(2) =~= vbyte(count));
    lemma_vbyte_round_trip(count, seq![crc8_smbus(header)] + with_crc32(data) + rest);
    assert forall|i: int| 0 <= i < count implies u32_from_le(data.subrange(4 * i, 4 * i + 4))
        == entries[i] by {
        lemma_u32_entries_le_index(entries, i);
        lemma_u32_le_round_trip(entries[i]);
    }
    assert(u32_entries_from_le(data, count) =~= entries);
}

/// Reads a bit sequence from the start of `bytes`. It is accepted where the
/// type tag is that of a bit sequence, the byte after the header is the
/// CRC-8 of the header, and the four bytes after the data are the CRC-32C
/// of the data.
#[verifier::opaque]
pub open spec fn read_bitmap(bytes: Seq<u8>) -> Option<Framed<Seq<bool>>> {
    let count = vbyte_value(bytes.skip(1));
    let header_len = 1 + vbyte_width(bytes.skip(1));
    let data_start = header_len + 1;
    let data_end = data_start + (count + 7) / 8;
    let data = bytes.subrange(data_start as int, data_end as int);
    if bytes.len() >= data_end + 4 && bytes[0] == 1 && bytes[header_len as int] == crc8_smbus(
        bytes.take(header_len as int),
    ) && u32_from_le(bytes.subrange(data_end as int, data_end as int + 4)) == crc32_iscsi(data) {
        Some(Framed { content: unpacked_bits(data, count), len: (data_end + 4) as nat })
    } else {
        None
    }
}

/// A stored bit sequence validates and reads back: both checksums hold, the
/// bits are those that were stored, and reading stops where the sequence
/// ends, whatever follows it.
pub proof fn lemma_bitmap_reads_back(bits: Seq<bool>, rest: Seq<u8>)
    ensures
        read_bitmap(bitmap_section(bits) + rest) == Some(
            Framed { content: bits, len: bitmap_section(bits).len() },
        ),
{
    reveal(read_bitmap);
    let header = bitmap_header(bits);
    let data = packed_bits(bits);
    let count = bits.len();
    lemma_packed_bits_round_trip(bits);
    lemma_section_parts(header, data, rest, 1);
    assert(header.skip(1) =~= vbyte(count));
    lemma_vbyte_round_trip(count, seq![crc8_smbus(header)] + with_crc32(data) + rest);
}

} // verus!
