//! Dictionary sections in plain front coding.

use crate::checksum::{
    append_bytes, crc32_iscsi, crc8_smbus, lemma_u32_le_round_trip, u32_from_le, u32_le,
    with_crc32, with_crc8, write_with_crc32, write_with_crc8,
};
use crate::common::{
    lemma_u32_array_reads_back, lemma_until_zero, read_u32_array, save_u32_vec,
    u32_array_section, until_zero, Framed,
};
use crate::term_set::TermSet;
use crate::text::{
    common_prefix_len, has_no_nul, lemma_common_prefix, lemma_utf8_no_zero_byte, parting,
    suffix_bytes,
};
use crate::vbyte::{lemma_vbyte_round_trip, vbyte, vbyte_value, vbyte_width, write_vbyte};
use vstd::prelude::*;
use vstd::utf8::{decode_utf8, encode_utf8, encode_utf8_decode_utf8};

verus! {

/// The number of terms in a block. The first term of a block is stored in
/// full, each of the others by what it adds to the term before it.
pub const BLOCK_SIZE: usize = 16;

/// The bytes that stand for term `i` of `terms`. At the head of a block they
/// are the term's UTF-8 form. Elsewhere they are the number of leading
/// characters that the term shares with the one before it, as a variable-byte
/// integer, and the UTF-8 form of the characters after those. A zero byte
/// ends the entry.
pub open spec fn front_coded_entry(terms: Seq<Seq<char>>, i: int) -> Seq<u8>
    recommends
        0 <= i < terms.len(),
{
    if i % 16 == 0 {
        encode_utf8(terms[i]) + seq![0u8]
    } else {
        let shared = common_prefix_len(terms[i - 1], terms[i]);
        vbyte(shared) + encode_utf8(terms[i].skip(shared as int)) + seq![0u8]
    }
}

/// The entries of the first `n` terms, one after the other.
pub open spec fn front_coded_upto(terms: Seq<Seq<char>>, n: nat) -> Seq<u8>
    recommends
        n <= terms.len(),
    decreases n,
{
    if n == 0 {
        Seq::empty()
    } else {
        front_coded_upto(terms, (n - 1) as nat) + front_coded_entry(terms, n - 1)
    }
}

/// The front-coded form of a list of terms.
pub open spec fn front_coded(terms: Seq<Seq<char>>) -> Seq<u8> {
    front_coded_upto(terms, terms.len())
}

/// The number of blocks that `n` terms fill or begin.
pub open spec fn block_count(n: nat) -> nat {
    (n + 15) / 16
}

/// Where block `k` begins in the front-coded form; for `k` at the number of
/// blocks, where the form ends.
pub open spec fn block_start(terms: Seq<Seq<char>>, k: int) -> nat {
    if 16 * k <= terms.len() {
        front_coded_upto(terms, (16 * k) as nat).len()
    } else {
        front_coded(terms).len()
    }
}

/// The offsets of a section: the start of every block, and the length of the
/// front-coded form as the last entry.
pub open spec fn block_offsets(terms: Seq<Seq<char>>) -> Seq<u32> {
    Seq::new(block_count(terms.len()) + 1, |k: int| block_start(terms, k) as u32)
}

/// The front-coded form only grows with the number of terms.
pub proof fn lemma_front_coded_grows(terms: Seq<Seq<char>>, i: nat, j: nat)
    requires
        i <= j,
    ensures
        front_coded_upto(terms, i).len() <= front_coded_upto(terms, j).len(),
    decreases j,
{
    if i < j {
        lemma_front_coded_grows(terms, i, (j - 1) as nat);
    }
}

/// The entries of the terms from `i` on, one after the other.
pub open spec fn front_coded_from(terms: Seq<Seq<char>>, i: nat) -> Seq<u8>
    decreases terms.len() - i,
{
    if i >= terms.len() {
        Seq::empty()
    } else {
        front_coded_entry(terms, i as int) + front_coded_from(terms, i + 1)
    }
}

/// The front-coded form is the entries before any place followed by the
/// entries from that place on.
pub proof fn lemma_front_coded_split(terms: Seq<Seq<char>>, i: nat)
    requires
        i <= terms.len(),
    ensures
        front_coded(terms) == front_coded_upto(terms, i) + front_coded_from(terms, i),
    decreases terms.len() - i,
{
    if i == terms.len() {
        assert(front_coded_upto(terms, i) + front_coded_from(terms, i) =~= front_coded(terms));
    } else {
        lemma_front_coded_split(terms, i + 1);
        assert(front_coded_upto(terms, i + 1) + front_coded_from(terms, i + 1)
            =~= front_coded_upto(terms, i) + front_coded_from(terms, i));
    }
}

/// The terms that front-coded bytes stand for: `count` terms, the first of
/// them term `index` of its section, `previous` the term before it. The head
/// of a block is read up to its zero byte. Any other term takes as many
/// leading characters of the term before it as its variable-byte integer
/// says, and goes on with what is read up to the zero byte.
pub open spec fn front_decoded(bytes: Seq<u8>, index: nat, count: nat, previous: Seq<char>) -> Seq<
    Seq<char>,
>
    decreases count,
{
    if count == 0 {
        Seq::empty()
    } else if index % 16 == 0 {
        let len = until_zero(bytes);
        let term = decode_utf8(bytes.take(len as int));
        seq![term] + front_decoded(
            bytes.skip(len as int + 1),
            index + 1,
            (count - 1) as nat,
            term,
        )
    } else {
        let shared = vbyte_value(bytes);
        let rest = bytes.skip(vbyte_width(bytes) as int);
        let len = until_zero(rest);
        let term = previous.take(shared as int) + decode_utf8(rest.take(len as int));
        seq![term] + front_decoded(rest.skip(len as int + 1), index + 1, (count - 1) as nat, term)
    }
}

/// No term of the list holds the zero character.
pub open spec fn terms_without_nul(terms: Seq<Seq<char>>) -> bool {
    forall|i: int| 0 <= i < terms.len() ==> has_no_nul(#[trigger] terms[i])
}

#[verifier::rlimit(30)]
proof fn lemma_front_decoded_from(terms: Seq<Seq<char>>, i: nat)
    requires
        terms_without_nul(terms),
        i <= terms.len(),
    ensures
        front_decoded(
            front_coded_from(terms, i),
            i,
            (terms.len() - i) as nat,
            if i == 0 {
                Seq::empty()
            } else {
                terms[i - 1]
            },
        ) == terms.skip(i as int),
    decreases terms.len() - i,
{
    let count = (terms.len() - i) as nat;
    let previous = if i == 0 {
        Seq::empty()
    } else {
        terms[i - 1]
    };
    let bytes = front_coded_from(terms, i);
    if i == terms.len() {
        assert(terms.skip(i as int) =~= Seq::<Seq<char>>::empty());
    } else {
        let term = terms[i as int];
        let rest = front_coded_from(terms, i + 1);
        lemma_front_decoded_from(terms, i + 1);
        assert(has_no_nul(term));
        if i % 16 == 0 {
            let text = encode_utf8(term);
            lemma_utf8_no_zero_byte(term);
            lemma_until_zero(text, rest);
            assert(bytes =~= text + seq![0u8] + rest);
            assert(bytes.take(text.len() as int) =~= text);
            assert(bytes.skip(text.len() as int + 1) =~= rest);
            encode_utf8_decode_utf8(term);
        } else {
            let shared = common_prefix_len(previous, term);
            lemma_common_prefix(previous, term, 0);
            let tail = term.skip(shared as int);
            let text = encode_utf8(tail);
            assert forall|k: int| 0 <= k < tail.len() implies (#[trigger] tail[k]) as u32 != 0 by {
                assert(tail[k] == term[k + shared]);
            }
            lemma_utf8_no_zero_byte(tail);
            let after = text + seq![0u8] + rest;
            assert(bytes =~= vbyte(shared) + after);
            lemma_vbyte_round_trip(shared, after);
            assert(bytes.skip(vbyte(shared).len() as int) =~= after);
            lemma_until_zero(text, rest);
            assert(after.take(text.len() as int) =~= text);
            assert(after.skip(text.len() as int + 1) =~= rest);
            encode_utf8_decode_utf8(tail);
            assert(previous.take(shared as int) + tail =~= term);
        }
        assert(terms.skip(i as int) =~= seq![term] + terms.skip(i as int + 1));
    }
}

/// A front-coded section can be read back: decoding the front-coded form of
/// a list of terms, none of which holds the zero character, gives the list.
pub proof fn lemma_front_coding_round_trip(terms: Seq<Seq<char>>)
    requires
        terms_without_nul(terms),
    ensures
        front_decoded(front_coded(terms), 0, terms.len(), Seq::empty()) == terms,
{
    lemma_front_coded_split(terms, 0);
    assert(front_coded_upto(terms, 0) + front_coded_from(terms, 0) =~= front_coded_from(terms, 0));
    lemma_front_decoded_from(terms, 0);
    assert(terms.skip(0) =~= terms);
}

/// What a front-coded section holds.
pub struct LogSequence2View {
    /// The front-coded terms.
    pub compressed_terms: Seq<u8>,
    /// The start of every block and the end of the last.
    pub offsets: Seq<u32>,
    /// The number of terms.
    pub num_terms: nat,
}

/// The section that front coding makes of `terms`.
pub open spec fn front_coded_section(terms: Seq<Seq<char>>) -> LogSequence2View {
    LogSequence2View {
        compressed_terms: front_coded(terms),
        offsets: block_offsets(terms),
        num_terms: terms.len(),
    }
}

/// The header region of a front-coded section: the type tag 2, the number of
/// terms, the length of the front-coded form and the block size, the three
/// as variable-byte integers.
pub open spec fn pfc_header(section: LogSequence2View) -> Seq<u8> {
    seq![2u8] + vbyte(section.num_terms) + vbyte(section.compressed_terms.len()) + vbyte(16)
}

/// The serialized form of a front-coded section: header region, its CRC-8,
/// the offsets as an integer array, the front-coded terms, their CRC-32C.
pub open spec fn pfc_section(section: LogSequence2View) -> Seq<u8> {
    with_crc8(pfc_header(section)) + u32_array_section(section.offsets) + with_crc32(
        section.compressed_terms,
    )
}

/// Reads a front-coded section from the start of `bytes`. It is accepted
/// where the type tag is that of plain front coding, the block size is 16,
/// the byte after the header is the CRC-8 of the header, the offsets are an
/// integer array that is accepted, and the four bytes after the front-coded
/// terms are their CRC-32C.
#[verifier::opaque]
pub open spec fn read_pfc_section(bytes: Seq<u8>) -> Option<Framed<LogSequence2View>> {
    let first = bytes.skip(1);
    let num_terms = vbyte_value(first);
    let second = first.skip(vbyte_width(first) as int);
    let data_len = vbyte_value(second);
    let third = second.skip(vbyte_width(second) as int);
    let block_size = vbyte_value(third);
    let header_len = 1 + vbyte_width(first) + vbyte_width(second) + vbyte_width(third);
    if bytes.len() > header_len && bytes[0] == 2 && block_size == 16 && bytes[header_len as int]
        == crc8_smbus(bytes.take(header_len as int)) {
        match read_u32_array(bytes.skip(header_len as int + 1)) {
            Some(offsets) => {
                let data_start = header_len + 1 + offsets.len;
                let data_end = data_start + data_len;
                let data = bytes.subrange(data_start as int, data_end as int);
                if bytes.len() >= data_end + 4 && u32_from_le(
                    bytes.subrange(data_end as int, data_end as int + 4),
                ) == crc32_iscsi(data) {
                    Some(
                        Framed {
                            content: LogSequence2View {
                                compressed_terms: data,
                                offsets: offsets.content,
                                num_terms,
                            },
                            len: (data_end + 4) as nat,
                        },
                    )
                } else {
                    None
                }
            },
            None => None,
        }
    } else {
        None
    }
}

/// The three numbers of a header are read back from the bytes that follow
/// its type tag, whatever follows the header.
proof fn lemma_pfc_header_reads_back(section: LogSequence2View, tail: Seq<u8>)
    ensures
        ({
            let bytes = pfc_header(section) + tail;
            let first = bytes.skip(1);
            let second = first.skip(vbyte_width(first) as int);
            let third = second.skip(vbyte_width(second) as int);
            &&& vbyte_value(first) == section.num_terms
            &&& vbyte_value(second) == section.compressed_terms.len()
            &&& vbyte_value(third) == 16
            &&& 1 + vbyte_width(first) + vbyte_width(second) + vbyte_width(third) == pfc_header(
                section,
            ).len()
            &&& bytes[0] == 2
        }),
{
    let v1 = vbyte(section.num_terms);
    let v2 = vbyte(section.compressed_terms.len());
    let v3 = vbyte(16);
    let bytes = pfc_header(section) + tail;
    let first = bytes.skip(1);
    assert(first =~= v1 + (v2 + v3 + tail));
    lemma_vbyte_round_trip(section.num_terms, v2 + v3 + tail);
    let second = first.skip(v1.len() as int);
    assert(second =~= v2 + (v3 + tail));
    lemma_vbyte_round_trip(section.compressed_terms.len(), v3 + tail);
    let third = second.skip(v2.len() as int);
    assert(third =~= v3 + tail);
    lemma_vbyte_round_trip(16, tail);
}

/// The parts of a stored section lie where a reader looks for them.
proof fn lemma_pfc_section_parts(section: LogSequence2View, rest: Seq<u8>)
    ensures
        ({
            let header = pfc_header(section);
            let offsets = u32_array_section(section.offsets);
            let data = section.compressed_terms;
            let bytes = pfc_section(section) + rest;
            let data_start = header.len() + 1 + offsets.len();
            let data_end = data_start + data.len();
            &&& bytes == header + (seq![crc8_smbus(header)] + offsets + with_crc32(data) + rest)
            &&& bytes.len() == data_end + 4 + rest.len()
            &&& bytes.take(header.len() as int) == header
            &&& bytes[header.len() as int] == crc8_smbus(header)
            &&& bytes.skip(header.len() as int + 1) == offsets + (with_crc32(data) + rest)
            &&& bytes.subrange(data_start as int, data_end as int) == data
            &&& u32_from_le(bytes.subrange(data_end as int, data_end as int + 4)) == crc32_iscsi(
                data,
            )
        }),
{
    let header = pfc_header(section);
    let offsets = u32_array_section(section.offsets);
    let data = section.compressed_terms;
    let bytes = pfc_section(section) + rest;
    let data_start = header.len() + 1 + offsets.len();
    let data_end = data_start + data.len();
    lemma_u32_le_round_trip(crc32_iscsi(data));
    assert(bytes =~= header + (seq![crc8_smbus(header)] + offsets + with_crc32(data) + rest));
    assert(bytes.take(header.len() as int) =~= header);
    assert(bytes.skip(header.len() as int + 1) =~= offsets + (with_crc32(data) + rest));
    assert(bytes.subrange(data_start as int, data_end as int) =~= data);
    assert(bytes.subrange(data_end as int, data_end as int + 4) =~= u32_le(crc32_iscsi(data)));
}

/// A stored front-coded section validates and reads back: the checksums of
/// the header, of the offsets and of the front-coded terms hold, what is
/// read is what was stored, and reading stops where the section ends,
/// whatever follows it.
pub proof fn lemma_pfc_section_reads_back(section: LogSequence2View, rest: Seq<u8>)
    ensures
        read_pfc_section(pfc_section(section) + rest) == Some(
            Framed { content: section, len: pfc_section(section).len() },
        ),
{
    reveal(read_pfc_section);
    let header = pfc_header(section);
    let offsets = u32_array_section(section.offsets);
    let data = section.compressed_terms;
    lemma_pfc_section_parts(section, rest);
    lemma_pfc_header_reads_back(
        section,
        seq![crc8_smbus(header)] + offsets + with_crc32(data) + rest,
    );
    lemma_u32_array_reads_back(section.offsets, with_crc32(data) + rest);
}

/// A stored dictionary section gives its terms back: read from the bytes it
/// was stored in, and decoded, the section of a list of terms without the
/// zero character is that list.
pub proof fn lemma_dictionary_section_reads_back(terms: Seq<Seq<char>>, rest: Seq<u8>)
    requires
        terms_without_nul(terms),
    ensures
        ({
            let read = read_pfc_section(pfc_section(front_coded_section(terms)) + rest);
            &&& read is Some
            &&& front_decoded(
                read->0.content.compressed_terms,
                0,
                read->0.content.num_terms,
                Seq::empty(),
            ) == terms
        }),
{
    lemma_pfc_section_reads_back(front_coded_section(terms), rest);
    lemma_front_coding_round_trip(terms);
}

/// The one way in which front coding fails.
#[derive(Clone, Copy, Debug, PartialEq, Eq, Structural)]
pub enum CompressError {
    /// The front-coded form is longer than a 32-bit offset can address.
    TooLarge,
}

/// A dictionary section in plain front coding, ready to be stored.
pub struct LogSequence2 {
    compressed_terms: Vec<u8>,
    offsets: Vec<u32>,
    num_terms: usize,
}

impl View for LogSequence2 {
    type V = LogSequence2View;

    closed spec fn view(&self) -> LogSequence2View {
        LogSequence2View {
            compressed_terms: self.compressed_terms@,
            offsets: self.offsets@,
            num_terms: self.num_terms as nat,
        }
    }
}

impl LogSequence2 {
    /// Front-codes the terms of `set` in blocks of sixteen. The result is the
    /// section of those terms; it fails only where the front-coded form does
    /// not fit 32-bit offsets.
    pub fn compress(set: &TermSet) -> (result: Result<LogSequence2, CompressError>)
        ensures
            match result {
                Ok(section) => front_coded(set@).len() <= u32::MAX && section@
                    == front_coded_section(set@),
                Err(_) => front_coded(set@).len() > u32::MAX,
            },
    {
        let ghost terms = set@;
        let num_terms = set.len();
        let mut compressed_terms: Vec<u8> = Vec::new();
        let mut offsets: Vec<u32> = Vec::new();
        let mut i: usize = 0;
        while i < num_terms
            invariant
                terms == set@,
                num_terms == terms.len(),
                i <= num_terms,
                compressed_terms@ == front_coded_upto(terms, i as nat),
                offsets@.len() == block_count(i as nat),
                forall|k: int|
                    0 <= k < offsets@.len() ==> #[trigger] offsets@[k] as nat == block_start(
                        terms,
                        k,
                    ),
            decreases num_terms - i,
        {
            let term = set.term(i);
            if i % BLOCK_SIZE == 0 {
                if compressed_terms.len() > u32::MAX as usize {
                    proof {
                        lemma_front_coded_grows(terms, i as nat, terms.len());
                    }
                    return Err(CompressError::TooLarge);
                }
                let ghost before = offsets@;
                assert(before.len() == i as int / 16);
                assert(16 * (i as int / 16) == i);
                assert(block_start(terms, i as int / 16) == compressed_terms@.len());
                offsets.push(compressed_terms.len() as u32);
                assert(block_count((i + 1) as nat) == before.len() + 1);
                assert forall|k: int| 0 <= k < offsets@.len() implies #[trigger] offsets@[k] as nat
                    == block_start(terms, k) by {
                    if k < before.len() {
                        assert(offsets@[k] == before[k]);
                    }
                }
                append_bytes(term.as_str().as_bytes(), &mut compressed_terms);
            } else {
                assert(block_count((i + 1) as nat) == block_count(i as nat));
                let previous = set.term(i - 1);
                let p = parting(previous.as_str(), term.as_str());
                proof {
                    lemma_common_prefix(terms[i - 1], terms[i as int], 0);
                }
                write_vbyte(p.shared, &mut compressed_terms);
                append_bytes(suffix_bytes(term.as_str(), p.shared), &mut compressed_terms);
                }
            compressed_terms.push(0u8);
            assert(compressed_terms@ =~= front_coded_upto(terms, i as nat) + front_coded_entry(
                terms,
                i as int,
            ));
            i += 1;
        }
        if compressed_terms.len() > u32::MAX as usize {
            return Err(CompressError::TooLarge);
        }
        offsets.push(compressed_terms.len() as u32);
        let section = LogSequence2 { compressed_terms, offsets, num_terms };
        proof {
            let k = block_count(terms.len()) as int;
            assert(16 * k >= terms.len());
            if 16 * k == terms.len() {
                assert(front_coded_upto(terms, (16 * k) as nat) == front_coded(terms));
            }
            assert(section.offsets@ =~= block_offsets(terms));
        }
        Ok(section)
    }

    /// The front-coded terms.
    pub fn compressed_terms(&self) -> (bytes: &Vec<u8>)
        ensures
            bytes@ == self@.compressed_terms,
    {
        &self.compressed_terms
    }

    /// The start of every block, and the end of the last.
    pub fn offsets(&self) -> (offsets: &Vec<u32>)
        ensures
            offsets@ == self@.offsets,
    {
        &self.offsets
    }

    /// The number of terms in the section.
    pub fn num_terms(&self) -> (n: usize)
        ensures
            n == self@.num_terms,
    {
        self.num_terms
    }

    /// Appends the serialized form of the section to `dest`.
    pub fn save(&self, dest: &mut Vec<u8>)
        ensures
            final(dest)@ == old(dest)@ + pfc_section(self@),
    {
        let mut header: Vec<u8> = Vec::new();
        header.push(2u8);
        write_vbyte(self.num_terms, &mut header);
        write_vbyte(self.compressed_terms.len(), &mut header);
        write_vbyte(BLOCK_SIZE, &mut header);
        assert(header@ =~= pfc_header(self@));
        write_with_crc8(&header, dest);
        save_u32_vec(&self.offsets, dest);
        write_with_crc32(&self.compressed_terms, dest);
        assert(dest@ =~= old(dest)@ + pfc_section(self@));
    }
}

} // verus!
