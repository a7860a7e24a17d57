use rdf2hdt::checksum::{write_u16_le, write_u32_le, write_with_crc32, write_with_crc8};
use rdf2hdt::common::{save_bitmap, save_u32_vec};
use rdf2hdt::log_sequence::LogSequence2;
use rdf2hdt::term_set::TermSet;
use rdf2hdt::vbyte::write_vbyte;
use std::io::BufReader;

fn vbyte_of(n: usize) -> Vec<u8> {
    let mut out = Vec::new();
    write_vbyte(n, &mut out);
    out
}

fn crc8_of(bytes: &[u8]) -> u8 {
    crc::Crc::<u8>::new(&crc::CRC_8_SMBUS).checksum(bytes)
}

fn crc32_of(bytes: &[u8]) -> [u8; 4] {
    crc::Crc::<u32>::new(&crc::CRC_32_ISCSI).checksum(bytes).to_le_bytes()
}

fn set_of(terms: &[&str]) -> TermSet {
    TermSet::from_terms(terms.iter().map(|t| t.to_string()).collect())
}

#[test]
fn vbyte_sets_the_high_bit_on_the_last_byte() {
    assert_eq!(vbyte_of(0), vec![0x80]);
    assert_eq!(vbyte_of(1), vec![0x81]);
    assert_eq!(vbyte_of(16), vec![0x90]);
    assert_eq!(vbyte_of(127), vec![0xff]);
    assert_eq!(vbyte_of(128), vec![0x00, 0x81]);
    assert_eq!(vbyte_of(300), vec![0x2c, 0x82]);
    assert_eq!(vbyte_of(16384), vec![0x00, 0x00, 0x81]);
}

#[test]
fn vbyte_appends_to_what_is_there() {
    let mut out = vec![7u8, 9];
    write_vbyte(129, &mut out);
    assert_eq!(out, vec![7, 9, 0x01, 0x81]);
}

#[test]
fn vbyte_is_read_by_the_reader() {
    for n in [0usize, 5, 127, 128, 255, 1000, 65535, 1 << 20, usize::MAX] {
        let bytes = vbyte_of(n);
        let (value, used) = hdt::containers::vbyte::decode_vbyte_delta(&bytes, 0);
        assert_eq!(value, n);
        assert_eq!(used, bytes.len());
    }
}

#[test]
fn checksums_have_their_check_values() {
    let region = b"123456789".to_vec();
    let mut out = Vec::new();
    write_with_crc8(&region, &mut out);
    assert_eq!(&out[..9], &region[..]);
    assert_eq!(&out[9..], &[0xf4]);
    let mut out = Vec::new();
    write_with_crc32(&region, &mut out);
    assert_eq!(&out[..9], &region[..]);
    assert_eq!(&out[9..], &[0x83, 0x92, 0x06, 0xe3]);
}

#[test]
fn integers_are_written_least_significant_byte_first() {
    let mut out = Vec::new();
    write_u32_le(0x12345678, &mut out);
    write_u16_le(0xabcd, &mut out);
    assert_eq!(out, vec![0x78, 0x56, 0x34, 0x12, 0xcd, 0xab]);
}

#[test]
fn array_section_has_header_data_and_checksums() {
    let mut out = Vec::new();
    save_u32_vec(&vec![1, 258, 0xffffffff], &mut out);
    let header = [0x01u8, 0x20, 0x83];
    let data = [1u8, 0, 0, 0, 2, 1, 0, 0, 0xff, 0xff, 0xff, 0xff];
    let mut expected = header.to_vec();
    expected.push(crc8_of(&header));
    expected.extend_from_slice(&data);
    expected.extend_from_slice(&crc32_of(&data));
    assert_eq!(out, expected);
}

#[test]
fn empty_array_section_has_no_data() {
    let mut out = Vec::new();
    save_u32_vec(&Vec::new(), &mut out);
    let header = [0x01u8, 0x20, 0x80];
    let mut expected = header.to_vec();
    expected.push(crc8_of(&header));
    expected.extend_from_slice(&crc32_of(&[]));
    assert_eq!(out, expected);
}

#[test]
fn array_section_is_read_by_the_reader() {
    let entries = vec![0u32, 7, 21, 1 << 31, 99];
    let mut out = Vec::new();
    save_u32_vec(&entries, &mut out);
    let sequence = hdt::containers::Sequence::read(&mut BufReader::new(&out[..])).unwrap();
    assert_eq!(sequence.entries, 5);
    assert_eq!(sequence.bits_per_entry, 32);
    for (i, e) in entries.iter().enumerate() {
        assert_eq!(sequence.get(i), *e as usize);
    }
}

#[test]
fn bits_are_packed_from_the_lowest_bit_up() {
    let bits = vec![true, false, true, true, false, false, false, false, true];
    let mut out = Vec::new();
    save_bitmap(&bits, &mut out);
    let header = [0x01u8, 0x89];
    let data = [0x0du8, 0x01];
    let mut expected = header.to_vec();
    expected.push(crc8_of(&header));
    expected.extend_from_slice(&data);
    expected.extend_from_slice(&crc32_of(&data));
    assert_eq!(out, expected);
}

#[test]
fn eight_bits_fill_one_byte() {
    let bits = vec![false, false, false, false, false, false, false, true];
    let mut out = Vec::new();
    save_bitmap(&bits, &mut out);
    assert_eq!(out.len(), 2 + 1 + 1 + 4);
    assert_eq!(out[3], 0x80);
}

#[test]
fn bitmap_section_is_read_by_the_reader() {
    let bits: Vec<bool> = (0..70).map(|i| i % 3 == 0 || i == 69).collect();
    let mut out = Vec::new();
    save_bitmap(&bits, &mut out);
    let bitmap = hdt::containers::Bitmap::read(&mut BufReader::new(&out[..])).unwrap();
    assert_eq!(bitmap.num_ones(), bits.iter().filter(|b| **b).count());
    let mut seen = 0;
    for (i, bit) in bits.iter().enumerate() {
        if *bit {
            assert_eq!(bitmap.select1(seen), Some(i));
            seen += 1;
        }
    }
}

#[test]
fn front_coding_keeps_heads_and_shares_prefixes() {
    let section = LogSequence2::compress(&set_of(&["apple", "apricot", "banana"])).unwrap();
    let mut expected = b"apple\0".to_vec();
    expected.push(0x82);
    expected.extend_from_slice(b"ricot\0");
    expected.push(0x80);
    expected.extend_from_slice(b"banana\0");
    assert_eq!(section.compressed_terms(), &expected);
    assert_eq!(section.offsets(), &vec![0u32, 21]);
    assert_eq!(section.num_terms(), 3);
}

#[test]
fn front_coding_of_no_terms() {
    let section = LogSequence2::compress(&TermSet::new()).unwrap();
    assert_eq!(section.num_terms(), 0);
    assert_eq!(section.compressed_terms(), &Vec::<u8>::new());
    assert_eq!(section.offsets(), &vec![0u32]);
}

#[test]
fn front_coding_starts_a_block_every_sixteen_terms() {
    let names: Vec<String> = (0..33).map(|i| format!("t{:02}", i)).collect();
    let section = LogSequence2::compress(&TermSet::from_terms(names)).unwrap();
    // A head takes "tNN\0", any other term the shared length, what is left and "\0".
    let head = 4u32;
    let at_tens = 1 + 2 + 1;
    let other = 1 + 1 + 1;
    let first_block = head + 8 * other + at_tens + 6 * other;
    let second_block = head + 3 * other + at_tens + 9 * other + at_tens + other;
    assert_eq!(section.offsets(), &vec![0, first_block, first_block + second_block, first_block + second_block + head]);
    assert_eq!(section.num_terms(), 33);
    assert_eq!(section.compressed_terms().len() as u32, first_block + second_block + head);
}

#[test]
fn shared_prefix_is_counted_in_characters() {
    let section = LogSequence2::compress(&set_of(&["\u{e9}t\u{e9}", "\u{e9}t\u{e9}s"])).unwrap();
    let mut expected = "\u{e9}t\u{e9}".as_bytes().to_vec();
    expected.push(0);
    expected.push(0x83);
    expected.extend_from_slice(b"s\0");
    assert_eq!(section.compressed_terms(), &expected);
}

#[test]
fn stored_section_has_header_offsets_and_terms() {
    let section = LogSequence2::compress(&set_of(&["a", "ab"])).unwrap();
    let mut out = Vec::new();
    section.save(&mut out);
    let compressed = [b'a', 0, 0x81, b'b', 0];
    let header = [0x02u8, 0x82, 0x85, 0x90];
    let mut expected = header.to_vec();
    expected.push(crc8_of(&header));
    save_u32_vec(&vec![0, 5], &mut expected);
    expected.extend_from_slice(&compressed);
    expected.extend_from_slice(&crc32_of(&compressed));
    assert_eq!(out, expected);
}

#[test]
fn stored_section_is_read_by_the_reader() {
    let names: Vec<String> = (0..40).map(|i| format!("http://example.org/term/{}", i * i)).collect();
    let set = TermSet::from_terms(names);
    let section = LogSequence2::compress(&set).unwrap();
    let mut out = Vec::new();
    section.save(&mut out);
    let read = hdt::dict_sect_pfc::DictSectPFC::read(&mut BufReader::new(&out[..]))
        .unwrap()
        .join()
        .unwrap()
        .unwrap();
    assert_eq!(read.num_strings, 40);
    assert_eq!(read.block_size, 16);
    for i in 0..set.len() {
        assert_eq!(&read.extract(i + 1).unwrap(), set.term(i));
        assert_eq!(read.string_to_id(set.term(i)), i + 1);
    }
}
