//! Control blocks: the framed records that open every part of an HDT
//! container.

use crate::checksum::{append_bytes, crc16, crc16_arc, u16_le, write_u16_le};
use crate::common::{lemma_until_zero, until_zero, Framed};
use crate::text::{decimal, decimal_string, has_no_nul, lemma_utf8_no_zero_byte};
use vstd::prelude::*;
use vstd::utf8::encode_utf8;

verus! {

/// The part of a container that a control block opens.
#[derive(Clone, Copy, Debug, PartialEq, Eq, Structural)]
pub enum ControlType {
    /// The container as a whole.
    Global,
    /// The header.
    Header,
    /// The dictionary.
    Dictionary,
    /// The triples.
    Triples,
}

/// The byte that stands for a control type.
pub open spec fn control_code(control_type: ControlType) -> u8 {
    match control_type {
        ControlType::Global => 1,
        ControlType::Header => 2,
        ControlType::Dictionary => 3,
        ControlType::Triples => 4,
    }
}

/// A property of a control block: a key and its value.
pub struct Property {
    /// The key.
    pub key: String,
    /// The value.
    pub value: String,
}

/// What a control block holds.
pub struct ControlInfoView {
    /// The part of the container that the block opens.
    pub control_type: ControlType,
    /// The format of that part.
    pub format: Seq<char>,
    /// The properties as pairs of key and value, in the order in which they
    /// are written.
    pub properties: Seq<(Seq<char>, Seq<char>)>,
}

/// A control block.
pub struct ControlInfo {
    /// The part of the container that the block opens.
    pub control_type: ControlType,
    /// The format of that part.
    pub format: String,
    /// The properties, in the order in which they are written.
    pub properties: Vec<Property>,
}

impl View for ControlInfo {
    type V = ControlInfoView;

    open spec fn view(&self) -> ControlInfoView {
        ControlInfoView {
            control_type: self.control_type,
            format: self.format@,
            properties: self.properties@.map_values(|p: Property| (p.key@, p.value@)),
        }
    }
}

/// The four bytes that every control block starts with: `$HDT`.
pub open spec fn cookie() -> Seq<u8> {
    seq![0x24u8, 0x48u8, 0x44u8, 0x54u8]
}

/// The first `n` properties as text: for each the key, `=`, the value and
/// `;`.
pub open spec fn properties_text(properties: Seq<(Seq<char>, Seq<char>)>, n: nat) -> Seq<u8>
    decreases n,
{
    if n == 0 {
        Seq::empty()
    } else {
        properties_text(properties, (n - 1) as nat) + encode_utf8(properties[n - 1].0) + seq![
            0x3du8,
        ] + encode_utf8(properties[n - 1].1) + seq![0x3bu8]
    }
}

/// The region of a control block that its checksum covers: the cookie, the
/// type, the format and the properties, the last two closed by a zero byte
/// each.
pub open spec fn control_frame(info: ControlInfoView) -> Seq<u8> {
    cookie() + seq![control_code(info.control_type)] + encode_utf8(info.format) + seq![0u8]
        + properties_text(info.properties, info.properties.len()) + seq![0u8]
}

/// The serialized form of a control block: the framed region and its
/// CRC-16/ARC, least significant byte first.
pub open spec fn control_block(info: ControlInfoView) -> Seq<u8> {
    control_frame(info) + u16_le(crc16_arc(control_frame(info)))
}

/// The control block of a container: no properties.
pub open spec fn global_info() -> ControlInfoView {
    ControlInfoView {
        control_type: ControlType::Global,
        format: "<http://purl.org/HDT/hdt#HDTv1>"@,
        properties: Seq::empty(),
    }
}

/// The control block of a header in N-Triples that is `length` bytes long.
pub open spec fn header_info(length: nat) -> ControlInfoView {
    ControlInfoView {
        control_type: ControlType::Header,
        format: "ntriples"@,
        properties: seq![("length"@, decimal(length))],
    }
}

/// The control block of a four-section dictionary whose terms take
/// `size_strings` bytes.
pub open spec fn dictionary_info(size_strings: nat) -> ControlInfoView {
    ControlInfoView {
        control_type: ControlType::Dictionary,
        format: "<http://purl.org/HDT/hdt#dictionaryFour>"@,
        properties: seq![("mappings"@, "1"@), ("sizeStrings"@, decimal(size_strings))],
    }
}

/// The control block of bitmap triples in subject-predicate-object order.
pub open spec fn triples_info() -> ControlInfoView {
    ControlInfoView {
        control_type: ControlType::Triples,
        format: "<http://purl.org/HDT/hdt#triplesBitmap>"@,
        properties: seq![("order"@, "1"@)],
    }
}

impl ControlInfo {
    /// The control block of a container.
    pub fn global() -> (info: ControlInfo)
        ensures
            info@ == global_info(),
    {
        let info = ControlInfo {
            control_type: ControlType::Global,
            format: String::from_str("<http://purl.org/HDT/hdt#HDTv1>"),
            properties: Vec::new(),
        };
        assert(info@.properties =~= Seq::empty());
        info
    }

    /// The control block of a header of `length` bytes.
    pub fn header(length: usize) -> (info: ControlInfo)
        ensures
            info@ == header_info(length as nat),
    {
        let mut properties: Vec<Property> = Vec::new();
        properties.push(
            Property { key: String::from_str("length"), value: decimal_string(length as u128) },
        );
        let info = ControlInfo {
            control_type: ControlType::Header,
            format: String::from_str("ntriples"),
            properties,
        };
        assert(info@.properties =~= header_info(length as nat).properties);
        info
    }

    /// The control block of a dictionary whose terms take `size_strings`
    /// bytes.
    pub fn dictionary(size_strings: u128) -> (info: ControlInfo)
        ensures
            info@ == dictionary_info(size_strings as nat),
    {
        let mut properties: Vec<Property> = Vec::new();
        properties.push(Property { key: String::from_str("mappings"), value: String::from_str("1") });
        properties.push(
            Property { key: String::from_str("sizeStrings"), value: decimal_string(size_strings) },
        );
        let info = ControlInfo {
            control_type: ControlType::Dictionary,
            format: String::from_str("<http://purl.org/HDT/hdt#dictionaryFour>"),
            properties,
        };
        assert(info@.properties =~= dictionary_info(size_strings as nat).properties);
        info
    }

    /// The control block of bitmap triples.
    pub fn triples() -> (info: ControlInfo)
        ensures
            info@ == triples_info(),
    {
        let mut properties: Vec<Property> = Vec::new();
        properties.push(Property { key: String::from_str("order"), value: String::from_str("1") });
        let info = ControlInfo {
            control_type: ControlType::Triples,
            format: String::from_str("<http://purl.org/HDT/hdt#triplesBitmap>"),
            properties,
        };
        assert(info@.properties =~= triples_info().properties);
        info
    }

    /// Appends the serialized form of the block to `dest`.
    pub fn save(&self, dest: &mut Vec<u8>)
        ensures
            final(dest)@ == old(dest)@ + control_block(self@),
    {
        let code: u8 = match self.control_type {
            ControlType::Global => 1,
            ControlType::Header => 2,
            ControlType::Dictionary => 3,
            ControlType::Triples => 4,
        };
        let mut frame: Vec<u8> = Vec::new();
        frame.push(0x24u8);
        frame.push(0x48u8);
        frame.push(0x44u8);
        frame.push(0x54u8);
        frame.push(code);
        append_bytes(self.format.as_str().as_bytes(), &mut frame);
        frame.push(0u8);
        let ghost head = frame@;
        assert(head =~= cookie() + seq![control_code(self@.control_type)] + encode_utf8(
            self@.format,
        ) + seq![0u8]);
        let ghost properties = self@.properties;
        let n = self.properties.len();
        let mut i: usize = 0;
        while i < n
            invariant
                properties == self@.properties,
                n == properties.len(),
                i <= n,
                frame@ == head + properties_text(properties, i as nat),
            decreases n - i,
        {
            let property = &self.properties[i];
            assert(properties[i as int] == (property.key@, property.value@));
            append_bytes(property.key.as_str().as_bytes(), &mut frame);
            frame.push(0x3du8);
            append_bytes(property.value.as_str().as_bytes(), &mut frame);
            frame.push(0x3bu8);
            i += 1;
            assert(frame@ =~= head + properties_text(properties, i as nat));
        }
        frame.push(0u8);
        assert(frame@ =~= control_frame(self@));
        let sum = crc16(frame.as_slice());
        append_bytes(frame.as_slice(), dest);
        write_u16_le(sum, dest);
        assert(dest@ =~= old(dest)@ + control_block(self@));
    }
}

/// A control block as it is read: the byte of its type, and the bytes of
/// its format and of its properties.
pub struct RawControl {
    /// The byte that stands for the control type.
    pub code: u8,
    /// The format, in UTF-8.
    pub format: Seq<u8>,
    /// The properties as text: for each the key, `=`, the value and `;`.
    pub properties: Seq<u8>,
}

/// The number that two little-endian bytes stand for.
pub open spec fn u16_from_le(bytes: Seq<u8>) -> nat
    recommends
        bytes.len() == 2,
{
    (bytes[0] as nat + 256 * (bytes[1] as nat)) as nat
}

/// Reads a control block from the start of `bytes`. The block is accepted
/// where it starts with the cookie, format and properties are closed by a
/// zero byte each, and the two bytes after them are the CRC-16/ARC of all
/// that precedes them.
#[verifier::opaque]
pub open spec fn read_control_block(bytes: Seq<u8>) -> Option<Framed<RawControl>> {
    let format_len = until_zero(bytes.skip(5));
    let properties_start = 5 + format_len + 1;
    let properties_len = until_zero(bytes.skip(properties_start as int));
    let sum_at = properties_start + properties_len + 1;
    if bytes.len() >= sum_at + 2 && bytes.take(4) == cookie() && u16_from_le(
        bytes.subrange(sum_at as int, sum_at as int + 2),
    ) == crc16_arc(bytes.take(sum_at as int)) {
        Some(
            Framed {
                content: RawControl {
                    code: bytes[4],
                    format: bytes.subrange(5, 5 + format_len as int),
                    properties: bytes.subrange(
                        properties_start as int,
                        (properties_start + properties_len) as int,
                    ),
                },
                len: (sum_at + 2) as nat,
            },
        )
    } else {
        None
    }
}

/// Neither the format, nor a key, nor a value holds the zero character, so
/// that the zero bytes of the block are those that close its parts.
pub open spec fn closes_cleanly(info: ControlInfoView) -> bool {
    &&& has_no_nul(info.format)
    &&& forall|i: int|
        0 <= i < info.properties.len() ==> has_no_nul((#[trigger] info.properties[i]).0)
            && has_no_nul(info.properties[i].1)
}

/// The text of properties without the zero character has no zero byte.
pub proof fn lemma_properties_text_no_zero_byte(properties: Seq<(Seq<char>, Seq<char>)>, n: nat)
    requires
        n <= properties.len(),
        forall|i: int|
            0 <= i < properties.len() ==> has_no_nul((#[trigger] properties[i]).0) && has_no_nul(
                properties[i].1,
            ),
    ensures
        forall|k: int|
            0 <= k < properties_text(properties, n).len() ==> #[trigger] properties_text(
                properties,
                n,
            )[k] != 0,
    decreases n,
{
    if n > 0 {
        lemma_properties_text_no_zero_byte(properties, (n - 1) as nat);
        let before = properties_text(properties, (n - 1) as nat);
        let key = encode_utf8(properties[n - 1].0);
        let value = encode_utf8(properties[n - 1].1);
        lemma_utf8_no_zero_byte(properties[n - 1].0);
        lemma_utf8_no_zero_byte(properties[n - 1].1);
        let all = properties_text(properties, n);
        assert(all =~= before + key + seq![0x3du8] + value + seq![0x3bu8]);
        assert forall|k: int| 0 <= k < all.len() implies #[trigger] all[k] != 0 by {
            if k < before.len() {
                assert(all[k] == before[k]);
            } else if k < before.len() + key.len() {
                assert(all[k] == key[k - before.len()]);
            } else if k == before.len() + key.len() {
            } else if k < before.len() + key.len() + 1 + value.len() {
                assert(all[k] == value[k - before.len() - key.len() - 1]);
            } else {
            }
        }
    }
}

/// A stored control block validates and reads back: the checksum holds,
/// type, format and properties are those that were stored, and reading
/// stops where the block ends, whatever follows it.
#[verifier::rlimit(30)]
pub proof fn lemma_control_block_reads_back(info: ControlInfoView, rest: Seq<u8>)
    requires
        closes_cleanly(info),
    ensures
        read_control_block(control_block(info) + rest) == Some(
            Framed {
                content: RawControl {
                    code: control_code(info.control_type),
                    format: encode_utf8(info.format),
                    properties: properties_text(info.properties, info.properties.len()),
                },
                len: control_block(info).len(),
            },
        ),
{
    reveal(read_control_block);
    let format = encode_utf8(info.format);
    let properties = properties_text(info.properties, info.properties.len());
    let frame = control_frame(info);
    let sum = u16_le(crc16_arc(frame));
    let bytes = control_block(info) + rest;
    lemma_utf8_no_zero_byte(info.format);
    lemma_properties_text_no_zero_byte(info.properties, info.properties.len());
    let after_format = properties + seq![0u8] + sum + rest;
    assert(bytes.skip(5) =~= format + seq![0u8] + after_format);
    lemma_until_zero(format, after_format);
    let properties_start = 5 + format.len() + 1;
    assert(bytes.skip(properties_start as int) =~= properties + seq![0u8] + (sum + rest));
    lemma_until_zero(properties, sum + rest);
    let sum_at = properties_start + properties.len() + 1;
    assert(frame.len() == sum_at);
    assert(bytes.take(sum_at as int) =~= frame);
    assert(bytes.take(4) =~= cookie());
    assert(bytes.subrange(sum_at as int, sum_at as int + 2) =~= sum);
    assert(bytes.subrange(5, 5 + format.len() as int) =~= format);
    assert(bytes.subrange(properties_start as int, (properties_start + properties.len()) as int)
        =~= properties);
}

} // verus!
