use rdf2hdt::control_info::{ControlInfo, ControlType, Property};
use rdf2hdt::header::Header;
use std::io::BufReader;

fn saved(info: &ControlInfo) -> Vec<u8> {
    let mut out = Vec::new();
    info.save(&mut out);
    out
}

fn written_by_the_helper(info: &hdt::containers::ControlInfo) -> Vec<u8> {
    let mut out = Vec::new();
    info.write(&mut out).unwrap();
    out
}

#[test]
fn global_block_has_no_properties() {
    let expected = b"$HDT\x01<http://purl.org/HDT/hdt#HDTv1>\x00\x00\x76\x35";
    assert_eq!(saved(&ControlInfo::global()), expected.to_vec());
}

#[test]
fn header_block_is_what_the_helper_writes() {
    for length in [0usize, 7, 1891, 1 << 40] {
        let expected = written_by_the_helper(&hdt::containers::ControlInfo::header(length));
        assert_eq!(saved(&ControlInfo::header(length)), expected);
    }
}

#[test]
fn empty_dictionary_block_is_what_the_helper_writes() {
    let block = ControlInfo {
        control_type: ControlType::Dictionary,
        format: "<http://purl.org/HDT/hdt#dictionaryFour>".to_string(),
        properties: Vec::new(),
    };
    let expected = written_by_the_helper(&hdt::containers::ControlInfo::four_sect_dict());
    assert_eq!(saved(&block), expected);
}

#[test]
fn dictionary_block_is_read_by_the_helper() {
    let bytes = saved(&ControlInfo::dictionary(12345));
    let read = hdt::containers::ControlInfo::read(&mut BufReader::new(&bytes[..])).unwrap();
    assert_eq!(read.control_type, hdt::containers::ControlType::Dictionary);
    assert_eq!(read.format, "<http://purl.org/HDT/hdt#dictionaryFour>");
    assert_eq!(read.properties.len(), 2);
    assert_eq!(read.get("mappings"), Some("1".to_string()));
    assert_eq!(read.get("sizeStrings"), Some("12345".to_string()));
}

#[test]
fn triples_block_is_read_by_the_helper() {
    let bytes = saved(&ControlInfo::triples());
    let read = hdt::containers::ControlInfo::read(&mut BufReader::new(&bytes[..])).unwrap();
    assert_eq!(read.control_type, hdt::containers::ControlType::Triples);
    assert_eq!(read.format, "<http://purl.org/HDT/hdt#triplesBitmap>");
    assert_eq!(read.get("order"), Some("1".to_string()));
}

#[test]
fn properties_are_written_in_their_order() {
    let block = ControlInfo {
        control_type: ControlType::Header,
        format: "f".to_string(),
        properties: vec![
            Property { key: "b".to_string(), value: "2".to_string() },
            Property { key: "a".to_string(), value: "1".to_string() },
        ],
    };
    let bytes = saved(&block);
    assert_eq!(&bytes[..bytes.len() - 2], b"$HDT\x02f\x00b=2;a=1;\x00");
    let sum = crc::Crc::<u16>::new(&crc::CRC_16_ARC).checksum(&bytes[..bytes.len() - 2]);
    assert_eq!(&bytes[bytes.len() - 2..], &sum.to_le_bytes());
}

fn header() -> Header {
    Header {
        base_iri: "file:///data/x.nt".to_string(),
        num_triples: 3,
        num_predicates: 2,
        distinct_subjects: 2,
        distinct_objects: 3,
        num_shared: 1,
        size_strings: 77,
        original_size: 4096,
        hdt_size: 512,
        issued: "2024-05-01T12:00:00+0000".to_string(),
    }
}

#[test]
fn header_is_ntriples() {
    let text = header().to_ntriples();
    let lines: Vec<&str> = text.lines().collect();
    assert_eq!(lines.len(), 21);
    assert!(text.ends_with(" .\n"));
    assert_eq!(
        lines[0],
        "<file:///data/x.nt> <http://www.w3.org/1999/02/22-rdf-syntax-ns#type> <http://purl.org/HDT/hdt#HDTv1> ."
    );
    assert_eq!(
        lines[1],
        "<file:///data/x.nt> <http://www.w3.org/1999/02/22-rdf-syntax-ns#type> <http://rdfs.org/ns/void#Dataset> ."
    );
    assert_eq!(lines[2], "<file:///data/x.nt> <http://rdfs.org/ns/void#triples> \"3\" .");
    assert_eq!(lines[3], "<file:///data/x.nt> <http://rdfs.org/ns/void#properties> \"2\" .");
    assert_eq!(lines[4], "<file:///data/x.nt> <http://rdfs.org/ns/void#distinctSubjects> \"2\" .");
    assert_eq!(lines[5], "<file:///data/x.nt> <http://rdfs.org/ns/void#distinctObjects> \"3\" .");
    assert_eq!(
        lines[6],
        "<file:///data/x.nt> <http://purl.org/HDT/hdt#statisticalInformation> _:statistics ."
    );
    assert_eq!(
        lines[7],
        "<file:///data/x.nt> <http://purl.org/HDT/hdt#publicationInformation> _:publicationInformation ."
    );
    assert_eq!(lines[8], "<file:///data/x.nt> <http://purl.org/HDT/hdt#formatInformation> _:format .");
    assert_eq!(lines[9], "_:format <http://purl.org/HDT/hdt#dictionary> _:dictionary .");
    assert_eq!(lines[10], "_:format <http://purl.org/HDT/hdt#triples> _:triples .");
    assert_eq!(
        lines[11],
        "_:dictionary <http://purl.org/HDT/hdt#dictionarynumSharedSubjectObject> \"1\" ."
    );
    assert_eq!(lines[12], "_:dictionary <http://purl.org/HDT/hdt#dictionarymapping> \"1\" .");
    assert_eq!(lines[13], "_:dictionary <http://purl.org/HDT/hdt#dictionarysizeStrings> \"77\" .");
    assert_eq!(lines[14], "_:dictionary <http://purl.org/HDT/hdt#dictionaryblockSize> \"16\" .");
    assert_eq!(
        lines[15],
        "_:triples <http://purl.org/dc/terms/format> <http://purl.org/HDT/hdt#triplesBitmap> ."
    );
    assert_eq!(lines[16], "_:triples <http://purl.org/HDT/hdt#triplesnumTriples> \"3\" .");
    assert_eq!(lines[17], "_:triples <http://purl.org/HDT/hdt#triplesOrder> \"SPO\" .");
    assert_eq!(lines[18], "_:statistics <http://purl.org/HDT/hdt#originalSize> \"4096\" .");
    assert_eq!(lines[19], "_:statistics <http://purl.org/HDT/hdt#hdtSize> \"512\" .");
    assert_eq!(
        lines[20],
        "_:publicationInformation <http://purl.org/dc/terms/issued> \"2024-05-01T12:00:00+0000\" ."
    );
}
